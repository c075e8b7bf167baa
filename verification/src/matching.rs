//! Fuzzy matching of commands against what was typed.

use std::marker::PhantomData;
use std::rc::Rc;

use fuzzy_matcher::skim;
use vstd::prelude::*;

verus! {

/// The most characters of a pattern that are matched in a text.
///
/// The matcher adds up scores in 32 bits, at most 32 points for each matched character; up to this
/// number no sum can overflow.
pub const MAX_MATCHED_CHARS: usize = 67_108_863;

/// The matcher's sums cannot overflow on a text and a pattern of these lengths: at most as many
/// characters are matched as the shorter of the two has. A pattern longer than the text does not
/// match it, and takes no sums.
pub open spec fn matchable(choice_len: nat, pattern_len: nat) -> bool {
    choice_len <= MAX_MATCHED_CHARS || pattern_len <= MAX_MATCHED_CHARS
}

/// Whether a text and a pattern of these lengths can be matched
pub fn can_match(choice_len: usize, pattern_len: usize) -> (yes: bool)
    ensures
        yes == matchable(choice_len as nat, pattern_len as nat),
{
    choice_len <= MAX_MATCHED_CHARS || pattern_len <= MAX_MATCHED_CHARS
}

/// Texts that were matched against patterns, one after the other.
pub type Calls = Seq<(Seq<char>, Seq<char>)>;

/// The score that a skim matcher, ignoring case, gives `choice` for `pattern`: higher for a better
/// match, none if `pattern` does not match.
///
/// The matcher keeps its score matrix from call to call without clearing it, and what is left there
/// can raise a later score; so the score is a function of the `earlier` calls too.
pub uninterp spec fn skim_score(earlier: Calls, choice: Seq<char>, pattern: Seq<char>) -> Option<
    i64,
>;

/// An ASCII letter in lower case; other characters stay as they are.
pub open spec fn ascii_lower(c: char) -> char {
    if 'A' <= c && c <= 'Z' {
        (c as u32 + 0x20) as char
    } else {
        c
    }
}

/// The characters of `pattern` occur in `choice` in the same order, with others between them or
/// not; ASCII letters count as equal in either case.
pub open spec fn spelled_in(pattern: Seq<char>, choice: Seq<char>) -> bool
    decreases choice.len(),
{
    if pattern.len() == 0 {
        true
    } else if choice.len() == 0 {
        false
    } else if ascii_lower(choice.first()) == ascii_lower(pattern.first()) {
        spelled_in(pattern.drop_first(), choice.drop_first())
    } else {
        spelled_in(pattern, choice.drop_first())
    }
}

/// The matcher of the crate fuzzy-matcher.
#[verifier::external_type_specification]
#[verifier::external_body]
pub struct ExSkimMatcherV2(skim::SkimMatcherV2);

/// `SkimMatcherV2::default` and `SkimMatcherV2::ignore_case`: a new matcher that does not tell
/// upper case from lower case. Matchers are opaque here, so nothing is promised of it.
#[verifier::external_body]
fn skim_matcher() -> (matcher: skim::SkimMatcherV2) {
    skim::SkimMatcherV2::default().ignore_case()
}

/// A fuzzy matcher that ignores case
pub struct Matcher {
    /// The matcher of the crate fuzzy-matcher, made by [`Matcher::new`] alone
    inner: skim::SkimMatcherV2,
    /// The calls that were made on it
    calls: Ghost<Calls>,
    /// Keeps the matcher on one thread: it has a score matrix for each
    one_thread: PhantomData<Rc<()>>,
}

impl View for Matcher {
    type V = Calls;

    /// The calls that were made on the matcher.
    closed spec fn view(&self) -> Calls {
        self.calls@
    }
}

impl Matcher {
    /// A matcher on which no call was made
    pub fn new() -> (matcher: Matcher)
        ensures
            matcher@ == Calls::empty(),
    {
        Matcher { inner: skim_matcher(), calls: Ghost(Seq::empty()), one_thread: PhantomData }
    }

    /// `SkimMatcherV2::fuzzy_match` of the crate fuzzy-matcher, on a matcher that ignores case: the
    /// score is a function of the two texts and of the calls made on the matcher before, and there
    /// is one exactly if the characters of `pattern` occur in `choice` in order.
    #[verifier::external_body]
    pub(crate) fn fuzzy_match(&mut self, choice: &str, pattern: &str) -> (score: Option<i64>)
        requires
            matchable(choice@.len(), pattern@.len()),
        ensures
            score == skim_score(old(self)@, choice@, pattern@),
            score is Some <==> spelled_in(pattern@, choice@),
            final(self)@ == old(self)@.push((choice@, pattern@)),
    {
        fuzzy_matcher::FuzzyMatcher::fuzzy_match(&self.inner, choice, pattern)
    }
}

/// What spells a pattern spells the pattern without its first character.
proof fn lemma_spelled_rest(pattern: Seq<char>, choice: Seq<char>)
    requires
        pattern.len() > 0,
        spelled_in(pattern, choice),
    ensures
        spelled_in(pattern.drop_first(), choice),
    decreases choice.len(), 0int,
{
    let rest = pattern.drop_first();
    if rest.len() > 0 {
        if ascii_lower(choice.first()) == ascii_lower(pattern.first()) {
            lemma_spelled_behind(rest, choice.first(), choice.drop_first());
            assert(seq![choice.first()] + choice.drop_first() =~= choice);
        } else {
            lemma_spelled_rest(pattern, choice.drop_first());
            lemma_spelled_behind(rest, choice.first(), choice.drop_first());
            assert(seq![choice.first()] + choice.drop_first() =~= choice);
        }
    }
}

/// A character in front takes nothing away from what a text spells.
proof fn lemma_spelled_behind(pattern: Seq<char>, c: char, choice: Seq<char>)
    requires
        spelled_in(pattern, choice),
    ensures
        spelled_in(pattern, seq![c] + choice),
    decreases choice.len(), 1int,
{
    let longer = seq![c] + choice;
    assert(longer.drop_first() =~= choice);
    if pattern.len() > 0 && ascii_lower(c) == ascii_lower(pattern.first()) {
        lemma_spelled_rest(pattern, choice);
    }
}

/// What spells a pattern spells each of its beginnings.
pub proof fn lemma_spelled_beginning(beginning: Seq<char>, pattern: Seq<char>, choice: Seq<char>)
    requires
        beginning.len() <= pattern.len(),
        beginning == pattern.take(beginning.len() as int),
        spelled_in(pattern, choice),
    ensures
        spelled_in(beginning, choice),
    decreases choice.len(),
{
    if beginning.len() > 0 {
        if ascii_lower(choice.first()) == ascii_lower(pattern.first()) {
            assert(beginning.drop_first() =~= pattern.drop_first().take(beginning.len() - 1));
            lemma_spelled_beginning(
                beginning.drop_first(),
                pattern.drop_first(),
                choice.drop_first(),
            );
        } else {
            lemma_spelled_beginning(beginning, pattern, choice.drop_first());
        }
        assert(beginning.first() == pattern.first());
    }
}

/// A text spells each part of itself.
pub proof fn lemma_spelled_part(choice: Seq<char>, from: int, to: int)
    requires
        0 <= from <= to <= choice.len(),
    ensures
        spelled_in(choice.subrange(from, to), choice),
    decreases choice.len(),
{
    let part = choice.subrange(from, to);
    if choice.len() > 0 {
        let rest = choice.drop_first();
        if from == 0 {
            if to > 0 {
                lemma_spelled_part(rest, 0, to - 1);
                assert(part.drop_first() =~= rest.subrange(0, to - 1));
            }
        } else {
            lemma_spelled_part(rest, from - 1, to - 1);
            assert(part =~= rest.subrange(from - 1, to - 1));
            lemma_spelled_behind(part, choice.first(), rest);
            assert(seq![choice.first()] + rest =~= choice);
        }
    }
}

/// Lengths can be matched exactly if 32 points for each character of the shorter text fit in 31
/// bits.
pub proof fn lemma_lengths_that_can_be_matched(choice_len: usize, pattern_len: usize, yes: bool)
    requires
        call_ensures(can_match, (choice_len, pattern_len), yes),
    ensures
        yes <==> 32 * choice_len < 0x8000_0000 || 32 * pattern_len < 0x8000_0000,
{
}

/// Two characters are alike in lower case exactly if they are the same, or the same ASCII letter in
/// different cases.
pub proof fn lemma_alike_in_lower_case(a: char, b: char)
    ensures
        ascii_lower(a) == ascii_lower(b) <==> {
            ||| a == b
            ||| 'A' <= a <= 'Z' && b as int == a as int + 32
            ||| 'A' <= b <= 'Z' && a as int == b as int + 32
        },
{
}

/// The characters of `choice` at some positions, from left to right, are those of `pattern`.
pub open spec fn spelled_at(pattern: Seq<char>, choice: Seq<char>, positions: Seq<int>) -> bool {
    &&& positions.len() == pattern.len()
    &&& forall|i: int|
        0 <= i < positions.len() ==> 0 <= #[trigger] positions[i] < choice.len() && ascii_lower(
            choice[positions[i]],
        ) == ascii_lower(pattern[i])
    &&& forall|i: int, j: int|
        0 <= i < j < positions.len() ==> #[trigger] positions[i] < #[trigger] positions[j]
}

/// A text spells a pattern exactly if the pattern's characters stand somewhere in the text, from
/// left to right.
pub proof fn lemma_spelled_from_left_to_right(pattern: Seq<char>, choice: Seq<char>)
    ensures
        spelled_in(pattern, choice) <==> exists|positions: Seq<int>|
            spelled_at(pattern, choice, positions),
{
    if spelled_in(pattern, choice) {
        let positions = lemma_spelled_positions(pattern, choice);
        assert(spelled_at(pattern, choice, positions));
    }
    if exists|positions: Seq<int>| spelled_at(pattern, choice, positions) {
        let positions = choose|positions: Seq<int>| spelled_at(pattern, choice, positions);
        lemma_spelled_by_positions(pattern, choice, positions);
    }
}

proof fn lemma_spelled_positions(pattern: Seq<char>, choice: Seq<char>) -> (positions: Seq<int>)
    requires
        spelled_in(pattern, choice),
    ensures
        spelled_at(pattern, choice, positions),
    decreases choice.len(),
{
    if pattern.len() == 0 {
        Seq::empty()
    } else {
        let rest = choice.drop_first();
        if ascii_lower(choice.first()) == ascii_lower(pattern.first()) {
            let inner = lemma_spelled_positions(pattern.drop_first(), rest);
            let positions = Seq::new(
                pattern.len(),
                |i: int|
                    if i == 0 {
                        0
                    } else {
                        inner[i - 1] + 1
                    },
            );
            assert forall|i: int| 0 <= i < positions.len() implies 0 <= #[trigger] positions[i]
                < choice.len() && ascii_lower(choice[positions[i]]) == ascii_lower(pattern[i]) by {
                if i > 0 {
                    assert(choice[inner[i - 1] + 1] == rest[inner[i - 1]]);
                    assert(pattern[i] == pattern.drop_first()[i - 1]);
                }
            }
            assert forall|i: int, j: int| 0 <= i < j < positions.len() implies #[trigger] positions[
            i] < #[trigger] positions[j] by {
                assert(inner[j - 1] >= 0);
                if i > 0 {
                    assert(inner[i - 1] < inner[j - 1]);
                }
            }
            positions
        } else {
            let inner = lemma_spelled_positions(pattern, rest);
            let positions = Seq::new(pattern.len(), |i: int| inner[i] + 1);
            assert forall|i: int| 0 <= i < positions.len() implies 0 <= #[trigger] positions[i]
                < choice.len() && ascii_lower(choice[positions[i]]) == ascii_lower(pattern[i]) by {
                assert(choice[inner[i] + 1] == rest[inner[i]]);
            }
            positions
        }
    }
}

proof fn lemma_spelled_by_positions(pattern: Seq<char>, choice: Seq<char>, positions: Seq<int>)
    requires
        spelled_at(pattern, choice, positions),
    ensures
        spelled_in(pattern, choice),
    decreases choice.len(),
{
    if pattern.len() > 0 {
        assert(0 <= positions[0] < choice.len());
        let rest = choice.drop_first();
        if ascii_lower(choice.first()) == ascii_lower(pattern.first()) {
            let inner = Seq::new((pattern.len() - 1) as nat, |i: int| positions[i + 1] - 1);
            assert forall|i: int| 0 <= i < inner.len() implies 0 <= #[trigger] inner[i]
                < rest.len() && ascii_lower(rest[inner[i]]) == ascii_lower(
                pattern.drop_first()[i],
            ) by {
                assert(positions[0] < positions[i + 1]);
                assert(rest[inner[i]] == choice[positions[i + 1]]);
            }
            assert forall|i: int, j: int| 0 <= i < j < inner.len() implies #[trigger] inner[i]
                < #[trigger] inner[j] by {
                assert(positions[i + 1] < positions[j + 1]);
            }
            lemma_spelled_by_positions(pattern.drop_first(), rest, inner);
        } else {
            let inner = Seq::new(pattern.len(), |i: int| positions[i] - 1);
            assert(positions[0] != 0);
            assert forall|i: int| 0 <= i < inner.len() implies 0 <= #[trigger] inner[i]
                < rest.len() && ascii_lower(rest[inner[i]]) == ascii_lower(pattern[i]) by {
                if i > 0 {
                    assert(positions[0] < positions[i]);
                }
                assert(rest[inner[i]] == choice[positions[i]]);
            }
            lemma_spelled_by_positions(pattern, rest, inner);
        }
    }
}

} // verus!
