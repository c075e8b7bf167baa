//! Text as sequences of characters: trimming, joining, padding, flattening.

use vstd::prelude::*;

verus! {

/// `String::push` appends the character to the end of the string.
pub assume_specification[ String::push ](s: &mut String, c: char)
    ensures
        final(s)@ == old(s)@.push(c),
;

/// The characters of `s`, in order.
pub fn chars_of(s: &str) -> (chars: Vec<char>)
    ensures
        chars@ == s@,
{
    let mut chars: Vec<char> = Vec::new();
    for c in it: s.chars()
        invariant
            chars@ == it.seq().take(it.index() as int),
            it.seq() == s@,
    {
        chars.push(c);
    }
    chars
}

/// The string made of `chars`.
pub fn string_of(chars: &Vec<char>) -> (s: String)
    ensures
        s@ == chars@,
{
    let n = chars.len();
    slice_to_string(chars, 0, n)
}

/// The string made of the characters of `chars` from `from` up to `to`.
fn slice_to_string(chars: &Vec<char>, from: usize, to: usize) -> (s: String)
    requires
        from <= to <= chars@.len(),
    ensures
        s@ == chars@.subrange(from as int, to as int),
{
    let mut s = String::new();
    let mut i: usize = from;
    while i < to
        invariant
            from <= i <= to <= chars@.len(),
            s@ == chars@.subrange(from as int, i as int),
        decreases to - i,
    {
        s.push(chars[i]);
        i += 1;
    }
    s
}

/// The characters with the Unicode property White_Space.
pub open spec fn white_space(c: char) -> bool {
    ||| 0x09 <= c as u32 <= 0x0d
    ||| c as u32 == 0x20
    ||| c as u32 == 0x85
    ||| c as u32 == 0xa0
    ||| c as u32 == 0x1680
    ||| 0x2000 <= c as u32 <= 0x200a
    ||| c as u32 == 0x2028
    ||| c as u32 == 0x2029
    ||| c as u32 == 0x202f
    ||| c as u32 == 0x205f
    ||| c as u32 == 0x3000
}

/// Whether `c` has the Unicode property White_Space.
pub fn is_white_space(c: char) -> (yes: bool)
    ensures
        yes == white_space(c),
{
    let code: u32 = c as u32;
    (0x09 <= code && code <= 0x0d) || code == 0x20 || code == 0x85 || code == 0xa0 || code
        == 0x1680 || (0x2000 <= code && code <= 0x200a) || code == 0x2028 || code == 0x2029
        || code == 0x202f || code == 0x205f || code == 0x3000
}

/// A text of white space alone; the empty text is one.
pub open spec fn blank(s: Seq<char>) -> bool {
    forall|i: int| 0 <= i < s.len() ==> white_space(#[trigger] s[i])
}

/// `s` without its leading white space.
pub open spec fn trim_start(s: Seq<char>) -> Seq<char>
    decreases s.len(),
{
    if s.len() > 0 && white_space(s.first()) {
        trim_start(s.drop_first())
    } else {
        s
    }
}

/// `s` without its trailing white space.
pub open spec fn trim_end(s: Seq<char>) -> Seq<char>
    decreases s.len(),
{
    if s.len() > 0 && white_space(s.last()) {
        trim_end(s.drop_last())
    } else {
        s
    }
}

/// `s` without leading and trailing white space.
pub open spec fn trimmed(s: Seq<char>) -> Seq<char> {
    trim_end(trim_start(s))
}

/// A text is blank exactly if nothing is left of it once it is trimmed.
pub proof fn lemma_blank_trims_to_nothing(s: Seq<char>)
    ensures
        blank(s) <==> trimmed(s).len() == 0,
{
    lemma_trim_start(s);
    lemma_trim_end(trim_start(s));
    let t = trim_start(s);
    if trimmed(s).len() == 0 {
        assert(t.skip(0) =~= t);
        assert(t.len() == 0) by {
            if t.len() > 0 {
                assert(white_space(t[0]));
            }
        }
        assert(s.take(s.len() as int) =~= s);
    }
    if blank(s) {
        assert(t.len() == 0) by {
            if t.len() > 0 {
                assert(t[0] == s[s.len() - t.len()]);
            }
        }
    }
}

/// What `trim_start` takes away is white space, and what it leaves starts with none.
pub proof fn lemma_trim_start(s: Seq<char>)
    ensures
        trim_start(s).len() <= s.len(),
        trim_start(s) == s.skip(s.len() - trim_start(s).len()),
        blank(s.take(s.len() - trim_start(s).len())),
        trim_start(s).len() > 0 ==> !white_space(trim_start(s).first()),
    decreases s.len(),
{
    if s.len() > 0 && white_space(s.first()) {
        let rest = s.drop_first();
        lemma_trim_start(rest);
        let n = s.len() - trim_start(s).len();
        assert(trim_start(s) =~= s.skip(n));
        assert forall|i: int| 0 <= i < s.take(n).len() implies white_space(
            #[trigger] s.take(n)[i],
        ) by {
            if i > 0 {
                assert(s.take(n)[i] == rest.take(n - 1)[i - 1]);
            }
        }
    } else {
        assert(s.skip(0) =~= s);
    }
}

/// What `trim_end` takes away is white space, and what it leaves ends with none.
pub proof fn lemma_trim_end(s: Seq<char>)
    ensures
        trim_end(s).len() <= s.len(),
        trim_end(s) == s.take(trim_end(s).len() as int),
        blank(s.skip(trim_end(s).len() as int)),
        trim_end(s).len() > 0 ==> !white_space(trim_end(s).last()),
    decreases s.len(),
{
    if s.len() > 0 && white_space(s.last()) {
        let rest = s.drop_last();
        lemma_trim_end(rest);
        let n = trim_end(s).len() as int;
        assert(trim_end(s) =~= s.take(n));
        assert forall|i: int| 0 <= i < s.skip(n).len() implies white_space(
            #[trigger] s.skip(n)[i],
        ) by {
            if i + n < s.len() - 1 {
                assert(s.skip(n)[i] == rest.skip(n)[i]);
            }
        }
    } else {
        assert(s.take(s.len() as int) =~= s);
    }
}

/// A character at the end of a text that is not blank stays at the end once the text is stripped
/// of its leading white space.
proof fn lemma_trim_start_push(s: Seq<char>, c: char)
    requires
        !blank(s),
    ensures
        trim_start(s.push(c)) == trim_start(s).push(c),
    decreases s.len(),
{
    if white_space(s.first()) {
        let rest = s.drop_first();
        assert(!blank(rest)) by {
            let i = choose|i: int| 0 <= i < s.len() && !white_space(#[trigger] s[i]);
            assert(rest[i - 1] == s[i]);
        }
        lemma_trim_start_push(rest, c);
        assert(s.push(c).drop_first() =~= rest.push(c));
    }
}

/// One character more leaves what there was at the beginning of the trimmed text.
pub proof fn lemma_trimmed_push(s: Seq<char>, c: char)
    ensures
        trimmed(s).len() <= trimmed(s.push(c)).len(),
        trimmed(s) == trimmed(s.push(c)).take(trimmed(s).len() as int),
{
    lemma_blank_trims_to_nothing(s);
    if blank(s) {
        assert(trimmed(s) =~= trimmed(s.push(c)).take(0));
    } else {
        lemma_trim_start_push(s, c);
        let t = trim_start(s);
        lemma_trim_end(t);
        assert(t.push(c).drop_last() =~= t);
        assert(trimmed(s) =~= trimmed(s.push(c)).take(trimmed(s).len() as int));
    }
}

/// Whether `s` holds nothing but white space.
pub fn is_blank(s: &str) -> (yes: bool)
    ensures
        yes == blank(s@),
        yes == (trimmed(s@).len() == 0),
{
    proof {
        lemma_blank_trims_to_nothing(s@);
    }
    let chars = chars_of(s);
    let mut i: usize = 0;
    while i < chars.len()
        invariant
            i <= chars@.len(),
            chars@ == s@,
            forall|j: int| 0 <= j < i ==> white_space(#[trigger] chars@[j]),
            blank(s@) <==> trimmed(s@).len() == 0,
        decreases chars@.len() - i,
    {
        if !is_white_space(chars[i]) {
            assert(!white_space(s@[i as int]));
            assert(!blank(s@));
            return false;
        }
        i += 1;
    }
    assert(blank(s@));
    true
}

/// `s` without leading and trailing white space.
pub fn trim(s: &str) -> (t: String)
    ensures
        t@ == trimmed(s@),
{
    let chars = chars_of(s);
    let mut from: usize = 0;
    assert(chars@.skip(0) =~= s@);
    while from < chars.len() && is_white_space(chars[from])
        invariant
            from <= chars@.len(),
            chars@ == s@,
            trim_start(s@) == trim_start(s@.skip(from as int)),
        decreases chars@.len() - from,
    {
        assert(s@.skip(from as int).first() == chars@[from as int]);
        assert(s@.skip(from as int).drop_first() =~= s@.skip(from + 1));
        from += 1;
    }
    assert(trim_start(s@) == s@.skip(from as int)) by {
        if from < s@.len() {
            assert(s@.skip(from as int).first() == chars@[from as int]);
        }
    }
    let mut to: usize = chars.len();
    let ghost rest = s@.skip(from as int);
    assert(rest.take(to - from) =~= rest);
    while from < to && is_white_space(chars[to - 1])
        invariant
            from <= to <= chars@.len(),
            chars@ == s@,
            rest == s@.skip(from as int),
            trim_end(rest) == trim_end(rest.take(to - from)),
        decreases to,
    {
        assert(rest.take(to - from).last() == chars@[to - 1]);
        assert(rest.take(to - from).drop_last() =~= rest.take(to - 1 - from));
        to -= 1;
    }
    assert(trim_end(rest) == rest.take(to - from)) by {
        if from < to {
            assert(rest.take(to - from).last() == chars@[to - 1]);
        }
    }
    assert(rest.take(to - from) =~= chars@.subrange(from as int, to as int));
    slice_to_string(&chars, from, to)
}

/// `s` without the spaces and tabs at its end.
pub open spec fn without_trailing_blanks(s: Seq<char>) -> Seq<char>
    decreases s.len(),
{
    if s.len() > 0 && (s.last() == ' ' || s.last() == '\t') {
        without_trailing_blanks(s.drop_last())
    } else {
        s
    }
}

/// `s` without the spaces and tabs at its end.
pub fn trim_end_blanks(s: &str) -> (t: String)
    ensures
        t@ == without_trailing_blanks(s@),
{
    let chars = chars_of(s);
    let mut to: usize = chars.len();
    assert(chars@.take(to as int) =~= s@);
    while 0 < to && (chars[to - 1] == ' ' || chars[to - 1] == '\t')
        invariant
            to <= chars@.len(),
            chars@ == s@,
            without_trailing_blanks(s@) == without_trailing_blanks(s@.take(to as int)),
        decreases to,
    {
        assert(s@.take(to as int).last() == chars@[to - 1]);
        assert(s@.take(to as int).drop_last() =~= s@.take(to - 1));
        to -= 1;
    }
    assert(without_trailing_blanks(s@) == s@.take(to as int)) by {
        if to > 0 {
            assert(s@.take(to as int).last() == chars@[to - 1]);
        }
    }
    assert(s@.take(to as int) =~= chars@.subrange(0, to as int));
    slice_to_string(&chars, 0, to)
}

/// The texts of a list of strings.
pub open spec fn texts(words: Seq<String>) -> Seq<Seq<char>> {
    words.map_values(|w: String| w@)
}

/// The words one after the other, with one space between neighbours.
pub open spec fn joined(words: Seq<Seq<char>>) -> Seq<char>
    decreases words.len(),
{
    if words.len() == 0 {
        Seq::empty()
    } else if words.len() == 1 {
        words[0]
    } else {
        joined(words.drop_last()) + seq![' '] + words.last()
    }
}

/// The words one after the other, with one space between neighbours.
pub fn join_words(words: &[String]) -> (line: String)
    ensures
        line@ == joined(texts(words@)),
{
    let mut line = String::new();
    let mut i: usize = 0;
    let ghost all = texts(words@);
    while i < words.len()
        invariant
            i <= words@.len(),
            all == texts(words@),
            line@ == joined(all.take(i as int)),
        decreases words@.len() - i,
    {
        if i > 0 {
            line.push(' ');
        }
        line.append(words[i].as_str());
        proof {
            let next = all.take(i + 1);
            assert(next.drop_last() =~= all.take(i as int));
            assert(next.last() == words@[i as int]@);
            assert(line@ =~= joined(next));
        }
        i += 1;
    }
    assert(all.take(i as int) =~= all);
    line
}

/// `s` on one line: two spaces stand for each line feed.
pub open spec fn flattened(s: Seq<char>) -> Seq<char>
    decreases s.len(),
{
    if s.len() == 0 {
        Seq::empty()
    } else if s.last() == '\n' {
        flattened(s.drop_last()) + seq![' ', ' ']
    } else {
        flattened(s.drop_last()).push(s.last())
    }
}

/// `s` on one line: two spaces stand for each line feed.
pub fn flatten(s: &str) -> (line: String)
    ensures
        line@ == flattened(s@),
{
    let chars = chars_of(s);
    let mut line = String::new();
    let mut i: usize = 0;
    while i < chars.len()
        invariant
            i <= chars@.len(),
            chars@ == s@,
            line@ == flattened(s@.take(i as int)),
        decreases chars@.len() - i,
    {
        assert(s@.take(i + 1).drop_last() =~= s@.take(i as int));
        assert(s@.take(i + 1).last() == chars@[i as int]);
        if chars[i] == '\n' {
            line.push(' ');
            line.push(' ');
            assert(line@ =~= flattened(s@.take(i as int)) + seq![' ', ' ']);
        } else {
            line.push(chars[i]);
        }
        i += 1;
    }
    assert(s@.take(i as int) =~= s@);
    line
}

/// A flattened text holds no line feed.
pub proof fn lemma_flattened_has_no_line_feed(s: Seq<char>)
    ensures
        !flattened(s).contains('\n'),
    decreases s.len(),
{
    if s.len() > 0 {
        lemma_flattened_has_no_line_feed(s.drop_last());
        let head = flattened(s.drop_last());
        assert forall|i: int| 0 <= i < flattened(s).len() implies flattened(s)[i] != '\n' by {
            if i < head.len() {
                assert(flattened(s)[i] == head[i]);
                assert(head.contains(head[i]));
            }
        }
    }
}

/// `n` copies of `c`.
pub open spec fn repeated(c: char, n: nat) -> Seq<char> {
    Seq::new(n, |i: int| c)
}

/// `s` with as many `fill` before it as it lacks to `width` characters.
pub open spec fn padded(s: Seq<char>, width: nat, fill: char) -> Seq<char> {
    if s.len() < width {
        repeated(fill, (width - s.len()) as nat) + s
    } else {
        s
    }
}

/// `s` with as many `fill` before it as it lacks to `width` characters.
pub fn pad_start(s: &str, width: usize, fill: char) -> (t: String)
    ensures
        t@ == padded(s@, width as nat, fill),
{
    let len = char_count(s);
    let mut t = String::new();
    let mut i: usize = len;
    while i < width
        invariant
            len == s@.len(),
            len <= width ==> i <= width,
            len >= width ==> i == len,
            t@ == repeated(fill, (i - len) as nat),
            i >= len,
        decreases width - i,
    {
        t.push(fill);
        i += 1;
        assert(t@ =~= repeated(fill, (i - len) as nat));
    }
    t.append(s);
    assert(t@ =~= padded(s@, width as nat, fill));
    t
}

/// How many characters `s` has.
pub fn char_count(s: &str) -> (n: usize)
    ensures
        n == s@.len(),
{
    s.unicode_len()
}

/// White space are the blank, the tab, the line breaks, and the spaces of other scripts.
pub proof fn lemma_white_space_characters(c: char)
    ensures
        white_space(c) <==> {
            ||| c == ' ' || c == '\t' || c == '\n' || c == '\r'
            ||| c == '\u{b}' || c == '\u{c}' || c == '\u{85}' || c == '\u{a0}'
            ||| c == '\u{1680}' || '\u{2000}' <= c <= '\u{200a}'
            ||| c == '\u{2028}' || c == '\u{2029}' || c == '\u{202f}'
            ||| c == '\u{205f}' || c == '\u{3000}'
        },
{
}

/// A trimmed text is what stands between the white space at both ends.
pub proof fn lemma_trimmed_is_the_middle(before: Seq<char>, middle: Seq<char>, after: Seq<char>)
    requires
        forall|i: int| 0 <= i < before.len() ==> white_space(#[trigger] before[i]),
        forall|i: int| 0 <= i < after.len() ==> white_space(#[trigger] after[i]),
        middle.len() > 0 ==> !white_space(middle[0]) && !white_space(middle[middle.len() - 1]),
    ensures
        trimmed(before + middle + after) == middle,
    decreases before.len() + after.len(),
{
    let s = before + middle + after;
    if middle.len() == 0 {
        assert forall|i: int| 0 <= i < s.len() implies white_space(#[trigger] s[i]) by {
            if i < before.len() {
                assert(s[i] == before[i]);
            } else {
                assert(s[i] == after[i - before.len()]);
            }
        }
        assert(blank(s));
        lemma_blank_trims_to_nothing(s);
        assert(trimmed(s) =~= middle);
    } else if before.len() > 0 {
        let rest = before.drop_first();
        assert forall|i: int| 0 <= i < rest.len() implies white_space(#[trigger] rest[i]) by {
            assert(rest[i] == before[i + 1]);
        }
        lemma_trimmed_is_the_middle(rest, middle, after);
        assert(s.drop_first() =~= rest + middle + after);
        assert(s.first() == before[0]);
    } else {
        assert(s.first() == middle[0]);
        assert(trim_start(s) == s);
        if after.len() > 0 {
            let rest = after.drop_last();
            assert forall|i: int| 0 <= i < rest.len() implies white_space(#[trigger] rest[i]) by {
                assert(rest[i] == after[i]);
            }
            lemma_trimmed_is_the_middle(before, middle, rest);
            let shorter = before + middle + rest;
            assert(s.drop_last() =~= shorter);
            assert(s.last() == after[after.len() - 1]);
            assert(shorter.first() == middle[0]);
            assert(trim_start(shorter) == shorter);
        } else {
            assert(s =~= middle);
        }
    }
}

/// Without the blanks at its end a text is what stands before the spaces and tabs at the end.
pub proof fn lemma_text_before_trailing_blanks(s: Seq<char>, blanks: Seq<char>)
    requires
        s.len() > 0 ==> s[s.len() - 1] != ' ' && s[s.len() - 1] != '\t',
        forall|i: int| 0 <= i < blanks.len() ==> #[trigger] blanks[i] == ' ' || blanks[i] == '\t',
    ensures
        without_trailing_blanks(s + blanks) == s,
    decreases blanks.len(),
{
    if blanks.len() > 0 {
        let rest = blanks.drop_last();
        assert forall|i: int| 0 <= i < rest.len() implies #[trigger] rest[i] == ' ' || rest[i]
            == '\t' by {
            assert(rest[i] == blanks[i]);
        }
        lemma_text_before_trailing_blanks(s, rest);
        assert((s + blanks).drop_last() =~= s + rest);
        assert((s + blanks).last() == blanks[blanks.len() - 1]);
    } else {
        assert(s + blanks =~= s);
    }
}

/// Words joined in two parts, with a space between the parts, are joined; one word stands for
/// itself.
pub proof fn lemma_joined_in_parts(first: Seq<Seq<char>>, second: Seq<Seq<char>>)
    ensures
        first.len() > 0 && second.len() > 0 ==> joined(first + second) == joined(first) + seq![' ']
            + joined(second),
        first.len() == 0 ==> joined(first) == Seq::<char>::empty(),
        first.len() == 1 ==> joined(first) == first[0],
    decreases second.len(),
{
    if first.len() > 0 && second.len() > 0 {
        let all = first + second;
        assert(all.drop_last() =~= first + second.drop_last());
        assert(all.last() == second.last());
        if second.len() == 1 {
            assert(first + second.drop_last() =~= first);
        } else {
            lemma_joined_in_parts(first, second.drop_last());
        }
        assert(joined(all) =~= joined(first) + seq![' '] + joined(second));
    }
}

/// One word more stands behind the others and a space.
pub proof fn lemma_joined_with_one_more(words: Seq<Seq<char>>, word: Seq<char>)
    requires
        words.len() > 0,
    ensures
        joined(words.push(word)) == joined(words) + seq![' '] + word,
{
    lemma_joined_in_parts(words, seq![word]);
    lemma_joined_in_parts(seq![word], Seq::empty());
    assert(words.push(word) =~= words + seq![word]);
}

/// Words make up a blank text exactly if each of them is blank.
pub proof fn lemma_blank_words(words: Seq<Seq<char>>)
    ensures
        blank(joined(words)) <==> forall|i: int, j: int|
            0 <= i < words.len() && 0 <= j < words[i].len() ==> white_space(
                #[trigger] words[i][j],
            ),
    decreases words.len(),
{
    if words.len() == 1 {
        lemma_joined_in_parts(words, Seq::empty());
        if blank(joined(words)) {
            assert forall|i: int, j: int|
                0 <= i < words.len() && 0 <= j < words[i].len() implies white_space(
                #[trigger] words[i][j],
            ) by {
                assert(joined(words)[j] == words[i][j]);
            }
        }
    } else if words.len() > 1 {
        let rest = words.drop_last();
        let last = words.last();
        let line = joined(words);
        let head = joined(rest);
        lemma_blank_words(rest);
        lemma_joined_with_one_more(rest, last);
        assert(rest.push(last) =~= words);
        if blank(line) {
            assert forall|i: int| 0 <= i < head.len() implies white_space(#[trigger] head[i]) by {
                assert(line[i] == head[i]);
            }
            assert forall|i: int, j: int|
                0 <= i < words.len() && 0 <= j < words[i].len() implies white_space(
                #[trigger] words[i][j],
            ) by {
                if i < rest.len() {
                    assert(rest[i][j] == words[i][j]);
                } else {
                    assert(line[head.len() + 1 + j] == words[i][j]);
                }
            }
        }
        if forall|i: int, j: int|
            0 <= i < words.len() && 0 <= j < words[i].len() ==> white_space(
                #[trigger] words[i][j],
            ) {
            assert forall|i: int, j: int|
                0 <= i < rest.len() && 0 <= j < rest[i].len() implies white_space(
                #[trigger] rest[i][j],
            ) by {
                assert(words[i][j] == rest[i][j]);
            }
            assert(blank(head));
            assert forall|i: int| 0 <= i < line.len() implies white_space(#[trigger] line[i]) by {
                if i < head.len() {
                    assert(line[i] == head[i]);
                } else if i > head.len() {
                    assert(line[i] == words[words.len() - 1][i - head.len() - 1]);
                }
            }
        }
    }
}

/// A text is flattened part by part: a line feed becomes two spaces, any other character stays.
pub proof fn lemma_flattened_in_parts(a: Seq<char>, b: Seq<char>)
    ensures
        flattened(a + b) == flattened(a) + flattened(b),
        a.len() == 0 ==> flattened(a) == a,
        a.len() == 1 && a[0] == '\n' ==> flattened(a) == seq![' ', ' '],
        a.len() == 1 && a[0] != '\n' ==> flattened(a) == a,
    decreases b.len(),
{
    if b.len() > 0 {
        lemma_flattened_in_parts(a, b.drop_last());
        assert((a + b).drop_last() =~= a + b.drop_last());
        assert((a + b).last() == b.last());
        assert(flattened(a + b) =~= flattened(a) + flattened(b));
    } else {
        assert(a + b =~= a);
        assert(flattened(a) + flattened(b) =~= flattened(a));
    }
    if a.len() == 1 {
        assert(a.drop_last() =~= Seq::<char>::empty());
        assert(flattened(a.drop_last()) == Seq::<char>::empty());
        if a[0] == '\n' {
            assert(flattened(a) =~= seq![' ', ' ']);
        } else {
            assert(flattened(a) =~= a);
        }
    }
}

/// A text without line feeds stays as it is.
pub proof fn lemma_one_line_stays(s: Seq<char>)
    requires
        forall|i: int| 0 <= i < s.len() ==> #[trigger] s[i] != '\n',
    ensures
        flattened(s) == s,
    decreases s.len(),
{
    if s.len() > 0 {
        let rest = s.drop_last();
        assert forall|i: int| 0 <= i < rest.len() implies #[trigger] rest[i] != '\n' by {
            assert(rest[i] == s[i]);
        }
        lemma_one_line_stays(rest);
        assert(s[s.len() - 1] != '\n');
        assert(flattened(s) =~= s);
    }
}

/// Copies of a character are that character, as often as asked for.
pub proof fn lemma_repeated(c: char, n: nat)
    ensures
        repeated(c, n).len() == n,
        forall|i: int| 0 <= i < n ==> #[trigger] repeated(c, n)[i] == c,
{
}

/// A padded text ends with the text, has nothing but the filling before it, and is as wide as
/// asked for, or as the text if that is wider.
pub proof fn lemma_padded(s: Seq<char>, width: nat, fill: char)
    ensures
        ({
            let t = padded(s, width, fill);
            &&& t.len() == if s.len() < width {
                width
            } else {
                s.len()
            }
            &&& t.skip(t.len() - s.len()) == s
            &&& forall|i: int| 0 <= i < t.len() - s.len() ==> #[trigger] t[i] == fill
        }),
{
    let t = padded(s, width, fill);
    assert(t.skip(t.len() - s.len()) =~= s);
}

} // verus!
