//! The search: a query, the candidates that match it, and the selected one.

use vstd::prelude::*;

use crate::matching::{self, Calls, Matcher};
use crate::ranking;
use crate::text;

verus! {

/// One history row shown in search results
#[derive(Debug)]
pub struct Candidate {
    /// Command text
    pub cmd: String,
    /// Unix timestamp of last use
    pub ts: i64,
}

impl Candidate {
    /// The candidate for a row of the history; a row without a timestamp has the timestamp 0.
    pub fn from_row(cmd: String, ts: Option<i64>) -> (candidate: Candidate)
        ensures
            candidate.cmd == cmd,
            candidate.ts == match ts {
                Some(t) => t,
                None => 0,
            },
    {
        Candidate { cmd, ts: ts.unwrap_or(0) }
    }
}

/// Which entry of a list is selected
#[derive(Clone, Copy, Debug, PartialEq, Eq, Structural)]
pub struct ListState {
    /// Position of the selected entry
    pub selected: Option<usize>,
}

impl ListState {
    /// Position of the selected entry, if any
    pub fn selected(&self) -> (position: Option<usize>)
        ensures
            position == self.selected,
    {
        self.selected
    }

    /// Selects the entry at `position`, or none
    pub fn select(&mut self, position: Option<usize>)
        ensures
            final(self).selected == position,
    {
        self.selected = position;
    }
}

impl Default for ListState {
    /// Nothing is selected.
    fn default() -> (state: ListState)
        ensures
            state.selected is None,
    {
        ListState { selected: None }
    }
}

/// Interactive fuzzy-search state
pub struct SearchApp {
    /// Current query text
    pub query: String,
    /// Cursor column within `query` (char index)
    pub cursor_col: usize,
    /// Full candidate list from the database
    pub all: Vec<Candidate>,
    /// Indices into `all` matching the current query
    pub filtered: Vec<usize>,
    /// List selection state
    pub list_state: ListState,
    /// Accepted command, if any
    pub selected: Option<String>,
    /// Fuzzy matcher instance
    pub matcher: Matcher,
}

/// The calls that match all candidates against a pattern, in their order.
pub open spec fn calls_for(all: Seq<Candidate>, pattern: Seq<char>) -> Calls {
    Seq::new(all.len(), |i: int| (all[i].cmd@, pattern))
}

/// The scores of all candidates for a pattern, matched in their order by a matcher on which some
/// calls were made before.
pub open spec fn scores_for(earlier: Calls, all: Seq<Candidate>, pattern: Seq<char>) -> Seq<
    Option<i64>,
> {
    Seq::new(
        all.len(),
        |i: int|
            matching::skim_score(earlier + calls_for(all, pattern).take(i), all[i].cmd@, pattern),
    )
}

/// The calls on a matcher once the matches for a query were looked up: a blank query takes none.
pub open spec fn calls_after(earlier: Calls, all: Seq<Candidate>, query: Seq<char>) -> Calls {
    if text::blank(query) {
        earlier
    } else {
        earlier + calls_for(all, text::trimmed(query))
    }
}

/// The numbers from 0 up to `n`.
pub open spec fn positions(n: nat) -> Seq<usize> {
    Seq::new(n, |i: int| i as usize)
}

/// A candidate matches a query: the query is blank, or the candidate's command holds the
/// characters of the trimmed query in order.
pub open spec fn matches_query(candidate: Candidate, query: Seq<char>) -> bool {
    text::blank(query) || matching::spelled_in(text::trimmed(query), candidate.cmd@)
}

/// `filtered` lists the candidates that match `query`: for a blank query in the order of `all`,
/// else by their scores for the trimmed query, best first, from a matcher on which the `earlier`
/// calls were made before.
pub open spec fn lists_matches(
    earlier: Calls,
    all: Seq<Candidate>,
    query: Seq<char>,
    filtered: Seq<usize>,
) -> bool {
    &&& if text::blank(query) {
        filtered == positions(all.len())
    } else {
        ranking::is_ranking(scores_for(earlier, all, text::trimmed(query)), filtered)
    }
    &&& forall|i: int|
        0 <= i < all.len() ==> (filtered.contains(i as usize) <==> #[trigger] matches_query(
            all[i],
            query,
        ))
}

/// The selection for a list of `len` entries: the old one, moved to the last entry if it lies
/// beyond; the first entry if there was none; none if the list is empty.
pub open spec fn clamped(selected: Option<usize>, len: nat) -> Option<usize> {
    if len == 0 {
        None
    } else {
        match selected {
            Some(i) => if i < len {
                Some(i)
            } else {
                Some((len - 1) as usize)
            },
            None => Some(0),
        }
    }
}

/// The selection one entry up; the first entry stays.
pub open spec fn moved_up(selected: Option<usize>) -> Option<usize> {
    match selected {
        Some(i) => if i > 0 {
            Some((i - 1) as usize)
        } else {
            Some(i)
        },
        None => None,
    }
}

/// The selection one entry down in a list of `len` entries; the last entry stays.
pub open spec fn moved_down(selected: Option<usize>, len: nat) -> Option<usize> {
    match selected {
        Some(i) => if i + 1 < len {
            Some((i + 1) as usize)
        } else {
            Some(i)
        },
        None => None,
    }
}

/// The candidates can be matched against a pattern without an overflow of the matcher's sums.
pub open spec fn all_matchable(all: Seq<Candidate>, pattern: Seq<char>) -> bool {
    forall|i: int|
        0 <= i < all.len() ==> matching::matchable((#[trigger] all[i]).cmd@.len(), pattern.len())
}

/// The candidates can be searched for a query: a blank one takes no matching.
pub open spec fn searchable(all: Seq<Candidate>, query: Seq<char>) -> bool {
    text::blank(query) || all_matchable(all, text::trimmed(query))
}

/// Whether the candidates can be searched for a query
pub fn can_search(all: &Vec<Candidate>, query: &str) -> (yes: bool)
    ensures
        yes == searchable(all@, query@),
{
    if text::is_blank(query) {
        return true;
    }
    let pattern = text::trim(query);
    let pattern_len = text::char_count(pattern.as_str());
    let mut i: usize = 0;
    while i < all.len()
        invariant
            i <= all@.len(),
            pattern_len == pattern@.len(),
            pattern@ == text::trimmed(query@),
            !text::blank(query@),
            forall|j: int|
                0 <= j < i ==> matching::matchable((#[trigger] all@[j]).cmd@.len(), pattern@.len()),
        decreases all@.len() - i,
    {
        if !matching::can_match(text::char_count(all[i].cmd.as_str()), pattern_len) {
            return false;
        }
        i += 1;
    }
    true
}

impl SearchApp {
    /// The state of a search between two keys: the cursor stands in the query, the list holds the
    /// query's matches, and an entry is selected if there is one.
    pub open spec fn wf(&self) -> bool {
        &&& self.cursor_col <= self.query@.len()
        &&& exists|earlier: Calls|
            #[trigger] lists_matches(earlier, self.all@, self.query@, self.filtered@)
        &&& self.selection_valid()
    }

    /// The selection is an entry of the list, and there is one unless the list is empty.
    pub open spec fn selection_valid(&self) -> bool {
        match self.list_state.selected {
            Some(i) => i < self.filtered@.len(),
            None => self.filtered@.len() == 0,
        }
    }

    /// The candidate at a position of the filtered list.
    pub open spec fn candidate_at(&self, position: int) -> Option<Candidate> {
        if 0 <= position < self.filtered@.len() && self.filtered@[position] < self.all@.len() {
            Some(self.all@[self.filtered@[position] as int])
        } else {
            None
        }
    }

    /// The selected candidate.
    pub open spec fn selected_candidate(&self) -> Option<Candidate> {
        match self.list_state.selected {
            Some(i) => self.candidate_at(i as int),
            None => None,
        }
    }

    /// Builds a search app and applies the initial query filter
    pub fn new(all: Vec<Candidate>, initial: String) -> (app: Self)
        requires
            searchable(all@, initial@),
        ensures
            app.query == initial,
            app.cursor_col == initial@.len(),
            app.all == all,
            lists_matches(Calls::empty(), all@, initial@, app.filtered@),
            app.matcher@ == calls_after(Calls::empty(), all@, initial@),
            app.list_state.selected == clamped(None, app.filtered@.len()),
            app.selected is None,
            app.wf(),
    {
        let cursor_col = text::char_count(initial.as_str());
        let mut app = SearchApp {
            query: initial,
            cursor_col,
            all,
            filtered: Vec::new(),
            list_state: ListState::default(),
            selected: None,
            matcher: Matcher::new(),
        };
        app.filter();
        app
    }

    /// Recomputes `filtered` from `query` and clamps selection
    pub fn filter(&mut self)
        requires
            searchable(old(self).all@, old(self).query@),
        ensures
            lists_matches(
                old(self).matcher@,
                old(self).all@,
                old(self).query@,
                final(self).filtered@,
            ),
            final(self).matcher@ == calls_after(
                old(self).matcher@,
                old(self).all@,
                old(self).query@,
            ),
            final(self).list_state.selected == clamped(
                old(self).list_state.selected,
                final(self).filtered@.len(),
            ),
            final(self).selection_valid(),
            final(self).query == old(self).query,
            final(self).cursor_col == old(self).cursor_col,
            final(self).all == old(self).all,
            final(self).selected == old(self).selected,
    {
        let q = text::trim(self.query.as_str());
        proof {
            text::lemma_blank_trims_to_nothing(self.query@);
        }
        if q.as_str().is_empty() {
            self.show_all();
        } else {
            let scores = score_all(&mut self.matcher, &self.all, q.as_str());
            self.show_ranked(&scores);
            proof {
                assert(self.all@.len() == self.all.len());
                lemma_ranking_lists_matches(
                    old(self).matcher@,
                    self.all@,
                    self.query@,
                    self.filtered@,
                    scores@,
                );
            }
        }
    }

    /// Lists all candidates in their order and clamps selection
    pub fn show_all(&mut self)
        ensures
            final(self).filtered@ == positions(old(self).all@.len()),
            final(self).list_state.selected == clamped(
                old(self).list_state.selected,
                old(self).all@.len(),
            ),
            final(self).query == old(self).query,
            final(self).cursor_col == old(self).cursor_col,
            final(self).all == old(self).all,
            final(self).selected == old(self).selected,
            final(self).matcher == old(self).matcher,
            text::blank(old(self).query@) ==> lists_matches(
                old(self).matcher@,
                old(self).all@,
                old(self).query@,
                final(self).filtered@,
            ),
    {
        let mut filtered: Vec<usize> = Vec::new();
        let n = self.all.len();
        let mut i: usize = 0;
        while i < n
            invariant
                i <= n,
                filtered@ == positions(i as nat),
            decreases n - i,
        {
            filtered.push(i);
            i += 1;
            assert(filtered@ =~= positions(i as nat));
        }
        assert forall|p: usize| p < n implies #[trigger] filtered@.contains(p) by {
            assert(filtered@[p as int] == p);
        }
        self.filtered = filtered;
        self.clamp_selection();
    }

    /// Lists the candidates that have a score, best score first, and clamps selection
    pub fn show_ranked(&mut self, scores: &Vec<Option<i64>>)
        ensures
            ranking::is_ranking(scores@, final(self).filtered@),
            final(self).list_state.selected == clamped(
                old(self).list_state.selected,
                final(self).filtered@.len(),
            ),
            final(self).query == old(self).query,
            final(self).cursor_col == old(self).cursor_col,
            final(self).all == old(self).all,
            final(self).selected == old(self).selected,
            final(self).matcher == old(self).matcher,
    {
        self.filtered = ranking::rank(scores);
        self.clamp_selection();
    }

    /// Keeps the selection within the list
    fn clamp_selection(&mut self)
        ensures
            final(self).list_state.selected == clamped(
                old(self).list_state.selected,
                old(self).filtered@.len(),
            ),
            final(self).filtered == old(self).filtered,
            final(self).query == old(self).query,
            final(self).cursor_col == old(self).cursor_col,
            final(self).all == old(self).all,
            final(self).selected == old(self).selected,
            final(self).matcher == old(self).matcher,
    {
        let len = self.filtered.len();
        if len == 0 {
            self.list_state.select(None);
        } else {
            let mut sel = self.list_state.selected().unwrap_or(0);
            if sel > len - 1 {
                sel = len - 1;
            }
            self.list_state.select(Some(sel));
        }
    }

    /// Moves the selection up one row
    pub fn move_up(&mut self)
        ensures
            final(self).list_state.selected == moved_up(old(self).list_state.selected),
            final(self).filtered == old(self).filtered,
            final(self).query == old(self).query,
            final(self).cursor_col == old(self).cursor_col,
            final(self).all == old(self).all,
            final(self).selected == old(self).selected,
            final(self).matcher == old(self).matcher,
    {
        if let Some(i) = self.list_state.selected() {
            if i > 0 {
                self.list_state.select(Some(i - 1));
            }
        }
    }

    /// Moves the selection down one row
    pub fn move_down(&mut self)
        ensures
            final(self).list_state.selected == moved_down(
                old(self).list_state.selected,
                old(self).filtered@.len(),
            ),
            final(self).filtered == old(self).filtered,
            final(self).query == old(self).query,
            final(self).cursor_col == old(self).cursor_col,
            final(self).all == old(self).all,
            final(self).selected == old(self).selected,
            final(self).matcher == old(self).matcher,
    {
        if let Some(i) = self.list_state.selected() {
            if i.saturating_add(1) < self.filtered.len() {
                self.list_state.select(Some(i + 1));
            }
        }
    }

    /// Accepts the currently selected candidate into `selected`
    pub fn accept(&mut self)
        ensures
            final(self).selected == match old(self).selected_candidate() {
                Some(candidate) => Some(candidate.cmd),
                None => old(self).selected,
            },
            final(self).list_state == old(self).list_state,
            final(self).filtered == old(self).filtered,
            final(self).query == old(self).query,
            final(self).cursor_col == old(self).cursor_col,
            final(self).all == old(self).all,
            final(self).matcher == old(self).matcher,
    {
        if let Some(i) = self.list_state.selected() {
            let accepted = match self.candidate_at_filtered(i) {
                Some(candidate) => Some(candidate.cmd.clone()),
                None => None,
            };
            if accepted.is_some() {
                self.selected = accepted;
            }
        }
    }

    /// Resolves a filtered-list index to its [`Candidate`]
    pub fn candidate_at_filtered(&self, filtered_index: usize) -> (candidate: Option<&Candidate>)
        ensures
            match candidate {
                Some(c) => self.candidate_at(filtered_index as int) == Some(*c),
                None => self.candidate_at(filtered_index as int) is None,
            },
    {
        if filtered_index < self.filtered.len() {
            let idx = self.filtered[filtered_index];
            if idx < self.all.len() {
                Some(&self.all[idx])
            } else {
                None
            }
        } else {
            None
        }
    }
}

/// The scores of all candidates for `pattern`, in their order
fn score_all(matcher: &mut Matcher, all: &Vec<Candidate>, pattern: &str) -> (scores: Vec<
    Option<i64>,
>)
    requires
        all_matchable(all@, pattern@),
    ensures
        scores@ == scores_for(old(matcher)@, all@, pattern@),
        final(matcher)@ == old(matcher)@ + calls_for(all@, pattern@),
        forall|i: int|
            0 <= i < all@.len() ==> (#[trigger] scores@[i] is Some <==> matching::spelled_in(
                pattern@,
                all@[i].cmd@,
            )),
{
    let mut scores: Vec<Option<i64>> = Vec::new();
    let ghost earlier = matcher@;
    let ghost calls = calls_for(all@, pattern@);
    let mut i: usize = 0;
    assert(earlier + calls.take(0) =~= earlier);
    while i < all.len()
        invariant
            i <= all@.len(),
            all_matchable(all@, pattern@),
            calls == calls_for(all@, pattern@),
            matcher@ == earlier + calls.take(i as int),
            scores@ == scores_for(earlier, all@, pattern@).take(i as int),
            forall|k: int|
                0 <= k < i ==> (#[trigger] scores@[k] is Some <==> matching::spelled_in(
                    pattern@,
                    all@[k].cmd@,
                )),
        decreases all@.len() - i,
    {
        let score = matcher.fuzzy_match(all[i].cmd.as_str(), pattern);
        scores.push(score);
        i += 1;
        assert(earlier + calls.take(i as int) =~= (earlier + calls.take(i - 1)).push(calls[i - 1]));
        assert(scores@ =~= scores_for(earlier, all@, pattern@).take(i as int));
    }
    assert(calls.take(i as int) =~= calls);
    assert(scores@ =~= scores_for(earlier, all@, pattern@));
    scores
}

/// A ranking by the scores for the trimmed query lists the candidates that match the query.
proof fn lemma_ranking_lists_matches(
    earlier: Calls,
    all: Seq<Candidate>,
    query: Seq<char>,
    filtered: Seq<usize>,
    scores: Seq<Option<i64>>,
)
    requires
        !text::blank(query),
        scores == scores_for(earlier, all, text::trimmed(query)),
        all.len() <= usize::MAX,
        forall|i: int|
            0 <= i < all.len() ==> (#[trigger] scores[i] is Some <==> matching::spelled_in(
                text::trimmed(query),
                all[i].cmd@,
            )),
        ranking::is_ranking(scores, filtered),
    ensures
        lists_matches(earlier, all, query, filtered),
{
    assert forall|i: int| 0 <= i < all.len() implies (filtered.contains(i as usize)
        <==> #[trigger] matches_query(all[i], query)) by {
        let position = i as usize;
        assert(scores[i] is Some <==> matching::spelled_in(text::trimmed(query), all[i].cmd@));
        if filtered.contains(position) {
            let k = choose|k: int| 0 <= k < filtered.len() && filtered[k] == position;
            assert(scores[filtered[k] as int] is Some);
        }
    }
}

/// A matcher, candidates and a query have one list of matches only.
pub proof fn lemma_matches_are_unique(
    earlier: Calls,
    all: Seq<Candidate>,
    query: Seq<char>,
    a: Seq<usize>,
    b: Seq<usize>,
)
    requires
        lists_matches(earlier, all, query, a),
        lists_matches(earlier, all, query, b),
    ensures
        a == b,
{
    if !text::blank(query) {
        ranking::lemma_ranking_is_unique(scores_for(earlier, all, text::trimmed(query)), a, b);
    }
}

/// Whatever was matched before, a query lists the same candidates; only their order can differ.
pub proof fn lemma_same_candidates(
    all: Seq<Candidate>,
    query: Seq<char>,
    a_earlier: Calls,
    a: Seq<usize>,
    b_earlier: Calls,
    b: Seq<usize>,
)
    requires
        lists_matches(a_earlier, all, query, a),
        lists_matches(b_earlier, all, query, b),
        all.len() <= usize::MAX,
    ensures
        forall|i: usize| a.contains(i) <==> b.contains(i),
        a.len() == b.len(),
        text::blank(query) ==> a == b,
{
    assert forall|i: usize| a.contains(i) <==> b.contains(i) by {
        if a.contains(i) {
            let k = choose|k: int| 0 <= k < a.len() && a[k] == i;
            lemma_entries_match(a_earlier, all, query, a, k);
            assert(matches_query(all[i as int], query));
        }
        if b.contains(i) {
            let k = choose|k: int| 0 <= k < b.len() && b[k] == i;
            lemma_entries_match(b_earlier, all, query, b, k);
            assert(matches_query(all[i as int], query));
        }
    }
    lemma_entries_differ(a_earlier, all, query, a);
    lemma_entries_differ(b_earlier, all, query, b);
    a.unique_seq_to_set();
    b.unique_seq_to_set();
    assert(a.to_set() =~= b.to_set());
}

/// Each entry of the list is a candidate that matches the query.
pub proof fn lemma_entries_match(
    earlier: Calls,
    all: Seq<Candidate>,
    query: Seq<char>,
    filtered: Seq<usize>,
    k: int,
)
    requires
        lists_matches(earlier, all, query, filtered),
        0 <= k < filtered.len(),
        all.len() <= usize::MAX,
    ensures
        filtered[k] < all.len(),
        matches_query(all[filtered[k] as int], query),
{
    let i = filtered[k] as int;
    assert(i < all.len());
    assert(filtered.contains(i as usize));
    assert(matches_query(all[i], query) || !matches_query(all[i], query));
}

/// No candidate is listed twice.
pub proof fn lemma_entries_differ(
    earlier: Calls,
    all: Seq<Candidate>,
    query: Seq<char>,
    filtered: Seq<usize>,
)
    requires
        lists_matches(earlier, all, query, filtered),
        all.len() <= usize::MAX,
    ensures
        filtered.no_duplicates(),
{
    if !text::blank(query) {
        ranking::lemma_ranking_has_no_duplicates(
            scores_for(earlier, all, text::trimmed(query)),
            filtered,
        );
    }
}

/// Better scores stand first, and of equal scores the candidate that comes first of all.
pub proof fn lemma_best_first(
    earlier: Calls,
    all: Seq<Candidate>,
    query: Seq<char>,
    filtered: Seq<usize>,
    j: int,
    k: int,
)
    requires
        lists_matches(earlier, all, query, filtered),
        !text::blank(query),
        0 <= j < k < filtered.len(),
    ensures
        ({
            let scores = scores_for(earlier, all, text::trimmed(query));
            let a = scores[filtered[j] as int];
            let b = scores[filtered[k] as int];
            &&& a is Some
            &&& b is Some
            &&& a->0 >= b->0
            &&& a->0 == b->0 ==> filtered[j] < filtered[k]
        }),
{
    assert(ranking::ranks_before(
        scores_for(earlier, all, text::trimmed(query)),
        filtered[j],
        filtered[k],
    ));
}

/// A command matches itself as a query.
pub proof fn lemma_command_matches_itself(candidate: Candidate)
    ensures
        matches_query(candidate, candidate.cmd@),
{
    let cmd = candidate.cmd@;
    text::lemma_trim_start(cmd);
    let t = text::trim_start(cmd);
    text::lemma_trim_end(t);
    let from = cmd.len() - t.len();
    let to = from + text::trimmed(cmd).len();
    assert(text::trimmed(cmd) =~= cmd.subrange(from, to));
    matching::lemma_spelled_part(cmd, from, to);
}

/// Writing on narrows the list: what matches the longer query matches the shorter one.
pub proof fn lemma_writing_on_narrows(candidate: Candidate, query: Seq<char>, c: char)
    requires
        matches_query(candidate, query.push(c)),
    ensures
        matches_query(candidate, query),
{
    if text::blank(query.push(c)) {
        assert forall|i: int| 0 <= i < query.len() implies text::white_space(
            #[trigger] query[i],
        ) by {
            assert(query.push(c)[i] == query[i]);
        }
    } else {
        text::lemma_trimmed_push(query, c);
        matching::lemma_spelled_beginning(
            text::trimmed(query),
            text::trimmed(query.push(c)),
            candidate.cmd@,
        );
    }
}

/// White space around the query changes nothing.
pub proof fn lemma_surrounding_space_is_ignored(
    earlier: Calls,
    all: Seq<Candidate>,
    a: Seq<char>,
    b: Seq<char>,
    filtered: Seq<usize>,
)
    requires
        text::trimmed(a) == text::trimmed(b),
    ensures
        lists_matches(earlier, all, a, filtered) <==> lists_matches(earlier, all, b, filtered),
{
    text::lemma_blank_trims_to_nothing(a);
    text::lemma_blank_trims_to_nothing(b);
    assert forall|i: int| 0 <= i < all.len() implies #[trigger] matches_query(all[i], a)
        == matches_query(all[i], b) by {}
    if lists_matches(earlier, all, a, filtered) {
        assert forall|i: int| 0 <= i < all.len() implies (filtered.contains(i as usize)
            <==> #[trigger] matches_query(all[i], b)) by {
            assert(matches_query(all[i], a) == matches_query(all[i], b));
        }
    }
}

/// A query that is part of no command, in order, leaves nothing to select.
pub proof fn lemma_no_match_no_selection(app: SearchApp)
    requires
        app.wf(),
        forall|i: int| 0 <= i < app.all@.len() ==> !#[trigger] matches_query(
            app.all@[i],
            app.query@,
        ),
    ensures
        app.filtered@.len() == 0,
        app.list_state.selected is None,
{
    assert(app.all@.len() == app.all.len());
    if app.filtered@.len() > 0 {
        let earlier = choose|earlier: Calls|
            #[trigger] lists_matches(earlier, app.all@, app.query@, app.filtered@);
        lemma_entries_match(earlier, app.all@, app.query@, app.filtered@, 0);
    }
}

/// Up undoes down, except at the end of the list, and down undoes up, except at its start.
pub proof fn lemma_up_and_down(selected: usize, len: nat)
    requires
        selected < len,
        len <= usize::MAX,
    ensures
        selected + 1 < len ==> moved_up(moved_down(Some(selected), len)) == Some(selected),
        selected > 0 ==> moved_down(moved_up(Some(selected)), len) == Some(selected),
{
}

/// The candidates that have a score for the pattern of a query are listed, and no others; of two
/// that are listed the first has the higher score, or the same score and comes first of all. The
/// pattern is what stands between the white space around it, and each candidate is matched after
/// those that come before it.
pub proof fn lemma_scores_decide(
    earlier: Calls,
    all: Seq<Candidate>,
    before: Seq<char>,
    pattern: Seq<char>,
    after: Seq<char>,
    filtered: Seq<usize>,
    i: int,
    j: int,
    k: int,
)
    requires
        lists_matches(earlier, all, before + pattern + after, filtered),
        forall|n: int| 0 <= n < before.len() ==> text::white_space(#[trigger] before[n]),
        forall|n: int| 0 <= n < after.len() ==> text::white_space(#[trigger] after[n]),
        pattern.len() > 0,
        !text::white_space(pattern[0]),
        !text::white_space(pattern[pattern.len() - 1]),
        all.len() <= usize::MAX,
    ensures
        0 <= j < filtered.len() ==> filtered[j] < all.len(),
        ({
            let score = |n: int|
                matching::skim_score(
                    earlier + Seq::new(n as nat, |m: int| (all[m].cmd@, pattern)),
                    all[n].cmd@,
                    pattern,
                );
            &&& 0 <= i < all.len() ==> (filtered.contains(i as usize) <==> score(i) is Some)
            &&& 0 <= j < k < filtered.len() ==> {
                let a = filtered[j];
                let b = filtered[k];
                &&& a < all.len() && b < all.len()
                &&& score(a as int) is Some && score(b as int) is Some
                &&& score(a as int)->0 >= score(b as int)->0
                &&& score(a as int)->0 == score(b as int)->0 ==> a < b
            }
        }),
{
    let query = before + pattern + after;
    text::lemma_trimmed_is_the_middle(before, pattern, after);
    text::lemma_blank_trims_to_nothing(query);
    let scores = scores_for(earlier, all, pattern);
    assert forall|n: int| 0 <= n < all.len() implies #[trigger] scores[n] == matching::skim_score(
        earlier + Seq::new(n as nat, |m: int| (all[m].cmd@, pattern)),
        all[n].cmd@,
        pattern,
    ) by {
        assert(calls_for(all, pattern).take(n) =~= Seq::new(
            n as nat,
            |m: int| (all[m].cmd@, pattern),
        ));
    }
    if 0 <= i < all.len() {
        assert(scores[i] == scores[i]);
    }
    if 0 <= i < all.len() && filtered.contains(i as usize) {
        let n = choose|n: int| 0 <= n < filtered.len() && filtered[n] == i as usize;
        assert(scores[filtered[n] as int] is Some);
    }
    if 0 <= j < k < filtered.len() {
        assert(filtered[j] < scores.len() && filtered[k] < scores.len());
        assert(ranking::ranks_before(scores, filtered[j], filtered[k]));
        assert(scores[filtered[j] as int] == scores[filtered[j] as int]);
        assert(scores[filtered[k] as int] == scores[filtered[k] as int]);
    }
}

/// A query of white space alone lists all candidates in their order.
pub proof fn lemma_blank_query_lists_all(
    earlier: Calls,
    all: Seq<Candidate>,
    query: Seq<char>,
    filtered: Seq<usize>,
    i: int,
)
    requires
        lists_matches(earlier, all, query, filtered),
        forall|n: int| 0 <= n < query.len() ==> text::white_space(#[trigger] query[n]),
        all.len() <= usize::MAX,
    ensures
        filtered.len() == all.len(),
        0 <= i < all.len() ==> filtered[i] == i,
{
    assert(text::blank(query));
}

proof fn lemma_nothing_before(calls: Calls)
    ensures
        Calls::empty() + calls == calls,
{
    assert(Calls::empty() + calls =~= calls);
}

/// A new search has the query that it is given, the cursor behind it, and the candidates; the first
/// entry of the list is selected if there is one, and nothing is accepted.
pub proof fn lemma_new_search(
    all: Vec<Candidate>,
    initial: String,
    app: SearchApp,
    before: Seq<char>,
    pattern: Seq<char>,
    after: Seq<char>,
    i: int,
    j: int,
    k: int,
)
    requires
        call_ensures(SearchApp::new, (all, initial), app),
        initial@ == before + pattern + after,
        forall|n: int| 0 <= n < before.len() ==> text::white_space(#[trigger] before[n]),
        forall|n: int| 0 <= n < after.len() ==> text::white_space(#[trigger] after[n]),
        pattern.len() > 0 ==> !text::white_space(pattern[0]) && !text::white_space(
            pattern[pattern.len() - 1],
        ),
    ensures
        app.query == initial,
        app.cursor_col == before.len() + pattern.len() + after.len(),
        app.all == all,
        app.selected is None,
        app.filtered@.len() == 0 ==> app.list_state.selected is None,
        app.filtered@.len() > 0 ==> app.list_state.selected == Some(0usize),
        pattern.len() == 0 ==> app.filtered@.len() == all@.len() && app.matcher@.len() == 0,
        pattern.len() == 0 && 0 <= i < all@.len() ==> app.filtered@[i] == i,
        pattern.len() > 0 ==> app.matcher@ == Seq::new(
            all@.len(),
            |m: int| (all@[m].cmd@, pattern),
        ),
        0 <= j < app.filtered@.len() ==> app.filtered@[j] < all@.len(),
        pattern.len() > 0 ==> {
            let score = |n: int|
                matching::skim_score(
                    Seq::new(n as nat, |m: int| (all@[m].cmd@, pattern)),
                    all@[n].cmd@,
                    pattern,
                );
            &&& 0 <= i < all@.len() ==> (app.filtered@.contains(i as usize) <==> score(i) is Some)
            &&& 0 <= j < k < app.filtered@.len() ==> {
                let a = app.filtered@[j];
                let b = app.filtered@[k];
                &&& a < all@.len() && b < all@.len()
                &&& score(a as int)->0 >= score(b as int)->0
                &&& score(a as int)->0 == score(b as int)->0 ==> a < b
            }
        },
{
    let none = Calls::empty();
    assert(all@.len() == all.len());
    if pattern.len() == 0 {
        let query = initial@;
        assert forall|n: int| 0 <= n < query.len() implies text::white_space(#[trigger] query[n]) by {
            if n < before.len() {
                assert(query[n] == before[n]);
            } else {
                assert(query[n] == after[n - before.len()]);
            }
        }
        lemma_blank_query_lists_all(none, all@, query, app.filtered@, i);
        lemma_blank_query_lists_all(none, all@, query, app.filtered@, j);
        assert(text::blank(query));
    } else {
        lemma_scores_decide(none, all@, before, pattern, after, app.filtered@, i, j, k);
        text::lemma_trimmed_is_the_middle(before, pattern, after);
        text::lemma_blank_trims_to_nothing(initial@);
        lemma_nothing_before(calls_for(all@, pattern));
        assert(calls_for(all@, pattern) =~= Seq::new(
            all@.len(),
            |m: int| (all@[m].cmd@, pattern),
        ));
        let calls = |n: int| Seq::new(n as nat, |m: int| (all@[m].cmd@, pattern));
        lemma_nothing_before(calls(i));
        if 0 <= j < k < app.filtered@.len() {
            lemma_nothing_before(calls(app.filtered@[j] as int));
            lemma_nothing_before(calls(app.filtered@[k] as int));
        }
    }
}

/// A selection within the list stays; one beyond it moves to the last entry, and where there was
/// none the first entry is selected; in an empty list there is none.
pub proof fn lemma_selection_stays_in_place(selected: Option<usize>, len: nat)
    requires
        len <= usize::MAX,
    ensures
        len == 0 ==> clamped(selected, len) is None,
        len > 0 && selected is None ==> clamped(selected, len) == Some(0usize),
        selected is Some && selected->0 < len ==> clamped(selected, len) == selected,
        selected is Some && len > 0 && selected->0 >= len ==> clamped(selected, len) is Some
            && clamped(selected, len)->0 == len - 1,
{
}

/// Looking up the matches lists the candidates by their scores, and leaves the selection in place
/// if it lies within the new list. The query, the cursor, the candidates and what was accepted
/// stay, and the matcher was asked for each candidate in turn.
pub proof fn lemma_filtered(
    app: &mut SearchApp,
    before: Seq<char>,
    pattern: Seq<char>,
    after: Seq<char>,
    i: int,
    j: int,
    k: int,
)
    requires
        call_ensures(SearchApp::filter, (app,), ()),
        old(app).query@ == before + pattern + after,
        forall|n: int| 0 <= n < before.len() ==> text::white_space(#[trigger] before[n]),
        forall|n: int| 0 <= n < after.len() ==> text::white_space(#[trigger] after[n]),
        pattern.len() > 0,
        !text::white_space(pattern[0]),
        !text::white_space(pattern[pattern.len() - 1]),
    ensures
        final(app).query == old(app).query,
        final(app).cursor_col == old(app).cursor_col,
        final(app).all == old(app).all,
        final(app).selected == old(app).selected,
        final(app).matcher@ == old(app).matcher@ + Seq::new(
            old(app).all@.len(),
            |m: int| (old(app).all@[m].cmd@, pattern),
        ),
        ({
            let all = old(app).all@;
            let filtered = final(app).filtered@;
            let score = |n: int|
                matching::skim_score(
                    old(app).matcher@ + Seq::new(n as nat, |m: int| (all[m].cmd@, pattern)),
                    all[n].cmd@,
                    pattern,
                );
            &&& 0 <= j < filtered.len() ==> filtered[j] < all.len()
            &&& 0 <= i < all.len() ==> (filtered.contains(i as usize) <==> score(i) is Some)
            &&& 0 <= j < k < filtered.len() ==> {
                let a = filtered[j];
                let b = filtered[k];
                &&& a < all.len() && b < all.len()
                &&& score(a as int)->0 >= score(b as int)->0
                &&& score(a as int)->0 == score(b as int)->0 ==> a < b
            }
        }),
        ({
            let len = final(app).filtered@.len();
            let was = old(app).list_state.selected;
            let later = final(app).list_state.selected;
            &&& len == 0 ==> later is None
            &&& len > 0 && was is None ==> later == Some(0usize)
            &&& was is Some && was->0 < len ==> later == was
            &&& was is Some && len > 0 && was->0 >= len ==> later is Some && later->0 == len - 1
        }),
{
    let all = old(app).all@;
    assert(all.len() == old(app).all.len());
    assert(final(app).filtered@.len() == final(app).filtered.len());
    lemma_scores_decide(
        old(app).matcher@,
        all,
        before,
        pattern,
        after,
        final(app).filtered@,
        i,
        j,
        k,
    );
    text::lemma_trimmed_is_the_middle(before, pattern, after);
    text::lemma_blank_trims_to_nothing(old(app).query@);
    assert(calls_for(all, pattern) =~= Seq::new(all.len(), |m: int| (all[m].cmd@, pattern)));
}

/// Looking up the matches of a blank query lists all candidates in their order, and does not ask
/// the matcher.
pub proof fn lemma_filtered_by_nothing(app: &mut SearchApp, i: int)
    requires
        call_ensures(SearchApp::filter, (app,), ()),
        forall|n: int|
            0 <= n < old(app).query@.len() ==> text::white_space(#[trigger] old(app).query@[n]),
    ensures
        final(app).filtered@.len() == old(app).all@.len(),
        0 <= i < old(app).all@.len() ==> final(app).filtered@[i] == i,
        final(app).query == old(app).query,
        final(app).cursor_col == old(app).cursor_col,
        final(app).all == old(app).all,
        final(app).selected == old(app).selected,
        final(app).matcher@ == old(app).matcher@,
        ({
            let len = old(app).all@.len();
            let was = old(app).list_state.selected;
            let later = final(app).list_state.selected;
            &&& len == 0 ==> later is None
            &&& len > 0 && was is None ==> later == Some(0usize)
            &&& was is Some && was->0 < len ==> later == was
            &&& was is Some && len > 0 && was->0 >= len ==> later is Some && later->0 == len - 1
        }),
{
    assert(old(app).all@.len() == old(app).all.len());
    assert(text::blank(old(app).query@));
    lemma_blank_query_lists_all(
        old(app).matcher@,
        old(app).all@,
        old(app).query@,
        final(app).filtered@,
        i,
    );
}

/// Listing by given scores lists the candidates that have one, the higher score first, and of equal
/// scores the candidate that comes first of all.
pub proof fn lemma_shown_by_scores(
    app: &mut SearchApp,
    scores: &Vec<Option<i64>>,
    i: usize,
    j: int,
    k: int,
)
    requires
        call_ensures(SearchApp::show_ranked, (app, scores), ()),
    ensures
        ({
            let filtered = final(app).filtered@;
            &&& filtered.contains(i) <==> i < scores@.len() && scores@[i as int] is Some
            &&& 0 <= j < k < filtered.len() ==> {
                let a = filtered[j];
                let b = filtered[k];
                &&& a < scores@.len() && b < scores@.len()
                &&& scores@[a as int]->0 >= scores@[b as int]->0
                &&& scores@[a as int]->0 == scores@[b as int]->0 ==> a < b
            }
        }),
        ({
            let len = final(app).filtered@.len();
            let was = old(app).list_state.selected;
            let later = final(app).list_state.selected;
            &&& len == 0 ==> later is None
            &&& len > 0 && was is None ==> later == Some(0usize)
            &&& was is Some && was->0 < len ==> later == was
            &&& was is Some && len > 0 && was->0 >= len ==> later is Some && later->0 == len - 1
        }),
{
    let filtered = final(app).filtered@;
    assert(filtered.len() == final(app).filtered.len());
    if filtered.contains(i) {
        let n = choose|n: int| 0 <= n < filtered.len() && filtered[n] == i;
        assert(filtered[n] < scores@.len());
    }
    if 0 <= j < k < filtered.len() {
        assert(ranking::ranks_before(scores@, filtered[j], filtered[k]));
    }
}

/// Listing all lists the candidates in their order.
pub proof fn lemma_shown_all(app: &mut SearchApp, i: int)
    requires
        call_ensures(SearchApp::show_all, (app,), ()),
    ensures
        final(app).filtered@.len() == old(app).all@.len(),
        0 <= i < old(app).all@.len() ==> final(app).filtered@[i] == i,
{
    assert(old(app).all@.len() == old(app).all.len());
}

/// Moving up selects the entry just above, moving down the one just below; at the ends of the list
/// the selection stays, and where there is none there stays none.
pub proof fn lemma_moves(up: &mut SearchApp, down: &mut SearchApp)
    requires
        call_ensures(SearchApp::move_up, (up,), ()),
        call_ensures(SearchApp::move_down, (down,), ()),
    ensures
        match old(up).list_state.selected {
            None => final(up).list_state.selected is None,
            Some(i) => final(up).list_state.selected is Some && i
                - final(up).list_state.selected->0 == if i == 0 {
                0int
            } else {
                1
            },
        },
        match old(down).list_state.selected {
            None => final(down).list_state.selected is None,
            Some(i) => final(down).list_state.selected is Some
                && final(down).list_state.selected->0 - i == if i + 1
                < old(down).filtered@.len() {
                1int
            } else {
                0
            },
        },
        final(up).query == old(up).query && final(down).query == old(down).query,
        final(up).cursor_col == old(up).cursor_col && final(down).cursor_col
            == old(down).cursor_col,
        final(up).all == old(up).all && final(down).all == old(down).all,
        final(up).filtered == old(up).filtered && final(down).filtered == old(down).filtered,
        final(up).selected == old(up).selected && final(down).selected == old(down).selected,
        final(up).matcher == old(up).matcher && final(down).matcher == old(down).matcher,
{
    assert(old(down).filtered@.len() == old(down).filtered.len());
}

/// Accepting takes the command of the candidate that the selected entry stands for; the rest of the
/// search stays as it is.
pub proof fn lemma_accepted(app: &mut SearchApp, i: usize)
    requires
        call_ensures(SearchApp::accept, (app,), ()),
        old(app).list_state.selected == Some(i),
        i < old(app).filtered@.len(),
        old(app).filtered@[i as int] < old(app).all@.len(),
    ensures
        final(app).selected == Some(old(app).all@[old(app).filtered@[i as int] as int].cmd),
        final(app).list_state == old(app).list_state,
        final(app).query == old(app).query,
        final(app).cursor_col == old(app).cursor_col,
        final(app).all == old(app).all,
        final(app).filtered == old(app).filtered,
        final(app).matcher == old(app).matcher,
{
}

/// Where no entry of the list is selected nothing is accepted, and what was accepted before stays.
pub proof fn lemma_nothing_to_accept(app: &mut SearchApp)
    requires
        call_ensures(SearchApp::accept, (app,), ()),
        old(app).list_state.selected is Some ==> old(app).list_state.selected->0
            >= old(app).filtered@.len(),
    ensures
        final(app).selected == old(app).selected,
{
}

/// An entry of the list stands for the candidate that it names; beyond the list there is none.
pub proof fn lemma_entry_stands_for_candidate(
    app: &SearchApp,
    position: usize,
    candidate: Option<&Candidate>,
)
    requires
        call_ensures(SearchApp::candidate_at_filtered, (app, position), candidate),
    ensures
        candidate is Some <==> position < app.filtered@.len() && app.filtered@[position as int]
            < app.all@.len(),
        candidate is Some ==> *candidate->0 == app.all@[app.filtered@[position as int] as int],
{
}

/// Candidates can be searched for a query exactly if it is blank, or 32 points for each character
/// of the shorter of a command and the trimmed query fit in 31 bits.
pub proof fn lemma_what_can_be_searched(
    all: &Vec<Candidate>,
    query: &str,
    yes: bool,
    before: Seq<char>,
    pattern: Seq<char>,
    after: Seq<char>,
)
    requires
        call_ensures(can_search, (all, query), yes),
        query@ == before + pattern + after,
        forall|n: int| 0 <= n < before.len() ==> text::white_space(#[trigger] before[n]),
        forall|n: int| 0 <= n < after.len() ==> text::white_space(#[trigger] after[n]),
        pattern.len() > 0 ==> !text::white_space(pattern[0]) && !text::white_space(
            pattern[pattern.len() - 1],
        ),
    ensures
        yes <==> pattern.len() == 0 || forall|i: int|
            0 <= i < all@.len() ==> 32 * (#[trigger] all@[i]).cmd@.len() < 0x8000_0000 || 32
                * pattern.len() < 0x8000_0000,
{
    text::lemma_trimmed_is_the_middle(before, pattern, after);
    text::lemma_blank_trims_to_nothing(query@);
}

/// A candidate has the command and the time of its row, and the time 0 if the row has none.
pub proof fn lemma_candidate_of_a_row(cmd: String, ts: Option<i64>, candidate: Candidate)
    requires
        call_ensures(Candidate::from_row, (cmd, ts), candidate),
    ensures
        candidate.cmd@ == cmd@,
        ts is Some ==> candidate.ts == ts->0,
        ts is None ==> candidate.ts == 0,
{
}

/// A list tells the position that was selected last.
pub proof fn lemma_selected_position(
    state: &mut ListState,
    after: &ListState,
    position: Option<usize>,
    told: Option<usize>,
)
    requires
        call_ensures(ListState::select, (state, position), ()),
        *after == *final(state),
        call_ensures(ListState::selected, (after,), told),
    ensures
        told == position,
{
}

} // verus!
