//! What a key does to the search.

use vstd::prelude::*;

use crate::keys::{Action, KeyCode, KeyEvent};
use crate::matching::Calls;
use crate::search;
use crate::search::SearchApp;
use crate::text;

verus! {

/// Outcome of handling a key in the search TUI
#[derive(Debug)]
pub enum KeyOutcome {
    /// Keep the TUI running
    Continue,
    /// Exit with an optional accepted command
    Done(Option<String>),
}

/// A query and the column of the cursor in it.
pub struct Line {
    /// The query
    pub query: Seq<char>,
    /// How many characters of it stand before the cursor
    pub cursor: int,
}

/// The query and the cursor once an action was carried out.
pub open spec fn edited(line: Line, action: Action) -> Line {
    let Line { query, cursor } = line;
    match action {
        Action::EraseBefore => if 0 < cursor <= query.len() {
            Line { query: query.remove(cursor - 1), cursor: cursor - 1 }
        } else {
            line
        },
        Action::EraseAt => if cursor < query.len() {
            Line { query: query.remove(cursor), cursor }
        } else {
            line
        },
        Action::CursorLeft => if cursor > 0 {
            Line { query, cursor: cursor - 1 }
        } else {
            line
        },
        Action::CursorRight => if cursor < query.len() {
            Line { query, cursor: cursor + 1 }
        } else {
            line
        },
        Action::CursorHome => Line { query, cursor: 0 },
        Action::CursorEnd => Line { query, cursor: query.len() as int },
        Action::Clear => Line { query: Seq::empty(), cursor: 0 },
        Action::Insert(c) => if cursor <= query.len() {
            Line { query: query.insert(cursor, c), cursor: cursor + 1 }
        } else {
            line
        },
        _ => line,
    }
}

/// The action changes the query, so that the matches are looked up anew.
pub open spec fn looks_up(line: Line, action: Action) -> bool {
    match action {
        Action::EraseBefore => 0 < line.cursor <= line.query.len(),
        Action::EraseAt => line.cursor < line.query.len(),
        Action::Insert(_) => line.cursor <= line.query.len(),
        Action::Clear => true,
        _ => false,
    }
}

/// The selection once an action was carried out that leaves the list of `len` entries as it is.
pub open spec fn moved(selected: Option<usize>, action: Action, len: nat) -> Option<usize> {
    match action {
        Action::SelectUp => search::moved_up(selected),
        Action::SelectDown => search::moved_down(selected, len),
        _ => selected,
    }
}

impl SearchApp {
    /// The query and the cursor.
    pub open spec fn line(&self) -> Line {
        Line { query: self.query@, cursor: self.cursor_col as int }
    }
}

/// How an action leads from one state of the search to the next.
pub open spec fn steps(before: SearchApp, action: Action, after: SearchApp) -> bool {
    &&& after.all == before.all
    &&& after.line() == edited(before.line(), action)
    &&& if looks_up(before.line(), action) {
        &&& search::lists_matches(before.matcher@, after.all@, after.query@, after.filtered@)
        &&& after.matcher@ == search::calls_after(before.matcher@, after.all@, after.query@)
        &&& after.list_state.selected == search::clamped(
            before.list_state.selected,
            after.filtered@.len(),
        )
    } else {
        &&& after.query == before.query
        &&& after.filtered == before.filtered
        &&& after.matcher == before.matcher
        &&& after.list_state.selected == moved(
            before.list_state.selected,
            action,
            before.filtered@.len(),
        )
    }
    &&& after.selected == match action {
        Action::Cancel => None,
        Action::Accept => match before.selected_candidate() {
            Some(candidate) => Some(candidate.cmd),
            None => before.selected,
        },
        _ => before.selected,
    }
}

/// Whether the search is over after an action, and with which command.
pub open spec fn outcome_of(action: Action, after: SearchApp) -> KeyOutcome {
    match action {
        Action::Cancel => KeyOutcome::Done(None),
        Action::Accept => KeyOutcome::Done(after.selected),
        _ => KeyOutcome::Continue,
    }
}

/// The query once an action was carried out, if the action changes it
fn changed_query(app: &SearchApp, action: Action) -> (changed: Option<String>)
    ensures
        match changed {
            Some(query) => {
                &&& looks_up(app.line(), action)
                &&& query@ == edited(app.line(), action).query
            },
            None => !looks_up(app.line(), action),
        },
{
    let mut chars = text::chars_of(app.query.as_str());
    match action {
        Action::EraseBefore if 0 < app.cursor_col && app.cursor_col <= chars.len() => {
            chars.remove(app.cursor_col - 1);
        },
        Action::EraseAt if app.cursor_col < chars.len() => {
            chars.remove(app.cursor_col);
        },
        Action::Insert(c) if app.cursor_col <= chars.len() => {
            chars.insert(app.cursor_col, c);
        },
        Action::Clear => {
            chars.clear();
        },
        _ => {
            return None;
        },
    }
    Some(text::string_of(&chars))
}

/// A key can be handled: if it changes the query, the candidates can be searched for the new one.
pub open spec fn handleable(app: SearchApp, key: KeyEvent) -> bool {
    looks_up(app.line(), key.asks()) ==> search::searchable(
        app.all@,
        edited(app.line(), key.asks()).query,
    )
}

/// Whether a key can be handled
fn can_handle(app: &SearchApp, key: KeyEvent) -> (yes: bool)
    ensures
        yes == handleable(*app, key),
{
    match changed_query(app, key.action()) {
        Some(query) => search::can_search(&app.all, query.as_str()),
        None => true,
    }
}

/// The interactive search
pub struct Tui;

impl Tui {
    /// Handles one key event
    pub fn handle_key(app: &mut SearchApp, key: KeyEvent) -> (outcome: KeyOutcome)
        requires
            handleable(*old(app), key),
        ensures
            steps(*old(app), key.asks(), *final(app)),
            outcome == outcome_of(key.asks(), *final(app)),
            old(app).wf() ==> final(app).wf(),
    {
        match key.action() {
            Action::Cancel => {
                app.selected = None;
                KeyOutcome::Done(None)
            },
            Action::Accept => {
                app.accept();
                KeyOutcome::Done(app.selected.clone())
            },
            Action::SelectUp => {
                app.move_up();
                KeyOutcome::Continue
            },
            Action::SelectDown => {
                app.move_down();
                KeyOutcome::Continue
            },
            Action::EraseBefore => {
                if let Some(query) = changed_query(app, Action::EraseBefore) {
                    app.query = query;
                    app.cursor_col = app.cursor_col - 1;
                    app.filter();
                }
                KeyOutcome::Continue
            },
            Action::EraseAt => {
                if let Some(query) = changed_query(app, Action::EraseAt) {
                    app.query = query;
                    app.filter();
                }
                KeyOutcome::Continue
            },
            Action::CursorLeft => {
                app.cursor_col = app.cursor_col.saturating_sub(1);
                KeyOutcome::Continue
            },
            Action::CursorRight => {
                let len = text::char_count(app.query.as_str());
                if app.cursor_col < len {
                    app.cursor_col = app.cursor_col + 1;
                }
                KeyOutcome::Continue
            },
            Action::CursorHome => {
                app.cursor_col = 0;
                KeyOutcome::Continue
            },
            Action::CursorEnd => {
                app.cursor_col = text::char_count(app.query.as_str());
                KeyOutcome::Continue
            },
            Action::Clear => {
                app.query = String::new();
                app.cursor_col = 0;
                app.filter();
                KeyOutcome::Continue
            },
            Action::Insert(c) => {
                if let Some(query) = changed_query(app, Action::Insert(c)) {
                    let len = text::char_count(query.as_str());
                    assert(app.cursor_col < len);
                    app.query = query;
                    app.cursor_col = app.cursor_col + 1;
                    app.filter();
                }
                KeyOutcome::Continue
            },
            Action::Ignore => KeyOutcome::Continue,
        }
    }

    /// Handles one key event if the matcher can take it; else there is no outcome, and nothing
    /// changes
    pub fn try_handle_key(app: &mut SearchApp, key: KeyEvent) -> (outcome: Option<KeyOutcome>)
        ensures
            match outcome {
                Some(o) => {
                    &&& handleable(*old(app), key)
                    &&& steps(*old(app), key.asks(), *final(app))
                    &&& o == outcome_of(key.asks(), *final(app))
                },
                None => !handleable(*old(app), key) && *final(app) == *old(app),
            },
            final(app).all == old(app).all,
            old(app).wf() ==> final(app).wf(),
    {
        if can_handle(app, key) {
            Some(Self::handle_key(app, key))
        } else {
            None
        }
    }
}

/// A step keeps the search in order: the cursor in the query, the list the query's matches, and
/// the selection in the list. The candidates stay, and the matches of a query that changed are
/// looked up in the same step.
pub proof fn lemma_steps_keep_order(before: SearchApp, action: Action, after: SearchApp)
    requires
        before.wf(),
        steps(before, action, after),
    ensures
        after.wf(),
        after.all == before.all,
        after.query@ != before.query@ ==> search::lists_matches(
            before.matcher@,
            after.all@,
            after.query@,
            after.filtered@,
        ),
{
    lemma_cursor_stays_in_query(before.line(), action);
}

/// No action leads the cursor out of the query.
pub proof fn lemma_cursor_stays_in_query(line: Line, action: Action)
    requires
        0 <= line.cursor <= line.query.len(),
    ensures
        0 <= edited(line, action).cursor <= edited(line, action).query.len(),
{
}

/// Erasing what was just written brings the query and the cursor back.
pub proof fn lemma_erasing_undoes_writing(line: Line, c: char)
    requires
        0 <= line.cursor <= line.query.len(),
    ensures
        edited(edited(line, Action::Insert(c)), Action::EraseBefore) == line,
{
    assert(line.query.insert(line.cursor, c).remove(line.cursor) =~= line.query);
}

/// Erasing what was just written brings the same matches back, though not always in the same order.
pub proof fn lemma_erasing_brings_the_matches_back(
    before: SearchApp,
    c: char,
    between: SearchApp,
    after: SearchApp,
)
    requires
        before.wf(),
        steps(before, Action::Insert(c), between),
        steps(between, Action::EraseBefore, after),
    ensures
        after.query@ == before.query@,
        after.cursor_col == before.cursor_col,
        forall|i: usize| after.filtered@.contains(i) <==> before.filtered@.contains(i),
        after.filtered@.len() == before.filtered@.len(),
{
    lemma_erasing_undoes_writing(before.line(), c);
    assert(after.line() == before.line());
    let earlier = choose|earlier: Calls|
        #[trigger] search::lists_matches(
            earlier,
            before.all@,
            before.query@,
            before.filtered@,
        );
    assert(before.all@.len() == before.all.len());
    search::lemma_same_candidates(
        before.all@,
        before.query@,
        between.matcher@,
        after.filtered@,
        earlier,
        before.filtered@,
    );
}

/// Delete one character further left is the same as backspace.
pub proof fn lemma_left_and_delete_is_backspace(line: Line)
    requires
        0 < line.cursor <= line.query.len(),
    ensures
        edited(edited(line, Action::CursorLeft), Action::EraseAt) == edited(
            line,
            Action::EraseBefore,
        ),
{
}

/// Right undoes left, except at the start of the query.
pub proof fn lemma_right_undoes_left(line: Line)
    requires
        0 < line.cursor <= line.query.len(),
    ensures
        edited(edited(line, Action::CursorLeft), Action::CursorRight) == line,
{
}

/// The characters of `s` written one after the other.
pub open spec fn written(line: Line, s: Seq<char>) -> Line
    decreases s.len(),
{
    if s.len() == 0 {
        line
    } else {
        edited(written(line, s.drop_last()), Action::Insert(s.last()))
    }
}

/// A text written character by character stands in the query where the cursor was, and the cursor
/// behind it.
pub proof fn lemma_written_text(line: Line, s: Seq<char>)
    requires
        0 <= line.cursor <= line.query.len(),
    ensures
        written(line, s) == (Line {
            query: line.query.take(line.cursor) + s + line.query.skip(line.cursor),
            cursor: line.cursor + s.len(),
        }),
    decreases s.len(),
{
    let head = line.query.take(line.cursor);
    let tail = line.query.skip(line.cursor);
    if s.len() == 0 {
        assert(head + s + tail =~= line.query);
    } else {
        lemma_written_text(line, s.drop_last());
        assert((head + s.drop_last() + tail).insert(line.cursor + s.len() - 1, s.last())
            =~= head + s + tail);
    }
}

/// Leaving with the selected command gives a command of the history that matches the query.
pub proof fn lemma_accepted_command_matches(before: SearchApp, after: SearchApp)
    requires
        before.wf(),
        before.filtered@.len() > 0,
        steps(before, Action::Accept, after),
    ensures
        ({
            let position = before.filtered@[before.list_state.selected->0 as int] as int;
            &&& 0 <= position < before.all@.len()
            &&& search::matches_query(before.all@[position], before.query@)
            &&& outcome_of(Action::Accept, after) == KeyOutcome::Done(
                Some(before.all@[position].cmd),
            )
        }),
{
    assert(before.all@.len() == before.all.len());
    let earlier = choose|earlier: Calls|
        #[trigger] search::lists_matches(
            earlier,
            before.all@,
            before.query@,
            before.filtered@,
        );
    search::lemma_entries_match(
        earlier,
        before.all@,
        before.query@,
        before.filtered@,
        before.list_state.selected->0 as int,
    );
}

/// Leaving without a command gives none, and forgets one that was accepted.
pub proof fn lemma_cancelling_gives_nothing(before: SearchApp, after: SearchApp)
    requires
        steps(before, Action::Cancel, after),
    ensures
        outcome_of(Action::Cancel, after) == KeyOutcome::Done(None),
        after.selected is None,
{
}

/// A run of the search: the state before each key and after the last one. No key but the last ends
/// the search.
pub open spec fn ran(states: Seq<SearchApp>, keys: Seq<KeyEvent>) -> bool {
    &&& states.len() == keys.len() + 1
    &&& forall|i: int|
        0 <= i < keys.len() ==> steps(states[i], (#[trigger] keys[i]).asks(), states[i + 1])
    &&& forall|i: int|
        0 <= i < keys.len() - 1 ==> outcome_of(
            (#[trigger] keys[i]).asks(),
            states[i + 1],
        ) is Continue
}

/// Throughout a run the search is in order and has the candidates that it started with; nothing is
/// accepted before the last key.
pub proof fn lemma_run_keeps_order(states: Seq<SearchApp>, keys: Seq<KeyEvent>, n: int)
    requires
        ran(states, keys),
        states[0].wf(),
        states[0].selected is None,
        0 <= n < states.len(),
    ensures
        states[n].wf(),
        states[n].all == states[0].all,
        n < keys.len() ==> states[n].selected is None,
    decreases n,
{
    if n > 0 {
        lemma_run_keeps_order(states, keys, n - 1);
        let action = keys[n - 1].asks();
        assert(steps(states[n - 1], action, states[n - 1 + 1]));
        lemma_steps_keep_order(states[n - 1], action, states[n]);
        if n < keys.len() {
            assert(outcome_of(action, states[n - 1 + 1]) is Continue);
        }
    }
}

/// A run that ends with a command gives one of the candidates that it started with, and one that
/// matches the query. Accepting gives a command unless nothing matches; cancelling gives none, and
/// no other key ends the run.
pub proof fn lemma_run_gives_a_command_of_the_history(
    states: Seq<SearchApp>,
    keys: Seq<KeyEvent>,
)
    requires
        ran(states, keys),
        states[0].wf(),
        states[0].selected is None,
        keys.len() > 0,
    ensures
        ({
            let last = states.last();
            let asked = keys.last().asks();
            let outcome = outcome_of(asked, last);
            &&& outcome matches KeyOutcome::Done(Some(cmd)) ==> exists|i: int|
                {
                    &&& 0 <= i < states[0].all@.len()
                    &&& (#[trigger] states[0].all@[i]).cmd == cmd
                    &&& search::matches_query(states[0].all@[i], last.query@)
                }
            &&& asked is Accept ==> outcome == KeyOutcome::Done(last.selected)
            &&& asked is Accept ==> (last.selected is None <==> last.filtered@.len() == 0)
            &&& asked is Cancel ==> outcome == KeyOutcome::Done(None)
            &&& !(asked is Accept) && !(asked is Cancel) ==> outcome is Continue
        }),
{
    let n = keys.len() - 1;
    lemma_run_keeps_order(states, keys, n);
    let before = states[n];
    let after = states[n + 1];
    assert(steps(before, keys[n].asks(), after));
    if keys[n].asks() is Accept && before.filtered@.len() > 0 {
        lemma_accepted_command_matches(before, after);
        let position = before.filtered@[before.list_state.selected->0 as int] as int;
        assert(states[0].all@[position].cmd == before.all@[position].cmd);
    }
}

/// Handling a key is a step of what the key asks, and tells what the step comes to. Where the
/// matcher cannot take the key nothing changes.
pub proof fn lemma_keys_are_steps(
    app: &mut SearchApp,
    tried: &mut SearchApp,
    key: KeyEvent,
    outcome: KeyOutcome,
    tried_outcome: Option<KeyOutcome>,
)
    requires
        call_ensures(Tui::handle_key, (app, key), outcome),
        call_ensures(Tui::try_handle_key, (tried, key), tried_outcome),
    ensures
        steps(*old(app), key.asks(), *final(app)),
        outcome == outcome_of(key.asks(), *final(app)),
        match tried_outcome {
            Some(o) => steps(*old(tried), key.asks(), *final(tried)) && o == outcome_of(
                key.asks(),
                *final(tried),
            ),
            None => *final(tried) == *old(tried) && !handleable(*old(tried), key),
        },
{
}

/// A key can be handled exactly if it leaves the query as it is, or the candidates can be searched
/// for the query that it leads to.
pub proof fn lemma_keys_that_can_be_handled(before: SearchApp, key: KeyEvent, after: SearchApp)
    requires
        steps(before, key.asks(), after),
    ensures
        handleable(before, key) <==> after.query@ == before.query@ || search::searchable(
            before.all@,
            after.query@,
        ),
{
    let action = key.asks();
    if looks_up(before.line(), action) && after.query@ == before.query@ {
        assert(after.query@.len() == before.query@.len());
        assert(action is Clear);
        assert(text::blank(after.query@));
    }
}

/// Escape, or c with control, leaves without a command; enter or tab leaves with the command of the
/// selected entry, or without one if nothing was accepted and the list is empty. No other key
/// leaves. The query, the list and the selection stay.
pub proof fn lemma_leaving_keys(before: SearchApp, key: KeyEvent, after: SearchApp)
    requires
        before.wf(),
        steps(before, key.asks(), after),
        key.kind is Press,
    ensures
        ({
            let cancels = key.code is Esc || key.code == KeyCode::Char('c') && key.modifiers == 2;
            let accepts = key.code is Enter || key.code is Tab;
            let outcome = outcome_of(key.asks(), after);
            &&& cancels ==> outcome == KeyOutcome::Done(None) && after.selected is None
            &&& accepts && before.filtered@.len() > 0 ==> {
                let entry = before.filtered@[before.list_state.selected->0 as int];
                &&& before.list_state.selected is Some
                &&& entry < before.all@.len()
                &&& outcome == KeyOutcome::Done(Some(before.all@[entry as int].cmd))
            }
            &&& accepts && before.filtered@.len() == 0 ==> outcome == KeyOutcome::Done(
                before.selected,
            )
            &&& !cancels && !accepts ==> outcome is Continue && after.selected == before.selected
            &&& cancels || accepts ==> {
                &&& after.query == before.query
                &&& after.cursor_col == before.cursor_col
                &&& after.filtered == before.filtered
                &&& after.list_state == before.list_state
                &&& after.matcher == before.matcher
            }
            &&& after.all == before.all
        }),
{
    if (key.code is Enter || key.code is Tab) && before.filtered@.len() > 0 {
        lemma_accepted_command_matches(before, after);
    }
}

/// Up, or p with control, selects the entry just above; down, or n with control, the one just
/// below. At the ends of the list the selection stays, and the rest of the search stays anyway.
pub proof fn lemma_selecting_keys(before: SearchApp, key: KeyEvent, after: SearchApp)
    requires
        steps(before, key.asks(), after),
        key.kind is Press,
    ensures
        ({
            let up = key.code is Up || key.code == KeyCode::Char('p') && key.modifiers == 2;
            let down = key.code is Down || key.code == KeyCode::Char('n') && key.modifiers == 2;
            let later = after.list_state.selected;
            &&& (up || down) && before.list_state.selected is None ==> later is None
            &&& (up || down) && before.list_state.selected is Some ==> {
                let i = before.list_state.selected->0 as int;
                &&& later is Some
                &&& up && i > 0 ==> later->0 == i - 1
                &&& up && i == 0 ==> later->0 == 0
                &&& down && i + 1 < before.filtered@.len() ==> later->0 == i + 1
                &&& down && i + 1 >= before.filtered@.len() ==> later->0 == i
            }
            &&& up || down ==> {
                &&& after.query == before.query
                &&& after.cursor_col == before.cursor_col
                &&& after.filtered == before.filtered
                &&& after.matcher == before.matcher
                &&& after.all == before.all
                &&& after.selected == before.selected
            }
        }),
{
    assert(before.filtered@.len() == before.filtered.len());
}

/// Left and right move the cursor by one character within the query, home and end to its ends. The
/// rest of the search stays.
pub proof fn lemma_cursor_keys(before: SearchApp, key: KeyEvent, after: SearchApp)
    requires
        steps(before, key.asks(), after),
        key.kind is Press,
    ensures
        ({
            let was = before.cursor_col as int;
            let later = after.cursor_col as int;
            let len = before.query@.len();
            &&& key.code is Left && was > 0 ==> later == was - 1
            &&& key.code is Left && was == 0 ==> later == 0
            &&& key.code is Right && was < len ==> later == was + 1
            &&& key.code is Right && was == len ==> later == len
            &&& key.code is Home ==> later == 0
            &&& key.code is End ==> later == len
            &&& key.code is Left || key.code is Right || key.code is Home || key.code is End ==> {
                &&& after.query == before.query
                &&& after.filtered == before.filtered
                &&& after.list_state == before.list_state
                &&& after.matcher == before.matcher
                &&& after.all == before.all
                &&& after.selected == before.selected
            }
        }),
{
}

/// Backspace takes away the character before the cursor, delete the one at the cursor; a character
/// without a modifier, or with shift, is put in at the cursor, which moves behind it; u with
/// control takes away everything.
pub proof fn lemma_editing_keys(
    before: SearchApp,
    key: KeyEvent,
    after: SearchApp,
    left: Seq<char>,
    c: char,
    right: Seq<char>,
)
    requires
        steps(before, key.asks(), after),
        key.kind is Press,
    ensures
        ({
            let with = left + seq![c] + right;
            let without = left + right;
            &&& key.code is Backspace && before.query@ == with && before.cursor_col == left.len()
                + 1 ==> after.query@ == without && after.cursor_col == left.len()
            &&& key.code is Delete && before.query@ == with && before.cursor_col == left.len()
                ==> after.query@ == without && after.cursor_col == left.len()
            &&& key.code == KeyCode::Char(c) && key.modifiers <= 1 && before.query@ == without
                && before.cursor_col == left.len() ==> after.query@ == with && after.cursor_col
                == left.len() + 1
            &&& key.code == KeyCode::Char('u') && key.modifiers == 2 ==> after.query@.len() == 0
                && after.cursor_col == 0
        }),
{
    let with = left + seq![c] + right;
    let without = left + right;
    assert(with.remove(left.len() as int) =~= without);
    assert(without.insert(left.len() as int, c) =~= with);
}

/// A key that changes or clears the query lists its matches, for which the matcher that was asked
/// before is asked for each candidate in turn, unless the query is blank. The selection stays in
/// place if it lies within the new list.
pub proof fn lemma_editing_looks_up(
    before: SearchApp,
    key: KeyEvent,
    after: SearchApp,
    head: Seq<char>,
    pattern: Seq<char>,
    tail: Seq<char>,
)
    requires
        steps(before, key.asks(), after),
        after.query@ != before.query@ || key.kind is Press && key.code == KeyCode::Char('u')
            && key.modifiers == 2,
        after.query@ == head + pattern + tail,
        forall|n: int| 0 <= n < head.len() ==> text::white_space(#[trigger] head[n]),
        forall|n: int| 0 <= n < tail.len() ==> text::white_space(#[trigger] tail[n]),
        pattern.len() > 0 ==> !text::white_space(pattern[0]) && !text::white_space(
            pattern[pattern.len() - 1],
        ),
    ensures
        search::lists_matches(before.matcher@, before.all@, after.query@, after.filtered@),
        pattern.len() == 0 ==> after.matcher@ == before.matcher@,
        pattern.len() > 0 ==> after.matcher@ == before.matcher@ + Seq::new(
            before.all@.len(),
            |m: int| (before.all@[m].cmd@, pattern),
        ),
        after.all == before.all,
        after.selected == before.selected,
        ({
            let len = after.filtered@.len();
            let was = before.list_state.selected;
            let later = after.list_state.selected;
            &&& len == 0 ==> later is None
            &&& len > 0 && was is None ==> later == Some(0usize)
            &&& was is Some && was->0 < len ==> later == was
            &&& was is Some && len > 0 && was->0 >= len ==> later is Some && later->0 == len - 1
        }),
{
    assert(after.filtered@.len() == after.filtered.len());
    text::lemma_trimmed_is_the_middle(head, pattern, tail);
    text::lemma_blank_trims_to_nothing(after.query@);
    assert(search::calls_for(before.all@, pattern) =~= Seq::new(
        before.all@.len(),
        |m: int| (before.all@[m].cmd@, pattern),
    ));
}

/// Nothing changes by a key that is not pressed, by a character with modifiers that make it neither
/// written nor a command, by backspace at the start of the query, by delete at its end, by keys
/// that would edit where no query is, and by keys that have no meaning.
pub proof fn lemma_keys_without_effect(before: SearchApp, key: KeyEvent, after: SearchApp)
    requires
        steps(before, key.asks(), after),
        ({
            ||| !(key.kind is Press)
            ||| key.code is Other
            ||| key.code is Backspace && before.cursor_col == 0
            ||| key.code is Backspace && before.cursor_col > before.query@.len()
            ||| key.code is Delete && before.cursor_col >= before.query@.len()
            ||| key.code is Char && key.modifiers < 2 && before.cursor_col > before.query@.len()
            ||| key.code is Char && key.modifiers > 2
            ||| key.code is Char && key.modifiers == 2 && key.code->Char_0 != 'c' && key.code->Char_0
                != 'p' && key.code->Char_0 != 'n' && key.code->Char_0 != 'u'
        }),
    ensures
        after.query == before.query,
        after.cursor_col == before.cursor_col,
        after.all == before.all,
        after.filtered == before.filtered,
        after.list_state == before.list_state,
        after.selected == before.selected,
        after.matcher == before.matcher,
        outcome_of(key.asks(), after) is Continue,
{
}

} // verus!
