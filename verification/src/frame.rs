//! What the search shows: the prompt, a window on the list of matches, and a footer.

use vstd::prelude::*;

use crate::number;
use crate::search::SearchApp;
use crate::text;
use crate::time;
use crate::time::Time;
use crate::tui::Tui;

verus! {

/// How many rows the list has unless told otherwise
pub const DEFAULT_ROWS: usize = 12;

/// How many rows a setting asks for: its number if it is one, else twelve, and at least one.
pub open spec fn rows_asked(setting: Option<Seq<char>>) -> usize {
    let rows = match setting {
        Some(s) => match number::as_usize(s) {
            Some(n) => n,
            None => DEFAULT_ROWS,
        },
        None => DEFAULT_ROWS,
    };
    if rows == 0 {
        1
    } else {
        rows
    }
}

/// The text of an optional setting.
pub open spec fn setting_text(setting: Option<&str>) -> Option<Seq<char>> {
    match setting {
        Some(s) => Some(s@),
        None => None,
    }
}

/// How many rows the list may have: what the setting says, or twelve where it says no number, and
/// at least one
pub fn max_rows(setting: Option<&str>) -> (rows: usize)
    ensures
        rows == rows_asked(setting_text(setting)),
{
    let rows = match setting {
        Some(s) => number::parse_usize(s).unwrap_or(DEFAULT_ROWS),
        None => DEFAULT_ROWS,
    };
    if rows == 0 {
        1
    } else {
        rows
    }
}

/// A range of positions in the list of matches: from `start`, up to but without `end`
#[derive(Clone, Copy, Debug, PartialEq, Eq, Structural)]
pub struct Window {
    /// First position
    pub start: usize,
    /// Position behind the last one
    pub end: usize,
}

/// The smaller of two numbers.
pub open spec fn smaller(a: int, b: int) -> int {
    if a <= b {
        a
    } else {
        b
    }
}

/// Where a window of `rows` rows starts, so that the selected entry is at most its last row.
pub open spec fn window_start(selected: Option<usize>, rows: usize) -> int {
    match selected {
        Some(i) => if i < rows {
            0
        } else {
            i - rows + 1
        },
        None => 0,
    }
}

impl Window {
    /// How many positions the window has.
    pub open spec fn len(self) -> nat {
        if self.start < self.end {
            (self.end - self.start) as nat
        } else {
            0
        }
    }

    /// The window of at most `rows` rows on a list of `len` entries that shows the selected entry
    /// in its last row, or the top of the list where that shows it
    pub fn around(selected: Option<usize>, rows: usize, len: usize) -> (window: Window)
        requires
            rows >= 1,
        ensures
            window.start == window_start(selected, rows),
            window.end == smaller(window.start + rows, len as int),
    {
        let sel = selected.unwrap_or(0);
        let start = sel.saturating_sub(rows - 1);
        let mut end = start.saturating_add(rows);
        if end > len {
            end = len;
        }
        Window { start, end }
    }
}

/// The window shows the selected entry, and as many others as there is room for.
pub proof fn lemma_window_shows_selection(window: Window, selected: usize, rows: usize, len: usize)
    requires
        rows >= 1,
        selected < len,
        window.start == window_start(Some(selected), rows),
        window.end == smaller(window.start + rows, len as int),
    ensures
        window.start <= selected < window.end <= len,
        window.len() == smaller(rows as int, len - window.start),
{
}

/// One row of the list
#[derive(Debug)]
pub struct Row {
    /// How long ago the command was used last, as wide as in the other rows
    pub ts: String,
    /// The command on one line
    pub line: String,
    /// Whether it is the selected entry
    pub highlighted: bool,
}

/// What the search shows
#[derive(Debug)]
pub struct SearchFrame {
    /// The prompt with the query
    pub prompt: String,
    /// Column of the cursor in the prompt
    pub cursor_x: u16,
    /// The rows of the list that fit
    pub rows: Vec<Row>,
    /// Which of the rows is the selected entry
    pub selected_row: Option<usize>,
    /// The line below the list
    pub footer: String,
}

/// How many characters the longest of some texts has.
pub open spec fn widest(labels: Seq<Seq<char>>) -> nat
    decreases labels.len(),
{
    if labels.len() == 0 {
        0
    } else {
        let rest = widest(labels.drop_last());
        if rest < labels.last().len() {
            labels.last().len()
        } else {
            rest
        }
    }
}

/// No text is longer than the longest.
pub proof fn lemma_widest(labels: Seq<Seq<char>>, i: int)
    requires
        0 <= i < labels.len(),
    ensures
        labels[i].len() <= widest(labels),
    decreases labels.len(),
{
    if i < labels.len() - 1 {
        lemma_widest(labels.drop_last(), i);
        assert(labels.drop_last()[i] == labels[i]);
    }
}

/// Padded to the width of the longest, all texts are equally wide.
pub proof fn lemma_labels_line_up(labels: Seq<Seq<char>>, i: int)
    requires
        0 <= i < labels.len(),
    ensures
        text::padded(labels[i], widest(labels), ' ').len() == widest(labels),
{
    lemma_widest(labels, i);
}

/// The command at a position of the list, on one line; nothing beyond the list.
pub open spec fn line_at(app: &SearchApp, position: int) -> Seq<char> {
    match app.candidate_at(position) {
        Some(candidate) => text::flattened(candidate.cmd@),
        None => Seq::empty(),
    }
}

/// A row shows the entry at a position of the list, with its label from `labels` for the time.
pub open spec fn shows_entry(
    row: Row,
    app: &SearchApp,
    window: Window,
    labels: Seq<Seq<char>>,
    k: int,
) -> bool {
    &&& row.ts@ == if k < labels.len() {
        text::padded(labels[k], widest(labels), ' ')
    } else {
        Seq::empty()
    }
    &&& row.line@ == line_at(app, window.start + k)
    &&& row.highlighted <==> app.list_state.selected == Some((window.start + k) as usize)
}

/// A frame shows a window of the search, with `labels` for the times.
pub open spec fn shows_window(
    frame: SearchFrame,
    app: &SearchApp,
    window: Window,
    labels: Seq<Seq<char>>,
) -> bool {
    &&& frame.prompt@ == "> "@ + app.query@
    &&& frame.cursor_x == smaller(app.cursor_col + 2, u16::MAX as int)
    &&& frame.rows@.len() == window.len()
    &&& forall|k: int|
        0 <= k < window.len() ==> shows_entry(#[trigger] frame.rows@[k], app, window, labels, k)
    &&& frame.selected_row == match app.list_state.selected {
        Some(i) => if window.start <= i < window.end {
            Some((i - window.start) as usize)
        } else {
            None
        },
        None => None,
    }
    &&& frame.footer@ == "  "@ + number::decimal(app.filtered@.len())
        + " matches · ↑/↓ move · enter accept · esc cancel"@
}

/// The labels are what the times of a window's entries read as, each at a moment that the clock
/// showed.
pub open spec fn labels_entries(
    labels: Seq<Seq<char>>,
    app: &SearchApp,
    window: Window,
) -> bool {
    &&& labels.len() == window.len()
    &&& forall|k: int|
        0 <= k < labels.len() ==> labels_entry(#[trigger] labels[k], app, window.start + k)
}

/// The label is what the time at a position of the list reads as at a moment that the clock showed.
pub open spec fn labels_entry(label: Seq<char>, app: &SearchApp, position: int) -> bool {
    match app.candidate_at(position) {
        Some(candidate) => time::reads_by_the_clock(label, candidate.ts),
        None => label == "never"@,
    }
}

/// The label for the time at a position of the list, as the clock stands
fn label_at(app: &SearchApp, position: usize) -> (label: String)
    ensures
        labels_entry(label@, app, position as int),
{
    match app.candidate_at_filtered(position) {
        Some(candidate) => Time::relative_short(candidate.ts),
        None => "never".to_string(),
    }
}

/// The labels for the times of a window's entries, as the clock stands
fn time_labels(app: &SearchApp, window: Window) -> (labels: Vec<String>)
    ensures
        labels_entries(text::texts(labels@), app, window),
{
    let mut labels: Vec<String> = Vec::new();
    let mut i: usize = window.start;
    while i < window.end
        invariant
            window.start <= i,
            window.start <= window.end ==> i <= window.end,
            window.start > window.end ==> i == window.start,
            labels@.len() == i - window.start,
            forall|k: int|
                0 <= k < labels@.len() ==> labels_entry(
                    (#[trigger] labels@[k])@,
                    app,
                    window.start + k,
                ),
        decreases window.end - i,
    {
        let label = label_at(app, i);
        labels.push(label);
        i += 1;
    }
    proof {
        let all = text::texts(labels@);
        assert forall|k: int| 0 <= k < all.len() implies labels_entry(
            #[trigger] all[k],
            app,
            window.start + k,
        ) by {
            assert(all[k] == labels@[k]@);
        }
    }
    labels
}

impl SearchFrame {
    /// The frame for a window of the search, with `labels` for the times
    pub fn compose(app: &SearchApp, window: Window, labels: &Vec<String>) -> (frame: SearchFrame)
        ensures
            shows_window(frame, app, window, text::texts(labels@)),
    {
        let width = label_width(labels);
        let rows = compose_rows(app, window, labels, width);
        let selected_row = match app.list_state.selected() {
            Some(i) => if window.start <= i && i < window.end {
                Some(i - window.start)
            } else {
                None
            },
            None => None,
        };
        let column = app.cursor_col.saturating_add(2);
        let cursor_x: u16 = if column <= 0xffff {
            column as u16
        } else {
            0xffff
        };
        let mut prompt = "> ".to_string();
        prompt.append(app.query.as_str());
        let mut footer = "  ".to_string();
        footer.append(number::to_decimal(app.filtered.len() as u64).as_str());
        footer.append(" matches · ↑/↓ move · enter accept · esc cancel");
        SearchFrame { prompt, cursor_x, rows, selected_row, footer }
    }
}

/// How many characters the longest label has
fn label_width(labels: &Vec<String>) -> (width: usize)
    ensures
        width == widest(text::texts(labels@)),
{
    let ghost all = text::texts(labels@);
    let mut width: usize = 0;
    let mut i: usize = 0;
    while i < labels.len()
        invariant
            i <= labels@.len(),
            all == text::texts(labels@),
            width == widest(all.take(i as int)),
        decreases labels@.len() - i,
    {
        let n = text::char_count(labels[i].as_str());
        if width < n {
            width = n;
        }
        assert(all.take(i + 1).drop_last() =~= all.take(i as int));
        assert(all.take(i + 1).last() == labels@[i as int]@);
        i += 1;
    }
    assert(all.take(i as int) =~= all);
    width
}

/// The rows of a window
fn compose_rows(app: &SearchApp, window: Window, labels: &Vec<String>, width: usize) -> (rows: Vec<
    Row,
>)
    requires
        width == widest(text::texts(labels@)),
    ensures
        rows@.len() == window.len(),
        forall|k: int|
            0 <= k < window.len() ==> shows_entry(
                #[trigger] rows@[k],
                app,
                window,
                text::texts(labels@),
                k,
            ),
{
    let mut rows: Vec<Row> = Vec::new();
    let mut i: usize = window.start;
    while i < window.end
        invariant
            window.start <= i,
            window.start <= window.end ==> i <= window.end,
            window.start > window.end ==> i == window.start,
            rows@.len() == i - window.start,
            width == widest(text::texts(labels@)),
            forall|k: int|
                0 <= k < rows@.len() ==> shows_entry(
                    #[trigger] rows@[k],
                    app,
                    window,
                    text::texts(labels@),
                    k,
                ),
        decreases window.end - i,
    {
        let line = match app.candidate_at_filtered(i) {
            Some(candidate) => text::flatten(candidate.cmd.as_str()),
            None => String::new(),
        };
        let offset: usize = i - window.start;
        let ts = if offset < labels.len() {
            text::pad_start(labels[offset].as_str(), width, ' ')
        } else {
            String::new()
        };
        let highlighted = match app.list_state.selected() {
            Some(selected) => selected == i,
            None => false,
        };
        rows.push(Row { ts, line, highlighted });
        i += 1;
    }
    rows
}

impl Tui {
    /// Composes one search frame (prompt, list window, footer) for the setting of the number of
    /// rows
    pub fn draw_search(app: &SearchApp, rows_setting: Option<&str>) -> (frame: SearchFrame)
        ensures
            exists|window: Window, labels: Seq<Seq<char>>|
                {
                    &&& window.start == window_start(
                        app.list_state.selected,
                        rows_asked(setting_text(rows_setting)),
                    )
                    &&& window.end == smaller(
                        window.start + rows_asked(setting_text(rows_setting)),
                        app.filtered@.len() as int,
                    )
                    &&& labels_entries(labels, app, window)
                    &&& #[trigger] shows_window(frame, app, window, labels)
                },
    {
        let window = Window::around(
            app.list_state.selected(),
            max_rows(rows_setting),
            app.filtered.len(),
        );
        let labels = time_labels(app, window);
        SearchFrame::compose(app, window, &labels)
    }
}

/// In a search between two keys the frame highlights the selected entry's row, and no other.
pub proof fn lemma_selection_is_highlighted(
    app: SearchApp,
    rows: usize,
    window: Window,
    labels: Seq<Seq<char>>,
    frame: SearchFrame,
)
    requires
        rows >= 1,
        app.wf(),
        app.filtered@.len() > 0,
        window.start == window_start(app.list_state.selected, rows),
        window.end == smaller(window.start + rows, app.filtered@.len() as int),
        shows_window(frame, &app, window, labels),
    ensures
        frame.selected_row is Some,
        frame.selected_row->0 < frame.rows@.len(),
        forall|k: int|
            0 <= k < frame.rows@.len() ==> ((#[trigger] frame.rows@[k]).highlighted <==> k
                == frame.selected_row->0),
{
    assert forall|k: int| 0 <= k < frame.rows@.len() implies ((
    #[trigger] frame.rows@[k]).highlighted <==> k == frame.selected_row->0) by {
        assert(shows_entry(frame.rows@[k], &app, window, labels, k));
    }
}

/// A setting that is a number asks for as many rows, but for one at least; without a setting, or
/// with one that is no number, there are twelve.
pub proof fn lemma_rows_of_a_setting(setting: Option<&str>, rows: usize)
    requires
        call_ensures(max_rows, (setting,), rows),
    ensures
        setting is None ==> rows == 12,
        setting is Some && number::as_usize(setting->0@) is None ==> rows == 12,
        setting is Some && number::as_usize(setting->0@) is Some ==> rows >= 1 && (rows
            == number::as_usize(setting->0@)->0 || rows == 1 && number::as_usize(setting->0@)->0
            == 0),
{
}

/// A setting in decimal notation asks for as many rows as it says.
pub proof fn lemma_rows_in_decimal_notation(setting: &str, n: usize, rows: usize)
    requires
        call_ensures(max_rows, (Some(setting),), rows),
        setting@ == number::decimal(n as nat),
        n >= 1,
    ensures
        rows == n,
{
    number::lemma_numbers_are_read(n as nat, 0);
    assert(Seq::new(0, |i: int| '0') + number::decimal(n as nat) =~= setting@);
}

/// A window starts at the top of the list, or has the selected entry in its last row; it has all
/// its rows unless the list ends before.
pub proof fn lemma_window_around(
    selected: Option<usize>,
    rows: usize,
    len: usize,
    window: Window,
)
    requires
        rows >= 1,
        call_ensures(Window::around, (selected, rows, len), window),
    ensures
        ({
            let entry: int = match selected {
                Some(i) => i as int,
                None => 0,
            };
            &&& window.start <= entry < window.start + rows
            &&& window.start > 0 ==> entry == window.start + rows - 1
            &&& window.end <= window.start + rows
            &&& window.end <= len
            &&& window.end == window.start + rows || window.end == len
        }),
{
}

/// One of the texts is as wide as the widest.
pub proof fn lemma_widest_is_reached(labels: Seq<Seq<char>>)
    requires
        labels.len() > 0,
    ensures
        exists|i: int| 0 <= i < labels.len() && (#[trigger] labels[i]).len() == widest(labels),
    decreases labels.len(),
{
    let rest = labels.drop_last();
    assert(rest.len() == 0 ==> widest(rest) == 0);
    if rest.len() > 0 && widest(rest) >= labels.last().len() {
        lemma_widest_is_reached(rest);
        let i = choose|i: int| 0 <= i < rest.len() && (#[trigger] rest[i]).len() == widest(rest);
        assert(labels[i].len() == widest(labels));
    } else {
        assert(labels[labels.len() - 1].len() == widest(labels));
    }
}

/// The prompt is the query behind a sign and a space, with the cursor in the column behind the
/// sign, the space and the characters before it; the footer tells how many matches there are.
pub proof fn lemma_prompt_and_footer(
    frame: SearchFrame,
    app: &SearchApp,
    window: Window,
    labels: Seq<Seq<char>>,
)
    requires
        shows_window(frame, app, window, labels),
    ensures
        frame.prompt@.len() == app.query@.len() + 2,
        frame.prompt@[0] == '>',
        frame.prompt@[1] == ' ',
        frame.prompt@.skip(2) == app.query@,
        app.cursor_col + 2 <= 65_535 ==> frame.cursor_x == app.cursor_col + 2,
        app.cursor_col + 2 > 65_535 ==> frame.cursor_x == 65_535,
        frame.footer@ == seq![' ', ' '] + number::decimal(app.filtered@.len())
            + " matches · ↑/↓ move · enter accept · esc cancel"@,
{
    reveal_strlit("> ");
    reveal_strlit("  ");
    assert(frame.prompt@.skip(2) =~= app.query@);
    assert("  "@ =~= seq![' ', ' ']);
}

/// The rows show the entries of the window one after the other: the command on one line, and its
/// label behind as many spaces as make all labels as wide as the widest. The row of the selected
/// entry stands out, and no other. Where there is no entry, or no label, there is nothing.
pub proof fn lemma_rows_show_entries(
    frame: SearchFrame,
    app: &SearchApp,
    window: Window,
    labels: Seq<Seq<char>>,
    k: int,
    i: int,
)
    requires
        shows_window(frame, app, window, labels),
    ensures
        window.start <= window.end ==> frame.rows@.len() == window.end - window.start,
        window.start > window.end ==> frame.rows@.len() == 0,
        frame.selected_row is Some ==> frame.selected_row->0 < frame.rows@.len(),
        0 <= k < frame.rows@.len() ==> {
            let row = frame.rows@[k];
            let position = window.start + k;
            let listed = position < app.filtered@.len() && app.filtered@[position]
                < app.all@.len();
            &&& listed ==> row.line@ == text::flattened(
                app.all@[app.filtered@[position] as int].cmd@,
            )
            &&& !listed ==> row.line@.len() == 0
            &&& row.highlighted <==> app.list_state.selected is Some
                && app.list_state.selected->0 == position
            &&& frame.selected_row == Some(k as usize) <==> row.highlighted
            &&& k >= labels.len() ==> row.ts@.len() == 0
        },
        0 <= k < frame.rows@.len() && k < labels.len() ==> {
            let shown = frame.rows@[k].ts@;
            &&& 0 <= i < labels.len() ==> shown.len() >= labels[i].len()
            &&& shown.skip(shown.len() - labels[k].len()) == labels[k]
            &&& forall|n: int| 0 <= n < shown.len() - labels[k].len() ==> #[trigger] shown[n] == ' '
            &&& exists|n: int|
                0 <= n < labels.len() && (#[trigger] labels[n]).len() == shown.len()
        },
{
    if 0 <= k < frame.rows@.len() {
        assert(shows_entry(frame.rows@[k], app, window, labels, k));
        if k < labels.len() {
            lemma_labels_line_up(labels, k);
            text::lemma_padded(labels[k], widest(labels), ' ');
            lemma_widest_is_reached(labels);
            if 0 <= i < labels.len() {
                lemma_widest(labels, i);
            }
        }
    }
}

/// A frame is composed of the window and the labels that are given.
pub proof fn lemma_composed(app: &SearchApp, window: Window, labels: &Vec<String>, frame: SearchFrame)
    requires
        call_ensures(SearchFrame::compose, (app, window, labels), frame),
    ensures
        shows_window(frame, app, window, text::texts(labels@)),
        text::texts(labels@).len() == labels@.len(),
        forall|k: int| 0 <= k < labels@.len() ==> #[trigger] text::texts(labels@)[k] == labels@[k]@,
{
}

/// What is drawn is a window that starts at the top of the list or ends with the selected entry, as
/// tall as the setting says unless the list ends before; each label is what the time of its entry
/// reads as at a moment that the clock showed.
pub proof fn lemma_drawn(app: &SearchApp, setting: Option<&str>, rows: usize, frame: SearchFrame)
    requires
        call_ensures(Tui::draw_search, (app, setting), frame),
        call_ensures(max_rows, (setting,), rows),
    ensures
        exists|window: Window, labels: Seq<Seq<char>>|
            {
                let entry = app.list_state.selected.unwrap_or(0);
                &&& #[trigger] shows_window(frame, app, window, labels)
                &&& window.start <= entry < window.start + rows
                &&& window.start > 0 ==> entry == window.start + rows - 1
                &&& window.end <= window.start + rows
                &&& window.end <= app.filtered@.len()
                &&& window.end == window.start + rows || window.end == app.filtered@.len()
                &&& window.start <= window.end ==> labels.len() == window.end - window.start
                &&& forall|k: int|
                    0 <= k < labels.len() && app.filtered@[window.start + k] < app.all@.len()
                        ==> time::reads_by_the_clock(
                        #[trigger] labels[k],
                        app.all@[app.filtered@[window.start + k] as int].ts,
                    )
            },
{
    let (window, labels) = choose|window: Window, labels: Seq<Seq<char>>|
        {
            &&& window.start == window_start(
                app.list_state.selected,
                rows_asked(setting_text(setting)),
            )
            &&& window.end == smaller(
                window.start + rows_asked(setting_text(setting)),
                app.filtered@.len() as int,
            )
            &&& labels_entries(labels, app, window)
            &&& #[trigger] shows_window(frame, app, window, labels)
        };
    assert forall|k: int|
        0 <= k < labels.len() && app.filtered@[window.start + k] < app.all@.len()
            implies time::reads_by_the_clock(
        #[trigger] labels[k],
        app.all@[app.filtered@[window.start + k] as int].ts,
    ) by {
        assert(labels_entry(labels[k], app, window.start + k));
    }
}

} // verus!
