//! What the subcommands record, print and look for.

use vstd::prelude::*;

use crate::number;
use crate::ranking;
use crate::text;
use crate::time;
use crate::time::Time;

verus! {

/// One row of the history
#[derive(Debug)]
pub struct HistoryRow {
    /// Command text
    pub cmd: String,
    /// Directory the command ran in
    pub cwd: String,
    /// Exit status of the command
    pub exit: i32,
    /// Unix timestamp of last use
    pub ts: i64,
    /// Shell session the command ran in
    pub session: String,
}

/// A command that is to be recorded
#[derive(Debug)]
pub struct AddRequest {
    /// Command text
    pub cmd: String,
    /// Exit status of the command
    pub exit: i32,
}

impl AddRequest {
    /// The row for the command: where and when it ran, and in which session if that is known
    pub fn into_row(self, cwd: String, ts: i64, session: Option<String>) -> (row: HistoryRow)
        ensures
            row.cmd == self.cmd,
            row.exit == self.exit,
            row.cwd == cwd,
            row.ts == ts,
            match session {
                Some(s) => row.session == s,
                None => row.session@ == Seq::<char>::empty(),
            },
    {
        let session = match session {
            Some(s) => s,
            None => String::new(),
        };
        HistoryRow { cmd: self.cmd, cwd, exit: self.exit, ts, session }
    }
}

/// `line` shows a history row: its time filled up to sixteen columns, its exit status in brackets,
/// and its command.
pub open spec fn is_list_line(line: Seq<char>, ts: i64, exit: i32, cmd: Seq<char>) -> bool {
    exists|formatted: Seq<char>|
        {
            &&& #[trigger] time::shows_utc(formatted, ts)
            &&& line == text::padded(formatted, 16, ' ') + "  ("@ + number::signed_decimal(
                exit as int,
            ) + ")  "@ + cmd
        }
}

/// What is listed of a history row
#[derive(Debug)]
pub struct ListedRow {
    /// Unix timestamp of last use, if the row has one
    pub ts: Option<i64>,
    /// Exit status of the command, if the row has one
    pub exit: Option<i32>,
    /// Command text
    pub cmd: String,
}

/// `line` shows the row, with 0 for a time or a status that it does not have.
pub open spec fn shows_row(line: String, row: ListedRow) -> bool {
    is_list_line(line@, row.ts.unwrap_or(0), row.exit.unwrap_or(0), row.cmd@)
}

/// The times of rows; 0 for a row that has none.
pub open spec fn times_of(rows: Seq<ListedRow>) -> Seq<Option<i64>> {
    Seq::new(rows.len(), |i: int| Some(rows[i].ts.unwrap_or(0)))
}

/// The lines show the rows at the first `count` positions of `order`.
pub open spec fn shows_rows(
    lines: Seq<String>,
    rows: Seq<ListedRow>,
    order: Seq<usize>,
    count: nat,
) -> bool {
    &&& lines.len() == if count <= order.len() {
        count
    } else {
        order.len()
    }
    &&& forall|k: int|
        0 <= k < lines.len() ==> shows_row(#[trigger] lines[k], rows[order[k] as int])
}

/// The lines show the `count` most recent of the rows, or all if there are fewer: the later time
/// first, and of equal times the row that comes first of all.
pub open spec fn lists_most_recent(
    lines: Seq<String>,
    rows: Seq<ListedRow>,
    count: nat,
) -> bool {
    exists|order: Seq<usize>|
        {
            &&& ranking::is_ranking(times_of(rows), order)
            &&& #[trigger] shows_rows(lines, rows, order, count)
        }
}

/// The timestamp that a line of a shell history holds: a number sign, then a number.
pub open spec fn timestamp_line(line: Seq<char>) -> Option<i64> {
    if line.len() > 0 && line[0] == '#' {
        number::as_i64(line.skip(1))
    } else {
        None
    }
}

/// What is known of a shell history once some of its lines were read.
pub struct Progress {
    /// The timestamp for the next command
    pub timestamp: i64,
    /// The last command that was taken over
    pub last: Seq<char>,
    /// The commands that were taken over, with their timestamps
    pub taken: Seq<(Seq<char>, i64)>,
}

/// Before the first line the time is `now`.
pub open spec fn no_lines_read(now: i64) -> Progress {
    Progress { timestamp: now, last: Seq::empty(), taken: Seq::empty() }
}

/// A timestamp line sets the time for the commands after it. Any other line is a command without
/// the blanks at its end, and is taken over unless it is blank or repeats the last one.
pub open spec fn line_read(before: Progress, line: Seq<char>) -> Progress {
    match timestamp_line(line) {
        Some(ts) => Progress { timestamp: ts, ..before },
        None => {
            let cmd = text::without_trailing_blanks(line);
            if text::blank(cmd) || cmd == before.last {
                before
            } else {
                Progress { last: cmd, taken: before.taken.push((cmd, before.timestamp)), ..before }
            }
        },
    }
}

/// The lines read one after the other.
pub open spec fn lines_read(start: Progress, lines: Seq<Seq<char>>) -> Progress
    decreases lines.len(),
{
    if lines.len() == 0 {
        start
    } else {
        line_read(lines_read(start, lines.drop_last()), lines.last())
    }
}

/// The row for a command that was taken over from a shell history.
pub open spec fn is_imported_row(row: HistoryRow, taken: (Seq<char>, i64)) -> bool {
    &&& row.cmd@ == taken.0
    &&& row.ts == taken.1
    &&& row.cwd@ == Seq::<char>::empty()
    &&& row.exit == 0
    &&& row.session@ == Seq::<char>::empty()
}

/// The rows for the commands that were taken over.
pub open spec fn are_imported_rows(rows: Seq<HistoryRow>, taken: Seq<(Seq<char>, i64)>) -> bool {
    &&& rows.len() == taken.len()
    &&& forall|k: int| 0 <= k < rows.len() ==> is_imported_row(#[trigger] rows[k], taken[k])
}

/// How many commands are said to be imported: all, as far as 32 bits count.
pub open spec fn counted(n: nat) -> u32 {
    if n <= u32::MAX {
        n as u32
    } else {
        u32::MAX
    }
}

/// The commands of a shell history
#[derive(Debug)]
pub struct Import {
    /// Their rows, in order
    pub rows: Vec<HistoryRow>,
    /// How many there are
    pub count: u32,
}

impl Import {
    /// The report once the commands of `file` are imported
    pub fn summary(&self, file: &str) -> (s: String)
        ensures
            s@ == "Imported "@ + number::decimal(self.count as nat) + " commands from '"@ + file@
                + "'"@,
    {
        let mut s = "Imported ".to_string();
        s.append(number::to_decimal(self.count as u64).as_str());
        s.append(" commands from '");
        s.append(file);
        s.append("'");
        s
    }
}

/// The reading of a shell history, line by line
#[derive(Debug)]
struct Reader {
    /// Timestamp for the next command
    timestamp: i64,
    /// Last command that was taken over
    last: String,
    /// What was taken over
    import: Import,
}

impl Reader {
    spec fn follows(&self, progress: Progress) -> bool {
        &&& self.timestamp == progress.timestamp
        &&& self.last@ == progress.last
        &&& are_imported_rows(self.import.rows@, progress.taken)
        &&& self.import.count == counted(progress.taken.len())
    }

    /// Reads one line
    fn read_line(&mut self, line: &str, Ghost(progress): Ghost<Progress>)
        requires
            old(self).follows(progress),
        ensures
            final(self).follows(line_read(progress, line@)),
    {
        if let Some(ts) = parse_timestamp_line(line) {
            self.timestamp = ts;
            return;
        }
        let cmd = text::trim_end_blanks(line);
        if text::is_blank(cmd.as_str()) || cmd == self.last {
            return;
        }
        let row = HistoryRow {
            cmd: cmd.clone(),
            cwd: String::new(),
            exit: 0,
            ts: self.timestamp,
            session: String::new(),
        };
        self.import.rows.push(row);
        self.last = cmd;
        self.import.count = self.import.count.saturating_add(1);
    }
}

/// The timestamp that a line of a shell history holds
fn parse_timestamp_line(line: &str) -> (ts: Option<i64>)
    ensures
        ts == timestamp_line(line@),
{
    let mut chars = text::chars_of(line);
    if chars.len() > 0 && chars[0] == '#' {
        chars.remove(0);
        let after = text::string_of(&chars);
        assert(after@ =~= line@.skip(1));
        number::parse_i64(after.as_str())
    } else {
        None
    }
}

/// The positions of history rows, the most recent row first
fn recency_order(rows: &Vec<ListedRow>) -> (order: Vec<usize>)
    ensures
        ranking::is_ranking(times_of(rows@), order@),
{
    let mut times: Vec<Option<i64>> = Vec::new();
    let mut i: usize = 0;
    while i < rows.len()
        invariant
            i <= rows@.len(),
            times@ == times_of(rows@).take(i as int),
        decreases rows@.len() - i,
    {
        times.push(Some(rows[i].ts.unwrap_or(0)));
        i += 1;
        assert(times@ =~= times_of(rows@).take(i as int));
    }
    assert(times@ =~= times_of(rows@));
    ranking::rank(&times)
}

/// The line that shows a history row: its time, exit status and command, with 0 for a time or a
/// status that the row does not have
pub fn list_line(row: &ListedRow) -> (line: String)
    ensures
        shows_row(line, *row),
{
    let formatted = Time::format_utc(row.ts.unwrap_or(0));
    let mut line = text::pad_start(formatted.as_str(), 16, ' ');
    line.append("  (");
    line.append(number::to_signed_decimal(row.exit.unwrap_or(0) as i64).as_str());
    line.append(")  ");
    line.append(row.cmd.as_str());
    line
}

/// The subcommands
pub struct Command;

impl Command {
    /// The command to record: its words with a space between neighbours, or nothing if that is
    /// blank
    pub fn add(exit: i32, arguments: &[String]) -> (request: Option<AddRequest>)
        ensures
            match request {
                Some(r) => {
                    &&& !text::blank(text::joined(text::texts(arguments@)))
                    &&& r.cmd@ == text::joined(text::texts(arguments@))
                    &&& r.exit == exit
                },
                None => text::blank(text::joined(text::texts(arguments@))),
            },
    {
        let cmd = text::join_words(arguments);
        if text::is_blank(cmd.as_str()) {
            None
        } else {
            Some(AddRequest { cmd, exit })
        }
    }

    /// The lines that show the `count` most recent of some history rows, the most recent first; of
    /// rows with the same time the one that comes first of all
    pub fn list(rows: &Vec<ListedRow>, count: u32) -> (lines: Vec<String>)
        ensures
            lists_most_recent(lines@, rows@, count as nat),
    {
        let order = recency_order(rows);
        let mut lines: Vec<String> = Vec::new();
        let mut k: usize = 0;
        while k < order.len() && (k as u64) < count as u64
            invariant
                k <= order@.len(),
                k <= count,
                ranking::is_ranking(times_of(rows@), order@),
                lines@.len() == k,
                forall|j: int|
                    0 <= j < k ==> shows_row(#[trigger] lines@[j], rows@[order@[j] as int]),
            decreases order@.len() - k,
        {
            assert(order@[k as int] < times_of(rows@).len());
            let row = &rows[order[k]];
            lines.push(list_line(row));
            k += 1;
        }
        assert(shows_rows(lines@, rows@, order@, count as nat));
        lines
    }

    /// The commands that the lines of a shell history hold, read at the time `now`
    pub fn import(lines: &[String], now: i64) -> (import: Import)
        ensures
            are_imported_rows(
                import.rows@,
                lines_read(no_lines_read(now), text::texts(lines@)).taken,
            ),
            import.count == counted(import.rows@.len()),
    {
        let mut reader = Reader {
            timestamp: now,
            last: String::new(),
            import: Import { rows: Vec::new(), count: 0 },
        };
        let ghost all = text::texts(lines@);
        let ghost start = no_lines_read(now);
        let mut i: usize = 0;
        while i < lines.len()
            invariant
                i <= lines@.len(),
                all == text::texts(lines@),
                reader.follows(lines_read(start, all.take(i as int))),
            decreases lines@.len() - i,
        {
            reader.read_line(lines[i].as_str(), Ghost(lines_read(start, all.take(i as int))));
            assert(all.take(i + 1).drop_last() =~= all.take(i as int));
            assert(all.take(i + 1).last() == lines@[i as int]@);
            i += 1;
        }
        assert(all.take(i as int) =~= all);
        reader.import
    }

    /// The query that a search starts with: the words with a space between neighbours
    pub fn search(arguments: &[String]) -> (initial: String)
        ensures
            initial@ == text::joined(text::texts(arguments@)),
    {
        text::join_words(arguments)
    }
}

/// Reading a history in two parts is the same as reading it at once.
pub proof fn lemma_read_in_parts(start: Progress, first: Seq<Seq<char>>, second: Seq<Seq<char>>)
    ensures
        lines_read(start, first + second) == lines_read(lines_read(start, first), second),
    decreases second.len(),
{
    if second.len() == 0 {
        assert(first + second =~= first);
    } else {
        lemma_read_in_parts(start, first, second.drop_last());
        assert((first + second).drop_last() =~= first + second.drop_last());
        assert((first + second).last() == second.last());
    }
}

/// A command never ends in a space or a tab once it is stripped of them.
proof fn lemma_no_trailing_blanks(s: Seq<char>)
    ensures
        text::without_trailing_blanks(s).len() > 0 ==> text::without_trailing_blanks(s).last()
            != ' ' && text::without_trailing_blanks(s).last() != '\t',
    decreases s.len(),
{
    if s.len() > 0 && (s.last() == ' ' || s.last() == '\t') {
        lemma_no_trailing_blanks(s.drop_last());
    }
}

/// A command fit to be taken over: it is not blank, and no space or tab ends it.
pub open spec fn fit_to_take(cmd: Seq<char>) -> bool {
    &&& !text::blank(cmd)
    &&& cmd.last() != ' '
    &&& cmd.last() != '\t'
}

/// Of a history's lines at most each gives a command; no command is blank or ends in a space or a
/// tab; and no command follows on itself.
pub proof fn lemma_taken_commands(now: i64, lines: Seq<Seq<char>>)
    ensures
        ({
            let taken = lines_read(no_lines_read(now), lines).taken;
            &&& taken.len() <= lines.len()
            &&& forall|k: int| 0 <= k < taken.len() ==> fit_to_take((#[trigger] taken[k]).0)
            &&& forall|j: int, k: int|
                #![trigger taken[j], taken[k]]
                0 <= j < taken.len() && k == j + 1 && k < taken.len() ==> taken[j].0 != taken[k].0
        }),
{
    lemma_taken(now, lines);
}

proof fn lemma_taken(now: i64, lines: Seq<Seq<char>>)
    ensures
        ({
            let progress = lines_read(no_lines_read(now), lines);
            let taken = progress.taken;
            &&& taken.len() <= lines.len()
            &&& taken.len() > 0 ==> progress.last == taken.last().0
            &&& forall|k: int| 0 <= k < taken.len() ==> fit_to_take((#[trigger] taken[k]).0)
            &&& forall|j: int, k: int|
                #![trigger taken[j], taken[k]]
                0 <= j < taken.len() && k == j + 1 && k < taken.len() ==> taken[j].0 != taken[k].0
        }),
    decreases lines.len(),
{
    if lines.len() > 0 {
        lemma_taken(now, lines.drop_last());
        lemma_no_trailing_blanks(lines.last());
    }
}

/// The commands after a timestamp line, up to the next one, have its time; those before it stay as
/// they are.
pub proof fn lemma_commands_have_the_last_timestamp(
    start: Progress,
    head: Seq<Seq<char>>,
    stamp: Seq<char>,
    tail: Seq<Seq<char>>,
)
    requires
        timestamp_line(stamp) is Some,
        forall|i: int| 0 <= i < tail.len() ==> timestamp_line(#[trigger] tail[i]) is None,
    ensures
        ({
            let before = lines_read(start, head.push(stamp)).taken;
            let after = lines_read(start, head.push(stamp) + tail).taken;
            &&& before.len() <= after.len()
            &&& after.take(before.len() as int) == before
            &&& forall|k: int|
                before.len() <= k < after.len() ==> Some((#[trigger] after[k]).1) == timestamp_line(
                    stamp,
                )
        }),
{
    assert(head.push(stamp).drop_last() =~= head);
    lemma_read_in_parts(start, head.push(stamp), tail);
    lemma_same_timestamp(lines_read(start, head.push(stamp)), tail);
}

/// Without timestamp lines all commands have the time at which the reading started.
pub proof fn lemma_same_timestamp(start: Progress, lines: Seq<Seq<char>>)
    requires
        forall|i: int| 0 <= i < lines.len() ==> timestamp_line(#[trigger] lines[i]) is None,
    ensures
        ({
            let progress = lines_read(start, lines);
            &&& progress.timestamp == start.timestamp
            &&& start.taken.len() <= progress.taken.len()
            &&& progress.taken.take(start.taken.len() as int) == start.taken
            &&& forall|k: int|
                start.taken.len() <= k < progress.taken.len() ==> (#[trigger] progress.taken[k]).1
                    == start.timestamp
        }),
    decreases lines.len(),
{
    let n = start.taken.len() as int;
    if lines.len() == 0 {
        assert(start.taken.take(n) =~= start.taken);
    } else {
        let rest = lines.drop_last();
        assert forall|i: int| 0 <= i < rest.len() implies timestamp_line(
            #[trigger] rest[i],
        ) is None by {
            assert(rest[i] == lines[i]);
        }
        lemma_same_timestamp(start, rest);
        assert(timestamp_line(lines[lines.len() - 1]) is None);
        assert(lines_read(start, lines).taken.take(n) =~= lines_read(start, rest).taken.take(n));
    }
}

/// The command on a line of a shell history, without the blanks at its end: none on a timestamp
/// line or a blank one.
pub open spec fn command_on(line: Seq<char>) -> Option<Seq<char>> {
    let cmd = text::without_trailing_blanks(line);
    if timestamp_line(line) is Some || text::blank(cmd) {
        None
    } else {
        Some(cmd)
    }
}

/// A command stands on one of the lines.
pub open spec fn on_some_line(lines: Seq<Seq<char>>, cmd: Seq<char>) -> bool {
    exists|i: int| 0 <= i < lines.len() && #[trigger] command_on(lines[i]) == Some(cmd)
}

/// A command is among those that were taken over.
pub open spec fn is_taken(taken: Seq<(Seq<char>, i64)>, cmd: Seq<char>) -> bool {
    exists|k: int| 0 <= k < taken.len() && (#[trigger] taken[k]).0 == cmd
}

/// The commands of a history's lines are taken over, and no others.
pub proof fn lemma_all_commands_are_taken(now: i64, lines: Seq<Seq<char>>, cmd: Seq<char>)
    ensures
        is_taken(lines_read(no_lines_read(now), lines).taken, cmd) <==> on_some_line(lines, cmd),
    decreases lines.len(),
{
    let after = lines_read(no_lines_read(now), lines);
    if lines.len() > 0 {
        let rest = lines.drop_last();
        let line = lines.last();
        let before = lines_read(no_lines_read(now), rest);
        lemma_all_commands_are_taken(now, rest, cmd);
        lemma_taken(now, rest);
        assert(lines[lines.len() - 1] == line);
        if on_some_line(lines, cmd) {
            let i = choose|i: int|
                0 <= i < lines.len() && #[trigger] command_on(lines[i]) == Some(cmd);
            if i < rest.len() {
                assert(command_on(rest[i]) == Some(cmd));
            }
        }
        if on_some_line(rest, cmd) {
            let i = choose|i: int|
                0 <= i < rest.len() && #[trigger] command_on(rest[i]) == Some(cmd);
            assert(command_on(lines[i]) == Some(cmd));
        }
        if is_taken(before.taken, cmd) {
            let k = choose|k: int| 0 <= k < before.taken.len() && (#[trigger] before.taken[k]).0
                == cmd;
            assert(after.taken[k].0 == cmd);
        }
        if is_taken(after.taken, cmd) {
            let k = choose|k: int| 0 <= k < after.taken.len() && (#[trigger] after.taken[k]).0
                == cmd;
            if k < before.taken.len() {
                assert(before.taken[k].0 == cmd);
            } else {
                assert(command_on(lines[lines.len() - 1]) == Some(cmd));
            }
        }
        if command_on(line) == Some(cmd) {
            if cmd == before.last {
                assert(before.taken.len() > 0) by {
                    if before.taken.len() == 0 {
                        lemma_nothing_taken(now, rest);
                    }
                }
                assert(before.taken[before.taken.len() - 1].0 == cmd);
            } else {
                assert(after.taken[after.taken.len() - 1].0 == cmd);
            }
        }
    }
}

/// As long as nothing was taken over there is no last command.
proof fn lemma_nothing_taken(now: i64, lines: Seq<Seq<char>>)
    requires
        lines_read(no_lines_read(now), lines).taken.len() == 0,
    ensures
        lines_read(no_lines_read(now), lines).last == Seq::<char>::empty(),
    decreases lines.len(),
{
    if lines.len() > 0 {
        lemma_nothing_taken(now, lines.drop_last());
    }
}

/// A history that starts with a timestamp line is read alike at any time.
pub proof fn lemma_stamped_history_reads_alike(a: i64, b: i64, lines: Seq<Seq<char>>)
    requires
        lines.len() > 0,
        timestamp_line(lines[0]) is Some,
    ensures
        lines_read(no_lines_read(a), lines) == lines_read(no_lines_read(b), lines),
{
    let head = seq![lines[0]];
    let tail = lines.drop_first();
    assert(head + tail =~= lines);
    lemma_read_in_parts(no_lines_read(a), head, tail);
    lemma_read_in_parts(no_lines_read(b), head, tail);
    assert(head.drop_last() =~= Seq::<Seq<char>>::empty());
    assert(head.last() == lines[0]);
    assert(lines_read(no_lines_read(a), head.drop_last()) == no_lines_read(a));
    assert(lines_read(no_lines_read(b), head.drop_last()) == no_lines_read(b));
}

/// As many lines are listed as asked for, or one for each row if there are fewer.
pub proof fn lemma_listed_count(lines: Seq<String>, rows: Seq<ListedRow>, count: nat)
    requires
        lists_most_recent(lines, rows, count),
        rows.len() <= usize::MAX,
    ensures
        lines.len() == if count <= rows.len() {
            count
        } else {
            rows.len()
        },
{
    let order = choose|order: Seq<usize>|
        {
            &&& ranking::is_ranking(times_of(rows), order)
            &&& #[trigger] shows_rows(lines, rows, order, count)
        };
    ranking::lemma_all_ranked(times_of(rows), order);
}

/// A row that is later than all others is listed first.
pub proof fn lemma_latest_row_is_listed_first(
    lines: Seq<String>,
    rows: Seq<ListedRow>,
    count: nat,
    latest: int,
)
    requires
        lists_most_recent(lines, rows, count),
        rows.len() <= usize::MAX,
        count >= 1,
        0 <= latest < rows.len(),
        forall|i: int|
            0 <= i < rows.len() && i != latest ==> (#[trigger] rows[i]).ts.unwrap_or(0)
                < rows[latest].ts.unwrap_or(0),
    ensures
        lines.len() >= 1,
        shows_row(lines[0], rows[latest]),
{
    let times = times_of(rows);
    let order = choose|order: Seq<usize>|
        {
            &&& ranking::is_ranking(times, order)
            &&& #[trigger] shows_rows(lines, rows, order, count)
        };
    ranking::lemma_all_ranked(times, order);
    assert(order.contains(latest as usize));
    let k = choose|k: int| 0 <= k < order.len() && order[k] == latest as usize;
    assert(order[0] < times.len());
    if k > 0 {
        assert(ranking::ranks_before(times, order[0], order[k]));
        assert(rows[order[0] as int].ts.unwrap_or(0) < rows[latest].ts.unwrap_or(0));
    }
    assert(shows_row(lines[0], rows[order[0] as int]));
}

/// The query that a search starts with: one word is the query, no words are the empty one, and the
/// words of two lists are the query of the first, a space, and the query of the second.
pub proof fn lemma_words_of_a_query(
    first: &[String],
    second: &[String],
    all: &[String],
    first_line: String,
    second_line: String,
    line: String,
)
    requires
        call_ensures(Command::search, (first,), first_line),
        call_ensures(Command::search, (second,), second_line),
        call_ensures(Command::search, (all,), line),
        all@ == first@ + second@,
    ensures
        first@.len() == 0 ==> first_line@.len() == 0 && line@ == second_line@,
        first@.len() == 1 ==> first_line@ == first@[0]@,
        first@.len() > 0 && second@.len() > 0 ==> line@ == first_line@ + seq![' ']
            + second_line@,
{
    assert(text::texts(all@) =~= text::texts(first@) + text::texts(second@));
    text::lemma_joined_in_parts(text::texts(first@), text::texts(second@));
    if first@.len() == 0 {
        assert(text::texts(all@) =~= text::texts(second@));
    }
}

/// What is recorded is the words as a query has them, with the exit status; nothing if all words
/// are blank.
pub proof fn lemma_recorded_words(
    exit: i32,
    arguments: &[String],
    request: Option<AddRequest>,
    line: String,
)
    requires
        call_ensures(Command::add, (exit, arguments), request),
        call_ensures(Command::search, (arguments,), line),
    ensures
        request is None <==> forall|i: int, j: int|
            0 <= i < arguments@.len() && 0 <= j < arguments@[i]@.len() ==> text::white_space(
                #[trigger] arguments@[i]@[j],
            ),
        request is Some ==> request->0.cmd@ == line@ && request->0.exit == exit,
{
    let words = text::texts(arguments@);
    text::lemma_blank_words(words);
    if forall|i: int, j: int|
        0 <= i < arguments@.len() && 0 <= j < arguments@[i]@.len() ==> text::white_space(
            #[trigger] arguments@[i]@[j],
        ) {
        assert forall|i: int, j: int| 0 <= i < words.len() && 0 <= j < words[i].len()
            implies text::white_space(#[trigger] words[i][j]) by {
            assert(arguments@[i]@[j] == words[i][j]);
        }
    }
    if text::blank(text::joined(words)) {
        assert forall|i: int, j: int| 0 <= i < arguments@.len() && 0 <= j < arguments@[i]@.len()
            implies text::white_space(#[trigger] arguments@[i]@[j]) by {
            assert(words[i][j] == arguments@[i]@[j]);
        }
    }
}

/// A row holds the command, the exit status, the directory and the time that it is given, and the
/// session if there is one.
pub proof fn lemma_recorded_row(
    request: AddRequest,
    cwd: String,
    ts: i64,
    session: Option<String>,
    row: HistoryRow,
)
    requires
        call_ensures(AddRequest::into_row, (request, cwd, ts, session), row),
    ensures
        row.cmd@ == request.cmd@,
        row.exit == request.exit,
        row.cwd@ == cwd@,
        row.ts == ts,
        session is Some ==> row.session@ == session->0@,
        session is None ==> row.session@.len() == 0,
{
}

/// Where the parts of a text stand.
proof fn lemma_where_parts_stand(
    a: Seq<char>,
    b: Seq<char>,
    c: Seq<char>,
    d: Seq<char>,
    e: Seq<char>,
)
    ensures
        ({
            let s = a + b + c + d + e;
            let to_b = (a.len() + b.len()) as int;
            let to_c = (a.len() + b.len() + c.len()) as int;
            let to_d = (a.len() + b.len() + c.len() + d.len()) as int;
            &&& s.len() == to_d + e.len()
            &&& s.take(a.len() as int) == a
            &&& s.subrange(a.len() as int, to_b) == b
            &&& s.subrange(to_b, to_c) == c
            &&& s.subrange(to_c, to_d) == d
            &&& s.skip(to_d) == e
        }),
{
    let s = a + b + c + d + e;
    let to_b = (a.len() + b.len()) as int;
    let to_c = (a.len() + b.len() + c.len()) as int;
    let to_d = (a.len() + b.len() + c.len() + d.len()) as int;
    assert(s.take(a.len() as int) =~= a);
    assert(s.subrange(a.len() as int, to_b) =~= b);
    assert(s.subrange(to_b, to_c) =~= c);
    assert(s.subrange(to_c, to_d) =~= d);
    assert(s.skip(to_d) =~= e);
}

/// Where the parts of a line stand that starts with a text filled up to sixteen columns.
proof fn lemma_where_columns_stand(shown: Seq<char>, status: Seq<char>, cmd: Seq<char>)
    ensures
        ({
            let line = text::padded(shown, 16, ' ') + seq![' ', ' ', '('] + status + seq![
                ')',
                ' ',
                ' ',
            ] + cmd;
            let width: int = if shown.len() < 16 {
                16
            } else {
                shown.len() as int
            };
            let from = width + 3;
            let to = line.len() - cmd.len() - 3;
            &&& from <= to
            &&& forall|i: int| 0 <= i < width - shown.len() ==> #[trigger] line[i] == ' '
            &&& line.subrange(width - shown.len(), width) == shown
            &&& line.subrange(width, from) == seq![' ', ' ', '(']
            &&& line.subrange(from, to) == status
            &&& line.subrange(to, to + 3) == seq![')', ' ', ' ']
            &&& line.skip(to + 3) == cmd
        }),
{
    let filled = text::padded(shown, 16, ' ');
    let open = seq![' ', ' ', '('];
    let close = seq![')', ' ', ' '];
    let line = filled + open + status + close + cmd;
    text::lemma_padded(shown, 16, ' ');
    lemma_where_parts_stand(filled, open, status, close, cmd);
    let width = filled.len() as int;
    assert forall|i: int| 0 <= i < width - shown.len() implies #[trigger] line[i] == ' ' by {
        assert(line.take(width)[i] == filled[i]);
    }
    assert(line.subrange(width - shown.len(), width) =~= line.take(width).skip(
        width - shown.len(),
    ));
}

/// What a line that shows a row is made of, given the time as it is formatted.
proof fn lemma_parts_of_a_line(row: ListedRow, line: String, formatted: Seq<char>)
    requires
        shows_row(line, row),
        time::shows_utc(formatted, row.ts.unwrap_or(0)),
    ensures
        line@ == text::padded(formatted, 16, ' ') + "  ("@ + number::signed_decimal(
            row.exit.unwrap_or(0) as int,
        ) + ")  "@ + row.cmd@,
{
    let ts = row.ts.unwrap_or(0);
    let exit = row.exit.unwrap_or(0);
    let shown = choose|shown: Seq<char>|
        {
            &&& #[trigger] time::shows_utc(shown, ts)
            &&& line@ == text::padded(shown, 16, ' ') + "  ("@ + number::signed_decimal(exit as int)
                + ")  "@ + row.cmd@
        };
    if ts >= 0 {
        time::lemma_utc_text_tells_the_minute(ts, shown, ts, formatted);
    }
}

/// The line for a row shows it.
pub proof fn lemma_line_of_a_row(row: &ListedRow, line: String)
    requires
        call_ensures(list_line, (row,), line),
    ensures
        shows_row(line, *row),
{
}

/// A line that shows a row has the time as it is formatted, filled up with spaces to sixteen
/// columns; the exit status in brackets, which reads back as the status; and the command. A time or
/// a status that is missing is shown as 0.
pub proof fn lemma_shown_row(row: ListedRow, line: String, ts: i64, exit: i32, formatted: String)
    requires
        shows_row(line, row),
        row.ts is Some ==> row.ts->0 == ts,
        row.ts is None ==> ts == 0,
        row.exit is Some ==> row.exit->0 == exit,
        row.exit is None ==> exit == 0,
        call_ensures(Time::format_utc, (ts,), formatted),
    ensures
        ({
            let width: int = if formatted@.len() < 16 {
                16
            } else {
                formatted@.len() as int
            };
            let from = width + 3;
            let to = line@.len() - row.cmd@.len() - 3;
            &&& from <= to
            &&& forall|i: int| 0 <= i < width - formatted@.len() ==> #[trigger] line@[i] == ' '
            &&& line@.subrange(width - formatted@.len(), width) == formatted@
            &&& line@.subrange(width, from) == seq![' ', ' ', '(']
            &&& number::as_i64(line@.subrange(from, to)) == Some(exit as i64)
            &&& line@.subrange(from, to) == number::signed_decimal(exit as int)
            &&& line@.subrange(to, to + 3) == seq![')', ' ', ' ']
            &&& line@.skip(to + 3) == row.cmd@
        }),
{
    lemma_parts_of_a_line(row, line, formatted@);
    reveal_strlit("  (");
    reveal_strlit(")  ");
    assert("  ("@ =~= seq![' ', ' ', '(']);
    assert(")  "@ =~= seq![')', ' ', ' ']);
    number::lemma_signed_decimal_reads_back(exit as i64);
    lemma_where_columns_stand(formatted@, number::signed_decimal(exit as int), row.cmd@);
}

/// Rows that differ in nothing but their exit status have different lines.
pub proof fn lemma_lines_tell_the_status(
    a: ListedRow,
    b: ListedRow,
    a_line: String,
    b_line: String,
)
    requires
        shows_row(a_line, a),
        shows_row(b_line, b),
        a.ts == b.ts,
        a.cmd@ == b.cmd@,
        a_line@ == b_line@,
    ensures
        a.exit.unwrap_or(0) == b.exit.unwrap_or(0),
{
    let ts = a.ts.unwrap_or(0);
    let shown = choose|shown: Seq<char>| #[trigger] time::shows_utc(shown, ts);
    lemma_parts_of_a_line(a, a_line, shown);
    lemma_parts_of_a_line(b, b_line, shown);
    let filled = text::padded(shown, 16, ' ');
    let a_status = number::signed_decimal(a.exit.unwrap_or(0) as int);
    let b_status = number::signed_decimal(b.exit.unwrap_or(0) as int);
    lemma_where_parts_stand(filled, "  ("@, a_status, ")  "@, a.cmd@);
    lemma_where_parts_stand(filled, "  ("@, b_status, ")  "@, b.cmd@);
    assert(a_status == b_status);
    number::lemma_notations_differ(a.exit.unwrap_or(0) as i64, b.exit.unwrap_or(0) as i64);
}

/// The rows put in order, the later time first and of equal times the row that comes first; a row
/// without a time has the time 0.
pub open spec fn by_recency(rows: Seq<ListedRow>, order: Seq<usize>) -> bool {
    &&& order.len() == rows.len()
    &&& order.no_duplicates()
    &&& forall|k: int| 0 <= k < order.len() ==> (#[trigger] order[k]) < rows.len()
    &&& forall|j: int, k: int|
        0 <= j < k < order.len() ==> {
            let a = rows[#[trigger] order[j] as int].ts.unwrap_or(0);
            let b = rows[#[trigger] order[k] as int].ts.unwrap_or(0);
            a > b || a == b && order[j] < order[k]
        }
}

/// As many lines are listed as asked for, or one for each row if there are fewer; they show the
/// rows in their order of recency.
pub proof fn lemma_listed_by_recency(rows: &Vec<ListedRow>, count: u32, lines: Vec<String>)
    requires
        call_ensures(Command::list, (rows, count), lines),
    ensures
        lines@.len() <= count,
        lines@.len() == count || lines@.len() == rows@.len(),
        exists|order: Seq<usize>|
            {
                &&& #[trigger] by_recency(rows@, order)
                &&& lines@.len() <= order.len()
                &&& forall|k: int|
                    0 <= k < lines@.len() ==> shows_row(
                        #[trigger] lines@[k],
                        rows@[order[k] as int],
                    )
            },
{
    let times = times_of(rows@);
    let order = choose|order: Seq<usize>|
        {
            &&& ranking::is_ranking(times, order)
            &&& #[trigger] shows_rows(lines@, rows@, order, count as nat)
        };
    assert(rows@.len() == rows.len());
    ranking::lemma_all_ranked(times, order);
    ranking::lemma_ranking_has_no_duplicates(times, order);
    assert forall|j: int, k: int| 0 <= j < k < order.len() implies {
        let a = rows@[#[trigger] order[j] as int].ts.unwrap_or(0);
        let b = rows@[#[trigger] order[k] as int].ts.unwrap_or(0);
        a > b || a == b && order[j] < order[k]
    } by {
        assert(ranking::ranks_before(times, order[j], order[k]));
    }
    assert(by_recency(rows@, order));
}

/// A number sign and a number make a timestamp line for that number, and nothing else does.
pub proof fn lemma_timestamp_lines(line: Seq<char>, n: i64)
    ensures
        timestamp_line(seq!['#'] + number::signed_decimal(n as int)) == Some(n),
        timestamp_line(line) == Some(n) <==> line.len() > 0 && line[0] == '#' && number::as_i64(
            line.skip(1),
        ) == Some(n),
{
    let stamp = seq!['#'] + number::signed_decimal(n as int);
    number::lemma_signed_decimal_reads_back(n);
    assert(stamp.skip(1) =~= number::signed_decimal(n as int));
}

/// The time for the next command is that of the last timestamp line, or, where there is none, the
/// time of the reading.
pub proof fn lemma_time_in_effect(now: i64, head: Seq<Seq<char>>, n: i64, tail: Seq<Seq<char>>)
    requires
        forall|i: int| 0 <= i < tail.len() ==> timestamp_line(#[trigger] tail[i]) is None,
    ensures
        lines_read(no_lines_read(now), tail).timestamp == now,
        lines_read(
            no_lines_read(now),
            head.push(seq!['#'] + number::signed_decimal(n as int)) + tail,
        ).timestamp == n,
{
    let stamp = seq!['#'] + number::signed_decimal(n as int);
    let start = no_lines_read(now);
    lemma_timestamp_lines(stamp, n);
    lemma_same_timestamp(start, tail);
    assert(head.push(stamp).drop_last() =~= head);
    lemma_read_in_parts(start, head.push(stamp), tail);
    lemma_same_timestamp(lines_read(start, head.push(stamp)), tail);
}

/// Two imports have rows for the same commands, times, directories, statuses and sessions, as far
/// as the first one goes.
pub open spec fn starts_alike(import: Import, longer: Import) -> bool {
    &&& import.rows@.len() <= longer.rows@.len()
    &&& forall|k: int|
        0 <= k < import.rows@.len() ==> {
            let a = #[trigger] import.rows@[k];
            let b = longer.rows@[k];
            &&& a.cmd@ == b.cmd@
            &&& a.ts == b.ts
            &&& a.cwd@ == b.cwd@
            &&& a.exit == b.exit
            &&& a.session@ == b.session@
        }
}

/// A history with one line more: a number sign and a number add no row, nor does a blank line or
/// one that repeats the last command. Any other line adds its command, without the spaces and tabs
/// at its end, at the time in effect, with no directory, status or session.
pub proof fn lemma_import_of_one_line_more(
    lines: &[String],
    longer: &[String],
    now: i64,
    import: Import,
    next: Import,
    cmd: Seq<char>,
    blanks: Seq<char>,
)
    requires
        call_ensures(Command::import, (lines, now), import),
        call_ensures(Command::import, (longer, now), next),
        longer@.len() == lines@.len() + 1,
        longer@.drop_last() == lines@,
        longer@.last()@ == cmd + blanks,
        cmd.len() > 0 ==> cmd[cmd.len() - 1] != ' ' && cmd[cmd.len() - 1] != '\t',
        forall|i: int| 0 <= i < blanks.len() ==> #[trigger] blanks[i] == ' ' || blanks[i] == '\t',
    ensures
        starts_alike(import, next),
        import.count as int == if import.rows@.len() <= u32::MAX {
            import.rows@.len() as int
        } else {
            u32::MAX as int
        },
        ({
            let line = cmd + blanks;
            let n = import.rows@.len();
            let stamp = line.len() > 0 && line[0] == '#' && number::as_i64(line.skip(1)) is Some;
            let empty = forall|i: int| 0 <= i < cmd.len() ==> text::white_space(#[trigger] cmd[i]);
            let repeats = n > 0 && import.rows@[n - 1].cmd@ == cmd;
            &&& stamp || empty || repeats ==> next.rows@.len() == n
            &&& !stamp && !empty && !repeats ==> {
                let row = next.rows@[n as int];
                &&& next.rows@.len() == n + 1
                &&& row.cmd@ == cmd
                &&& row.ts == lines_read(no_lines_read(now), text::texts(lines@)).timestamp
                &&& row.cwd@.len() == 0
                &&& row.exit == 0
                &&& row.session@.len() == 0
            }
        }),
{
    let line = cmd + blanks;
    let all = text::texts(lines@);
    let start = no_lines_read(now);
    let before = lines_read(start, all);
    let after = lines_read(start, text::texts(longer@));
    assert(text::texts(longer@).drop_last() =~= all);
    assert(text::texts(longer@).last() == line);
    assert(after == line_read(before, line));
    text::lemma_text_before_trailing_blanks(cmd, blanks);
    lemma_taken(now, all);
    if before.taken.len() == 0 {
        lemma_nothing_taken(now, all);
    }
    let n = import.rows@.len();
    if n > 0 {
        assert(is_imported_row(import.rows@[n - 1], before.taken[n - 1]));
    }
    assert(text::blank(cmd) <==> forall|i: int|
        0 <= i < cmd.len() ==> text::white_space(#[trigger] cmd[i]));
    if cmd == before.last && !text::blank(cmd) {
        assert(n > 0);
    }
    assert forall|k: int| 0 <= k < n implies {
        let a = #[trigger] import.rows@[k];
        let b = next.rows@[k];
        &&& a.cmd@ == b.cmd@
        &&& a.ts == b.ts
        &&& a.cwd@ == b.cwd@
        &&& a.exit == b.exit
        &&& a.session@ == b.session@
    } by {
        assert(is_imported_row(import.rows@[k], before.taken[k]));
        assert(is_imported_row(next.rows@[k], after.taken[k]));
        assert(after.taken[k] == before.taken[k]);
    }
    if after.taken.len() > n {
        assert(is_imported_row(next.rows@[n as int], after.taken[n as int]));
    }
}

/// A history without lines has no commands.
pub proof fn lemma_import_of_nothing(lines: &[String], now: i64, import: Import)
    requires
        call_ensures(Command::import, (lines, now), import),
        lines@.len() == 0,
    ensures
        import.rows@.len() == 0,
        import.count == 0,
{
}

/// The report tells how many commands were imported, and the file.
pub proof fn lemma_report(import: &Import, file: &str, s: String)
    requires
        call_ensures(Import::summary, (import, file), s),
    ensures
        s@ == "Imported "@ + number::decimal(import.count as nat) + " commands from '"@ + file@
            + seq!['\''],
{
    reveal_strlit("'");
    assert("'"@ =~= seq!['\'']);
}

} // verus!
