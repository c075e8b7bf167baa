//! What the recorded history becomes.
//!
//! The database carries out the statements that `database` holds; here stands what they ask for,
//! and what follows for the history as a whole.

use vstd::prelude::*;

use crate::command;
use crate::command::{HistoryRow, ListedRow};

verus! {

/// What the history knows of a command.
pub struct Entry {
    /// Directory the command ran in
    pub cwd: Seq<char>,
    /// Exit status of the command
    pub exit: i32,
    /// Unix timestamp of last use
    pub ts: i64,
    /// Shell session the command ran in
    pub session: Seq<char>,
}

/// The history: at most one entry for a command.
pub type History = Map<Seq<char>, Entry>;

/// What a row says of its command.
pub open spec fn entry_of(row: HistoryRow) -> Entry {
    Entry { cwd: row.cwd@, exit: row.exit, ts: row.ts, session: row.session@ }
}

/// What `ADD_ROW` asks for: the row replaces what was known of its command.
pub open spec fn added(history: History, row: HistoryRow) -> History {
    history.insert(row.cmd@, entry_of(row))
}

/// What `IMPORT_ROW` asks for: a command that is not known yet comes without directory, status and
/// session; of one that is known only the time changes, to the later one.
pub open spec fn imported(history: History, cmd: Seq<char>, ts: i64) -> History {
    if history.contains_key(cmd) {
        let known = history[cmd];
        history.insert(
            cmd,
            Entry {
                ts: if known.ts < ts {
                    ts
                } else {
                    known.ts
                },
                ..known
            },
        )
    } else {
        history.insert(
            cmd,
            Entry { cwd: Seq::empty(), exit: 0, ts, session: Seq::empty() },
        )
    }
}

/// The commands imported one after the other.
pub open spec fn all_imported(history: History, taken: Seq<(Seq<char>, i64)>) -> History
    decreases taken.len(),
{
    if taken.len() == 0 {
        history
    } else {
        let last = taken.last();
        imported(all_imported(history, taken.drop_last()), last.0, last.1)
    }
}

/// The history once the lines of a shell history were imported at the time `now`.
pub open spec fn after_import(history: History, lines: Seq<Seq<char>>, now: i64) -> History {
    all_imported(history, command::lines_read(command::no_lines_read(now), lines).taken)
}

/// A re-run of a command leaves one entry, that of the re-run, and the other commands as they are.
pub proof fn lemma_rerun_replaces(history: History, first: HistoryRow, rerun: HistoryRow)
    requires
        first.cmd@ == rerun.cmd@,
    ensures
        added(added(history, first), rerun) == added(history, rerun),
        added(history, rerun)[rerun.cmd@] == entry_of(rerun),
        forall|cmd: Seq<char>|
            cmd != rerun.cmd@ ==> #[trigger] added(history, rerun).contains_key(cmd)
                == history.contains_key(cmd) && added(history, rerun)[cmd] == history[cmd],
{
    assert(added(added(history, first), rerun) =~= added(history, rerun));
}

/// The rows are entries of the history, no two of the same command.
pub open spec fn are_entries(rows: Seq<ListedRow>, history: History) -> bool {
    &&& forall|i: int|
        0 <= i < rows.len() ==> {
            let cmd = (#[trigger] rows[i]).cmd@;
            &&& history.contains_key(cmd)
            &&& rows[i].ts == Some(history[cmd].ts)
            &&& rows[i].exit == Some(history[cmd].exit)
        }
    &&& forall|i: int, j: int|
        0 <= i < j < rows.len() ==> (#[trigger] rows[i]).cmd@ != (#[trigger] rows[j]).cmd@
}

/// A command that is recorded at a later time than all others is listed first, whether it ran
/// before or not.
pub proof fn lemma_recorded_command_is_listed_first(
    history: History,
    recorded: HistoryRow,
    rows: Seq<ListedRow>,
    lines: Seq<String>,
    count: nat,
)
    requires
        forall|cmd: Seq<char>|
            cmd != recorded.cmd@ && #[trigger] history.contains_key(cmd) ==> history[cmd].ts
                < recorded.ts,
        are_entries(rows, added(history, recorded)),
        exists|i: int| 0 <= i < rows.len() && (#[trigger] rows[i]).cmd@ == recorded.cmd@,
        rows.len() <= usize::MAX,
        command::lists_most_recent(lines, rows, count),
        count >= 1,
    ensures
        lines.len() >= 1,
        command::is_list_line(lines[0]@, recorded.ts, recorded.exit, recorded.cmd@),
{
    let latest = choose|i: int|
        0 <= i < rows.len() && (#[trigger] rows[i]).cmd@ == recorded.cmd@;
    assert forall|i: int| 0 <= i < rows.len() && i != latest implies (
    #[trigger] rows[i]).ts.unwrap_or(0) < rows[latest].ts.unwrap_or(0) by {
        assert(rows[i].cmd@ != rows[latest].cmd@);
        assert(history.contains_key(rows[i].cmd@));
    }
    command::lemma_latest_row_is_listed_first(lines, rows, count, latest);
}

/// The rows of an import ask for what `imported` says of the commands that were taken over.
pub proof fn lemma_imported_row(history: History, row: HistoryRow, taken: (Seq<char>, i64))
    requires
        command::is_imported_row(row, taken),
        !history.contains_key(taken.0),
    ensures
        imported(history, taken.0, taken.1) == added(history, row),
{
    assert(entry_of(row).cwd =~= Seq::<char>::empty());
    assert(entry_of(row).session =~= Seq::<char>::empty());
}

/// What imports do to one command: an entry stays but for its time, which never goes back and
/// reaches each time imported for it; a new entry has no directory, status or session.
proof fn lemma_one_command(history: History, taken: Seq<(Seq<char>, i64)>, cmd: Seq<char>)
    ensures
        ({
            let after = all_imported(history, taken);
            &&& after.contains_key(cmd) <==> history.contains_key(cmd) || command::is_taken(
                taken,
                cmd,
            )
            &&& history.contains_key(cmd) ==> {
                &&& after[cmd].cwd == history[cmd].cwd
                &&& after[cmd].exit == history[cmd].exit
                &&& after[cmd].session == history[cmd].session
                &&& after[cmd].ts >= history[cmd].ts
                &&& !command::is_taken(taken, cmd) ==> after[cmd] == history[cmd]
            }
            &&& after.contains_key(cmd) && !history.contains_key(cmd) ==> {
                &&& after[cmd].cwd == Seq::<char>::empty()
                &&& after[cmd].exit == 0
                &&& after[cmd].session == Seq::<char>::empty()
            }
            &&& forall|k: int|
                0 <= k < taken.len() && (#[trigger] taken[k]).0 == cmd ==> after[cmd].ts
                    >= taken[k].1
        }),
    decreases taken.len(),
{
    if taken.len() > 0 {
        let rest = taken.drop_last();
        lemma_one_command(history, rest, cmd);
        let last = taken.len() - 1;
        if command::is_taken(rest, cmd) {
            let k = choose|k: int| 0 <= k < rest.len() && (#[trigger] rest[k]).0 == cmd;
            assert(taken[k].0 == cmd);
        }
        if command::is_taken(taken, cmd) {
            let k = choose|k: int| 0 <= k < taken.len() && (#[trigger] taken[k]).0 == cmd;
            if k < last {
                assert(rest[k].0 == cmd);
            }
        }
        if taken[last].0 == cmd {
            assert(command::is_taken(taken, cmd));
        }
        let before = all_imported(history, rest);
        let after = all_imported(history, taken);
        assert forall|k: int| 0 <= k < taken.len() && (#[trigger] taken[k]).0 == cmd implies after[
        cmd].ts >= taken[k].1 by {
            if k < last {
                assert(rest[k] == taken[k]);
                assert(before[cmd].ts >= rest[k].1);
            }
        }
    }
}

/// An import keeps each entry but for its time, which never goes back; it adds the commands of the
/// lines that were not known, without directory, status and session, and no others.
pub proof fn lemma_import(history: History, lines: Seq<Seq<char>>, now: i64, cmd: Seq<char>)
    ensures
        ({
            let after = after_import(history, lines, now);
            &&& after.contains_key(cmd) <==> history.contains_key(cmd) || command::on_some_line(
                lines,
                cmd,
            )
            &&& history.contains_key(cmd) ==> {
                &&& after[cmd].cwd == history[cmd].cwd
                &&& after[cmd].exit == history[cmd].exit
                &&& after[cmd].session == history[cmd].session
                &&& after[cmd].ts >= history[cmd].ts
                &&& !command::on_some_line(lines, cmd) ==> after[cmd] == history[cmd]
            }
            &&& after.contains_key(cmd) && !history.contains_key(cmd) ==> {
                &&& after[cmd].cwd == Seq::<char>::empty()
                &&& after[cmd].exit == 0
                &&& after[cmd].session == Seq::<char>::empty()
            }
        }),
{
    command::lemma_all_commands_are_taken(now, lines, cmd);
    lemma_one_command(
        history,
        command::lines_read(command::no_lines_read(now), lines).taken,
        cmd,
    );
}

/// Importing commands that the history knows already, at times that are not later, changes nothing.
proof fn lemma_nothing_new(history: History, taken: Seq<(Seq<char>, i64)>)
    requires
        forall|k: int|
            0 <= k < taken.len() ==> history.contains_key((#[trigger] taken[k]).0)
                && history[taken[k].0].ts >= taken[k].1,
    ensures
        all_imported(history, taken) == history,
    decreases taken.len(),
{
    if taken.len() > 0 {
        let rest = taken.drop_last();
        let last = taken[taken.len() - 1];
        assert forall|k: int| 0 <= k < rest.len() implies history.contains_key(
            (#[trigger] rest[k]).0,
        ) && history[rest[k].0].ts >= rest[k].1 by {
            assert(rest[k] == taken[k]);
        }
        lemma_nothing_new(history, rest);
        assert(imported(history, last.0, last.1) =~= history);
    }
}

/// Importing a history again that starts with a timestamp line changes nothing.
pub proof fn lemma_second_import_changes_nothing(
    history: History,
    lines: Seq<Seq<char>>,
    first: i64,
    second: i64,
)
    requires
        lines.len() > 0,
        command::timestamp_line(lines[0]) is Some,
    ensures
        after_import(after_import(history, lines, first), lines, second) == after_import(
            history,
            lines,
            first,
        ),
{
    command::lemma_stamped_history_reads_alike(first, second, lines);
    let taken = command::lines_read(command::no_lines_read(first), lines).taken;
    let after = all_imported(history, taken);
    assert forall|k: int| 0 <= k < taken.len() implies after.contains_key(
        (#[trigger] taken[k]).0,
    ) && after[taken[k].0].ts >= taken[k].1 by {
        lemma_one_command(history, taken, taken[k].0);
        assert(command::is_taken(taken, taken[k].0));
    }
    lemma_nothing_new(after, taken);
}

/// The time that a command has after imports is one that it had before, or one that was imported
/// for it.
proof fn lemma_one_time(history: History, taken: Seq<(Seq<char>, i64)>, cmd: Seq<char>)
    requires
        all_imported(history, taken).contains_key(cmd),
    ensures
        ({
            let ts = all_imported(history, taken)[cmd].ts;
            ||| history.contains_key(cmd) && history[cmd].ts == ts
            ||| exists|k: int|
                0 <= k < taken.len() && (#[trigger] taken[k]).0 == cmd && taken[k].1 == ts
        }),
    decreases taken.len(),
{
    if taken.len() > 0 {
        let rest = taken.drop_last();
        let before = all_imported(history, rest);
        let last = taken[taken.len() - 1];
        let ts = all_imported(history, taken)[cmd].ts;
        if before.contains_key(cmd) && before[cmd].ts == ts {
            lemma_one_time(history, rest, cmd);
            if !(history.contains_key(cmd) && history[cmd].ts == ts) {
                let k = choose|k: int|
                    0 <= k < rest.len() && (#[trigger] rest[k]).0 == cmd && rest[k].1 == ts;
                assert(taken[k].0 == cmd && taken[k].1 == ts);
            }
        } else {
            assert(last.0 == cmd && last.1 == ts);
        }
    }
}

/// After an import a command has the latest of the time that it had before and the times that were
/// imported for it.
pub proof fn lemma_import_keeps_the_latest_time(
    history: History,
    lines: Seq<Seq<char>>,
    now: i64,
    cmd: Seq<char>,
)
    requires
        after_import(history, lines, now).contains_key(cmd),
    ensures
        ({
            let taken = command::lines_read(command::no_lines_read(now), lines).taken;
            let ts = after_import(history, lines, now)[cmd].ts;
            &&& history.contains_key(cmd) ==> ts >= history[cmd].ts
            &&& forall|k: int|
                0 <= k < taken.len() && (#[trigger] taken[k]).0 == cmd ==> ts >= taken[k].1
            &&& {
                ||| history.contains_key(cmd) && history[cmd].ts == ts
                ||| exists|k: int|
                    0 <= k < taken.len() && (#[trigger] taken[k]).0 == cmd && taken[k].1 == ts
            }
        }),
{
    let taken = command::lines_read(command::no_lines_read(now), lines).taken;
    lemma_one_command(history, taken, cmd);
    lemma_one_time(history, taken, cmd);
}

} // verus!
