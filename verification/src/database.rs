//! Where the history lies.

use vstd::prelude::*;

use crate::error::Error;

verus! {

/// Creates the history table and its index, where they are missing
pub const SCHEMA: &'static str = "pragma journal_mode=WAL;
            create table if not exists history (
            id      integer primary key autoincrement,
            cmd     text not null unique,
            cwd     text,
            exit    integer,
            ts      integer,
            session text
            );
            create index if not exists history_ts_cmd on history(ts desc, cmd);";

/// Records a row; a re-run of the same command replaces what is known of it
pub const ADD_ROW: &'static str =
    "insert into history(cmd, cwd, exit, ts, session) values(?1, ?2, ?3, ?4, ?5)
on conflict(cmd) do update set
cwd     = excluded.cwd,
exit    = excluded.exit,
ts      = excluded.ts,
session = excluded.session";

/// Imports a row; of a command that is known already only the timestamp changes, to the later one
pub const IMPORT_ROW: &'static str =
    "insert into history(cmd, cwd, exit, ts, session) values(?1, ?2, ?3, ?4, ?5) on conflict(cmd) do update set ts = max(ts, excluded.ts)";

/// The rows that were used last, at most as many as asked for; of rows used at the same time those
/// that were added last. A row without a time counts as used at the time 0
pub const LATEST_ROWS: &'static str =
    "select ts, exit, cmd from history order by coalesce(ts, 0) desc, id desc limit ?1";

/// The rows to search, those used last first
pub const SEARCH_ROWS: &'static str = "select cmd, ts from history
            order by ts desc
            limit 10000";

/// A path: a base, and the parts to join to it one after the other
#[derive(Debug)]
pub struct PathPlan<P> {
    /// The base
    pub base: P,
    /// The parts below the base
    pub parts: Vec<&'static str>,
}

impl<P> PathPlan<P> {
    /// The texts of the parts.
    pub open spec fn parts_text(&self) -> Seq<Seq<char>> {
        self.parts@.map_values(|part: &'static str| part@)
    }
}

/// Where the database lies: the file that is named; else below the data directory; else below the
/// home directory.
pub open spec fn database_location<P>(
    db_file: Option<P>,
    xdg_data_home: Option<P>,
    home: Option<P>,
) -> Option<(P, Seq<Seq<char>>)> {
    match (db_file, xdg_data_home, home) {
        (Some(file), _, _) => Some((file, Seq::empty())),
        (None, Some(xdg), _) => Some((xdg, seq!["stinkpot"@, "history.sqlite"@])),
        (None, None, Some(h)) => Some(
            (h, seq![".local"@, "share"@, "stinkpot"@, "history.sqlite"@]),
        ),
        (None, None, None) => None,
    }
}

/// Where the shell history lies: the file that was asked for; else the one that the shell names;
/// else bash's own below the home directory.
pub open spec fn history_location<P>(
    asked_for: Option<P>,
    histfile: Option<P>,
    home: Option<P>,
) -> Option<(P, Seq<Seq<char>>)> {
    match (asked_for, histfile, home) {
        (Some(file), _, _) => Some((file, Seq::empty())),
        (None, Some(file), _) => Some((file, Seq::empty())),
        (None, None, Some(h)) => Some((h, seq![".bash_history"@])),
        (None, None, None) => None,
    }
}

/// The path is the location, or the location is missing for want of a home directory.
pub open spec fn resolves<P>(
    path: Result<PathPlan<P>, Error>,
    location: Option<(P, Seq<Seq<char>>)>,
) -> bool {
    match path {
        Ok(plan) => location == Some((plan.base, plan.parts_text())),
        Err(Error::MissingEnv(name)) => location is None && name@ == "HOME"@,
    }
}

/// History database helpers
pub struct Database;

impl Database {
    /// Resolves the default history database path from the values of the environment variables
    /// `STINKPOT_DB_FILE`, `XDG_DATA_HOME` and `HOME`
    pub fn path<P>(
        db_file: Option<P>,
        xdg_data_home: Option<P>,
        home: Option<P>,
    ) -> (path: Result<PathPlan<P>, Error>)
        ensures
            resolves(path, database_location(db_file, xdg_data_home, home)),
    {
        match (db_file, xdg_data_home, home) {
            (Some(file), _, _) => {
                let plan = PathPlan { base: file, parts: Vec::new() };
                assert(plan.parts_text() =~= Seq::<Seq<char>>::empty());
                Ok(plan)
            },
            (None, Some(xdg), _) => {
                let plan = PathPlan { base: xdg, parts: vec!["stinkpot", "history.sqlite"] };
                assert(plan.parts_text() =~= seq!["stinkpot"@, "history.sqlite"@]);
                Ok(plan)
            },
            (None, None, Some(h)) => {
                let plan = PathPlan {
                    base: h,
                    parts: vec![".local", "share", "stinkpot", "history.sqlite"],
                };
                assert(plan.parts_text() =~= seq![
                    ".local"@,
                    "share"@,
                    "stinkpot"@,
                    "history.sqlite"@,
                ]);
                Ok(plan)
            },
            (None, None, None) => Err(Error::MissingEnv("HOME")),
        }
    }
}

/// Resolves the shell history file to import: the one that was asked for, or what the environment
/// variables `HISTFILE` and `HOME` say
pub fn history_file<P>(
    asked_for: Option<P>,
    histfile: Option<P>,
    home: Option<P>,
) -> (path: Result<PathPlan<P>, Error>)
    ensures
        resolves(path, history_location(asked_for, histfile, home)),
{
    match (asked_for, histfile, home) {
        (Some(file), _, _) | (None, Some(file), _) => {
            let plan = PathPlan { base: file, parts: Vec::new() };
            assert(plan.parts_text() =~= Seq::<Seq<char>>::empty());
            Ok(plan)
        },
        (None, None, Some(h)) => {
            let plan = PathPlan { base: h, parts: vec![".bash_history"] };
            assert(plan.parts_text() =~= seq![".bash_history"@]);
            Ok(plan)
        },
        (None, None, None) => Err(Error::MissingEnv("HOME")),
    }
}

/// The database is the file that is named; else `stinkpot/history.sqlite` below the data directory;
/// else the same below `.local/share` in the home directory; without any of them `HOME` is missing.
pub proof fn lemma_database_path<P>(
    db_file: Option<P>,
    xdg_data_home: Option<P>,
    home: Option<P>,
    path: Result<PathPlan<P>, Error>,
)
    requires
        call_ensures(Database::path::<P>, (db_file, xdg_data_home, home), path),
    ensures
        match path {
            Ok(plan) => {
                let parts = plan.parts@;
                let n = parts.len();
                &&& db_file is Some ==> plan.base == db_file->0 && n == 0
                &&& db_file is None && xdg_data_home is Some ==> plan.base == xdg_data_home->0 && n
                    == 2
                &&& db_file is None && xdg_data_home is None ==> home is Some && plan.base
                    == home->0 && n == 4 && parts[0]@ == ".local"@ && parts[1]@ == "share"@
                &&& db_file is None ==> parts[n - 2]@ == "stinkpot"@ && parts[n - 1]@
                    == "history.sqlite"@
            },
            Err(Error::MissingEnv(name)) => {
                &&& db_file is None
                &&& xdg_data_home is None
                &&& home is None
                &&& name@ == "HOME"@
            },
        },
{
    if let Ok(plan) = path {
        let texts = plan.parts_text();
        assert(texts.len() == plan.parts@.len());
        assert forall|i: int| 0 <= i < plan.parts@.len() implies #[trigger] plan.parts@[i]@
            == texts[i] by {}
    }
}

/// The shell history is the file that was asked for; else the one that the shell names; else
/// `.bash_history` in the home directory; without any of them `HOME` is missing.
pub proof fn lemma_history_file<P>(
    asked_for: Option<P>,
    histfile: Option<P>,
    home: Option<P>,
    path: Result<PathPlan<P>, Error>,
)
    requires
        call_ensures(history_file::<P>, (asked_for, histfile, home), path),
    ensures
        match path {
            Ok(plan) => {
                &&& asked_for is Some ==> plan.base == asked_for->0 && plan.parts@.len() == 0
                &&& asked_for is None && histfile is Some ==> plan.base == histfile->0
                    && plan.parts@.len() == 0
                &&& asked_for is None && histfile is None ==> home is Some && plan.base == home->0
                    && plan.parts@.len() == 1 && plan.parts@[0]@ == ".bash_history"@
            },
            Err(Error::MissingEnv(name)) => {
                &&& asked_for is None
                &&& histfile is None
                &&& home is None
                &&& name@ == "HOME"@
            },
        },
{
    if let Ok(plan) = path {
        let texts = plan.parts_text();
        assert(texts.len() == plan.parts@.len());
        assert forall|i: int| 0 <= i < plan.parts@.len() implies #[trigger] plan.parts@[i]@
            == texts[i] by {}
    }
}

/// Recording inserts a row of five values; where the command is known it replaces the directory,
/// the status, the time and the session.
pub proof fn lemma_recording_statement()
    ensures
        ADD_ROW@ == "insert into history(cmd, cwd, exit, ts, session) values(?1, ?2, ?3, ?4, ?5)\n"@
            + "on conflict(cmd) do update set\n"@
            + "cwd     = excluded.cwd,\n"@
            + "exit    = excluded.exit,\n"@
            + "ts      = excluded.ts,\n"@
            + "session = excluded.session"@,
{
    reveal_strlit("insert into history(cmd, cwd, exit, ts, session) values(?1, ?2, ?3, ?4, ?5)\non conflict(cmd) do update set\ncwd     = excluded.cwd,\nexit    = excluded.exit,\nts      = excluded.ts,\nsession = excluded.session");
    reveal_strlit("insert into history(cmd, cwd, exit, ts, session) values(?1, ?2, ?3, ?4, ?5)\n");
    reveal_strlit("on conflict(cmd) do update set\n");
    reveal_strlit("cwd     = excluded.cwd,\n");
    reveal_strlit("exit    = excluded.exit,\n");
    reveal_strlit("ts      = excluded.ts,\n");
    reveal_strlit("session = excluded.session");
    assert(ADD_ROW@ =~= "insert into history(cmd, cwd, exit, ts, session) values(?1, ?2, ?3, ?4, ?5)\n"@
        + "on conflict(cmd) do update set\n"@
        + "cwd     = excluded.cwd,\n"@
        + "exit    = excluded.exit,\n"@
        + "ts      = excluded.ts,\n"@
        + "session = excluded.session"@);
}

/// Importing inserts a row of five values; where the command is known it keeps the later time and
/// changes nothing else.
pub proof fn lemma_importing_statement()
    ensures
        IMPORT_ROW@ == "insert into history(cmd, cwd, exit, ts, session) values(?1, ?2, ?3, ?4, ?5)"@
            + " on conflict(cmd) do update set"@
            + " ts = max(ts, excluded.ts)"@,
{
    reveal_strlit("insert into history(cmd, cwd, exit, ts, session) values(?1, ?2, ?3, ?4, ?5) on conflict(cmd) do update set ts = max(ts, excluded.ts)");
    reveal_strlit("insert into history(cmd, cwd, exit, ts, session) values(?1, ?2, ?3, ?4, ?5)");
    reveal_strlit(" on conflict(cmd) do update set");
    reveal_strlit(" ts = max(ts, excluded.ts)");
    assert(IMPORT_ROW@ =~= "insert into history(cmd, cwd, exit, ts, session) values(?1, ?2, ?3, ?4, ?5)"@
        + " on conflict(cmd) do update set"@
        + " ts = max(ts, excluded.ts)"@);
}

/// Listing asks for the time, the status and the command, the latest time first, where a missing
/// one counts as 0, and of equal times the row added last; and for no more rows than told.
pub proof fn lemma_listing_statement()
    ensures
        LATEST_ROWS@ == "select ts, exit, cmd from history"@
            + " order by coalesce(ts, 0) desc, id desc"@
            + " limit ?1"@,
{
    reveal_strlit("select ts, exit, cmd from history order by coalesce(ts, 0) desc, id desc limit ?1");
    reveal_strlit("select ts, exit, cmd from history");
    reveal_strlit(" order by coalesce(ts, 0) desc, id desc");
    reveal_strlit(" limit ?1");
    assert(LATEST_ROWS@ =~= "select ts, exit, cmd from history"@
        + " order by coalesce(ts, 0) desc, id desc"@
        + " limit ?1"@);
}

/// Searching asks for the command and the time of the ten thousand rows used last, the last first.
pub proof fn lemma_searching_statement()
    ensures
        SEARCH_ROWS@ == "select cmd, ts from history\n            "@
            + "order by ts desc\n            "@
            + "limit 10000"@,
{
    reveal_strlit("select cmd, ts from history\n            order by ts desc\n            limit 10000");
    reveal_strlit("select cmd, ts from history\n            ");
    reveal_strlit("order by ts desc\n            ");
    reveal_strlit("limit 10000");
    assert(SEARCH_ROWS@ =~= "select cmd, ts from history\n            "@
        + "order by ts desc\n            "@
        + "limit 10000"@);
}

} // verus!
