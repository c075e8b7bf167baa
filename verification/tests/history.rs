use stinkpot::command::{list_line, Command, HistoryRow, ListedRow};
use stinkpot::database::{history_file, Database, ADD_ROW, IMPORT_ROW, LATEST_ROWS, SCHEMA, SEARCH_ROWS};
use stinkpot::error::Error;
use stinkpot::search::Candidate;

fn words(list: &[&str]) -> Vec<String> {
    list.iter().map(|w| w.to_string()).collect()
}

fn history() -> rusqlite::Connection {
    let connection = rusqlite::Connection::open_in_memory().expect("open db");
    connection.execute_batch(SCHEMA).expect("create tables");
    connection
}

fn store(connection: &rusqlite::Connection, statement: &str, row: &HistoryRow) {
    connection
        .execute(statement, (&row.cmd, &row.cwd, row.exit, row.ts, &row.session))
        .expect("store row");
}

fn row(cmd: &str, exit: i32, ts: i64) -> HistoryRow {
    Command::add(exit, &words(&[cmd]))
        .expect("a command")
        .into_row("/tmp".to_string(), ts, None)
}

fn candidates(connection: &rusqlite::Connection) -> Vec<Candidate> {
    let mut statement = connection.prepare(SEARCH_ROWS).expect("prepare");
    let rows = statement
        .query_map([], |r| Ok(Candidate::from_row(r.get(0)?, r.get(1)?)))
        .expect("query");
    rows.map(|r| r.expect("read row")).collect()
}

#[test]
fn open_and_upsert() {
    let conn = history();
    store(&conn, ADD_ROW, &row("echo hi", 0, 100));
    store(&conn, ADD_ROW, &row("echo hi", 0, 200));
    let ts: i64 = conn
        .query_row("select ts from history where cmd = ?1", ["echo hi"], |r| r.get(0))
        .expect("read upserted ts");
    assert_eq!(ts, 200);
    let n: i64 = conn
        .query_row("select count(*) from history", [], |r| r.get(0))
        .expect("count history rows");
    assert_eq!(n, 1);
}

#[test]
fn load_candidates_newest_first() {
    let conn = history();
    for (cmd, ts) in [("old", 10i64), ("mid", 20), ("new", 30)] {
        conn.execute(
            "insert into history(cmd, cwd, exit, ts, session) values(?1, '', 0, ?2, '')",
            (cmd, ts),
        )
        .expect("insert candidate");
    }
    let candidates = candidates(&conn);
    assert_eq!(
        candidates.iter().map(|c| c.cmd.as_str()).collect::<Vec<_>>(),
        ["new", "mid", "old"]
    );
}

#[test]
fn schema_is_idempotent() {
    let conn = history();
    conn.execute_batch(SCHEMA).expect("create tables again");
}

#[test]
fn import_keeps_the_later_timestamp() {
    let conn = history();
    store(&conn, ADD_ROW, &row("make", 2, 100));
    store(&conn, ADD_ROW, &row("ls", 0, 300));
    let import = Command::import(&words(&["#200", "make", "ls"]), 0);
    for row in &import.rows {
        store(&conn, IMPORT_ROW, row);
    }
    let found = candidates(&conn);
    assert_eq!(found[0].cmd, "ls");
    assert_eq!(found[0].ts, 300);
    assert_eq!(found[1].cmd, "make");
    assert_eq!(found[1].ts, 200);
    let exit: i32 = conn
        .query_row("select exit from history where cmd = 'make'", [], |r| r.get(0))
        .expect("read exit");
    assert_eq!(exit, 2);
}

fn listed(connection: &rusqlite::Connection, count: u32) -> Vec<String> {
    let mut statement = connection.prepare(LATEST_ROWS).expect("prepare");
    let rows: Vec<ListedRow> = statement
        .query_map([count], |r| {
            Ok(ListedRow {
                ts: r.get(0)?,
                exit: r.get(1)?,
                cmd: r.get(2)?,
            })
        })
        .expect("query")
        .map(|row| row.expect("read row"))
        .collect();
    Command::list(&rows, count)
}

#[test]
fn latest_rows_are_listed() {
    let conn = history();
    for (cmd, ts) in [("one", 30i64), ("two", 120), ("three", 10)] {
        store(&conn, ADD_ROW, &row(cmd, 1, ts));
    }
    assert_eq!(
        listed(&conn, 2),
        ["1970-01-01 00:02  (1)  two", "1970-01-01 00:00  (1)  one"]
    );
    assert_eq!(listed(&conn, 9).len(), 3);
    assert!(listed(&conn, 0).is_empty());
}

#[test]
fn rerun_command_is_listed_first() {
    let conn = history();
    for (cmd, ts) in [("a", 100i64), ("b", 200), ("a", 300)] {
        store(&conn, ADD_ROW, &row(cmd, 0, ts));
    }
    assert_eq!(listed(&conn, 1), ["1970-01-01 00:05  (0)  a"]);
    assert_eq!(
        listed(&conn, 50),
        ["1970-01-01 00:05  (0)  a", "1970-01-01 00:03  (0)  b"]
    );
}

#[test]
fn rows_of_the_same_time_are_listed_from_the_last_added() {
    let conn = history();
    for cmd in ["a", "b", "c"] {
        store(&conn, ADD_ROW, &row(cmd, 0, 60));
    }
    assert_eq!(
        listed(&conn, 2),
        ["1970-01-01 00:01  (0)  c", "1970-01-01 00:01  (0)  b"]
    );
}

#[test]
fn rows_without_a_time_are_listed_at_time_zero() {
    let conn = history();
    for (cmd, ts) in [("early", Some(-5i64)), ("none", None), ("late", Some(60))] {
        conn.execute("insert into history(cmd, exit, ts) values(?1, 0, ?2)", (cmd, ts))
            .expect("insert row");
    }
    assert_eq!(
        listed(&conn, 2),
        ["1970-01-01 00:01  (0)  late", "1970-01-01 00:00  (0)  none"]
    );
    assert_eq!(listed(&conn, 3)[2], "              -5  (0)  early");
}

fn listed_row(ts: Option<i64>, exit: Option<i32>, cmd: &str) -> ListedRow {
    ListedRow {
        ts,
        exit,
        cmd: cmd.to_string(),
    }
}

#[test]
fn rows_are_listed_by_time() {
    let rows = vec![
        listed_row(Some(60), Some(0), "a"),
        listed_row(None, Some(0), "none"),
        listed_row(Some(120), Some(0), "b"),
        listed_row(Some(-60), Some(0), "early"),
        listed_row(Some(120), Some(0), "c"),
        listed_row(Some(0), Some(0), "zero"),
    ];
    let commands = |count: u32| -> Vec<String> {
        Command::list(&rows, count)
            .iter()
            .map(|line| line.rsplit("  ").next().expect("a command").to_string())
            .collect()
    };
    assert_eq!(commands(50), ["b", "c", "a", "none", "zero", "early"]);
    assert_eq!(commands(3), ["b", "c", "a"]);
    assert!(commands(0).is_empty());
}

#[test]
fn list_lines() {
    let line = |ts, exit, cmd: &str| list_line(&listed_row(ts, exit, cmd));
    assert_eq!(
        line(Some(1_700_000_000), Some(0), "git log"),
        "2023-11-14 22:13  (0)  git log"
    );
    assert_eq!(line(None, None, ""), "1970-01-01 00:00  (0)  ");
    assert_eq!(line(Some(-5), Some(-1), "x"), "              -5  (-1)  x");
    assert_eq!(
        line(Some(253_402_300_800), Some(127), "x"),
        "10000-01-01 00:00  (127)  x"
    );
}

fn import(connection: &rusqlite::Connection, lines: &[&str], now: i64) {
    for row in &Command::import(&words(lines), now).rows {
        store(connection, IMPORT_ROW, row);
    }
}

fn table(connection: &rusqlite::Connection) -> Vec<(String, String, i32, i64, String)> {
    let mut statement = connection
        .prepare("select cmd, cwd, exit, ts, session from history order by cmd")
        .expect("prepare");
    let rows = statement
        .query_map([], |r| {
            Ok((r.get(0)?, r.get(1)?, r.get(2)?, r.get(3)?, r.get(4)?))
        })
        .expect("query");
    rows.map(|r| r.expect("read row")).collect()
}

#[test]
fn import_keeps_old_rows_and_adds_new_ones() {
    let conn = history();
    store(&conn, ADD_ROW, &row("ls", 3, 300));
    store(&conn, ADD_ROW, &row("make", 2, 100));
    store(&conn, ADD_ROW, &row("pwd", 1, 50));
    import(&conn, &["#200", "make  ", "ls", "", "top", "top", "#250", "top"], 0);
    let expect = |cmd: &str, cwd: &str, exit: i32, ts: i64| {
        (cmd.to_string(), cwd.to_string(), exit, ts, String::new())
    };
    assert_eq!(
        table(&conn),
        [
            expect("ls", "/tmp", 3, 300),
            expect("make", "/tmp", 2, 200),
            expect("pwd", "/tmp", 1, 50),
            expect("top", "", 0, 200),
        ]
    );
}

#[test]
fn second_import_changes_nothing() {
    let conn = history();
    store(&conn, ADD_ROW, &row("ls", 3, 300));
    let lines = ["#200", "make", "ls", "#100", "make", "top"];
    import(&conn, &lines, 1_000);
    let first = table(&conn);
    assert_eq!(first.len(), 3);
    import(&conn, &lines, 2_000);
    assert_eq!(table(&conn), first);
}

#[test]
fn unstamped_commands_have_the_time_of_the_import() {
    let conn = history();
    import(&conn, &["ls", "#5", "cd"], 1_000);
    import(&conn, &["ls", "#5", "cd"], 2_000);
    let times: Vec<(String, i64)> = table(&conn).into_iter().map(|r| (r.0, r.3)).collect();
    assert_eq!(times, [("cd".to_string(), 5), ("ls".to_string(), 2_000)]);
}

#[test]
fn blank_commands_are_not_recorded() {
    assert!(Command::add(0, &words(&[])).is_none());
    assert!(Command::add(0, &words(&["", " ", "\t"])).is_none());
    let request = Command::add(3, &words(&["git", "commit ", "-m"])).expect("a command");
    assert_eq!(request.cmd, "git commit  -m");
    let row = request.into_row("/home".to_string(), 7, Some("s1".to_string()));
    assert_eq!(
        (row.cmd.as_str(), row.cwd.as_str(), row.exit, row.ts, row.session.as_str()),
        ("git commit  -m", "/home", 3, 7, "s1")
    );
    let row = Command::add(0, &words(&["ls"])).expect("a command").into_row(String::new(), 7, None);
    assert_eq!(row.session, "");
}

fn imported(lines: &[&str]) -> Vec<(String, i64)> {
    let import = Command::import(&words(lines), 1000);
    assert_eq!(import.count as usize, import.rows.len());
    import
        .rows
        .iter()
        .map(|row| {
            assert_eq!((row.cwd.as_str(), row.exit, row.session.as_str()), ("", 0, ""));
            (row.cmd.clone(), row.ts)
        })
        .collect()
}

#[test]
fn shell_histories_are_read() {
    let expect = |list: &[(&str, i64)]| -> Vec<(String, i64)> {
        list.iter().map(|(cmd, ts)| (cmd.to_string(), *ts)).collect()
    };
    assert_eq!(imported(&[]), expect(&[]));
    assert_eq!(imported(&["ls", "cd"]), expect(&[("ls", 1000), ("cd", 1000)]));
    assert_eq!(
        imported(&["ls", "#1", "cd", "make", "#2", "#-3", "top"]),
        expect(&[("ls", 1000), ("cd", 1), ("make", 1), ("top", -3)])
    );
    // neighbours that repeat are taken once, also across timestamps and blank lines
    assert_eq!(
        imported(&["ls", "ls  ", "", "#5", " \t", "ls", "cd", "ls"]),
        expect(&[("ls", 1000), ("cd", 5), ("ls", 5)])
    );
    // a number sign without a number is a command
    assert_eq!(
        imported(&["#", "# note", "#12 ", "#12x", "  #12"]),
        expect(&[("#", 1000), ("# note", 1000), ("#12", 1000), ("#12x", 1000), ("  #12", 1000)])
    );
    assert_eq!(imported(&["  ls\t \r"]), expect(&[("  ls\t \r", 1000)]));
    let import = Command::import(&words(&["a", "b"]), 0);
    assert_eq!(import.summary("/root/.bash_history"), "Imported 2 commands from '/root/.bash_history'");
}

#[test]
fn search_starts_with_the_words() {
    assert_eq!(Command::search(&words(&["git", "log"])), "git log");
    assert_eq!(Command::search(&words(&[])), "");
}

#[test]
fn database_path_from_the_environment() {
    let plan = Database::path(Some("/db"), Some("/xdg"), Some("/home")).expect("a path");
    assert_eq!((plan.base, plan.parts), ("/db", vec![]));
    let plan = Database::path(None, Some("/xdg"), Some("/home")).expect("a path");
    assert_eq!((plan.base, plan.parts), ("/xdg", vec!["stinkpot", "history.sqlite"]));
    let plan = Database::path(None, None, Some("/home")).expect("a path");
    assert_eq!(
        (plan.base, plan.parts),
        ("/home", vec![".local", "share", "stinkpot", "history.sqlite"])
    );
    let error = Database::path::<&str>(None, None, None).expect_err("no path");
    assert!(matches!(error, Error::MissingEnv("HOME")));
    assert_eq!(error.message(), "missing environment variable `HOME`");
}

#[test]
fn history_file_from_the_environment() {
    let plan = history_file(Some("f"), Some("/hist"), Some("/home")).expect("a path");
    assert_eq!((plan.base, plan.parts), ("f", vec![]));
    let plan = history_file(None, Some("/hist"), Some("/home")).expect("a path");
    assert_eq!((plan.base, plan.parts), ("/hist", vec![]));
    let plan = history_file(None, None, Some("/home")).expect("a path");
    assert_eq!((plan.base, plan.parts), ("/home", vec![".bash_history"]));
    assert!(matches!(
        history_file::<&str>(None, None, None),
        Err(Error::MissingEnv("HOME"))
    ));
}

#[test]
fn rows_without_a_timestamp() {
    assert_eq!(Candidate::from_row("ls".to_string(), None).ts, 0);
    assert_eq!(Candidate::from_row("ls".to_string(), Some(9)).ts, 9);
}
