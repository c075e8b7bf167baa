use stinkpot::frame::{max_rows, SearchFrame, Window};
use stinkpot::keys::{Action, KeyCode, KeyEvent, KeyEventKind, KeyModifiers};
use stinkpot::matching::{can_match, MAX_MATCHED_CHARS};
use stinkpot::ranking::rank;
use stinkpot::search::{can_search, Candidate, ListState, SearchApp};
use stinkpot::tui::{KeyOutcome, Tui};

fn sample_candidates() -> Vec<Candidate> {
    vec![
        Candidate {
            cmd: "git status".into(),
            ts: 3,
        },
        Candidate {
            cmd: "cargo test".into(),
            ts: 2,
        },
        Candidate {
            cmd: "git commit".into(),
            ts: 1,
        },
    ]
}

fn commands(list: &[&str]) -> Vec<Candidate> {
    list.iter().map(|cmd| Candidate { cmd: cmd.to_string(), ts: 1 }).collect()
}

fn press(app: &mut SearchApp, code: KeyCode) -> KeyOutcome {
    Tui::handle_key(app, KeyEvent::new(code, KeyModifiers::NONE))
}

#[test]
fn search_app_empty_query_lists_all() {
    let app = SearchApp::new(sample_candidates(), String::new());
    assert_eq!(app.filtered, vec![0, 1, 2]);
    assert_eq!(app.list_state.selected(), Some(0));
}

#[test]
fn search_app_filters_and_accepts() {
    let mut app = SearchApp::new(sample_candidates(), "git".into());
    assert!(app.filtered.len() >= 2);
    assert!(
        app.filtered
            .iter()
            .all(|&i| app.all.get(i).is_some_and(|c| c.cmd.contains("git")))
    );
    app.accept();
    assert!(app.selected.as_deref().is_some_and(|s| s.contains("git")));
}

#[test]
fn search_app_selection_moves_and_clamps() {
    let mut app = SearchApp::new(sample_candidates(), String::new());
    app.move_up();
    assert_eq!(app.list_state.selected(), Some(0));
    app.move_down();
    app.move_down();
    assert_eq!(app.list_state.selected(), Some(2));
    app.move_down();
    assert_eq!(app.list_state.selected(), Some(2));
    app.query = "zzz-no-match".into();
    app.filter();
    assert!(app.filtered.is_empty());
    assert_eq!(app.list_state.selected(), None);
}

#[test]
fn handle_key_accept_cancel_and_edit() {
    let mut app = SearchApp::new(sample_candidates(), String::new());

    let esc = KeyEvent::new(KeyCode::Esc, KeyModifiers::NONE);
    assert!(matches!(
        Tui::handle_key(&mut app, esc),
        KeyOutcome::Done(None)
    ));

    let mut app = SearchApp::new(sample_candidates(), String::new());
    let enter = KeyEvent::new(KeyCode::Enter, KeyModifiers::NONE);
    assert!(matches!(
        Tui::handle_key(&mut app, enter),
        KeyOutcome::Done(Some(_))
    ));

    let mut app = SearchApp::new(sample_candidates(), String::new());
    let ch = KeyEvent::new(KeyCode::Char('g'), KeyModifiers::NONE);
    assert!(matches!(
        Tui::handle_key(&mut app, ch),
        KeyOutcome::Continue
    ));
    assert_eq!(app.query, "g");
    assert_eq!(app.cursor_col, 1);

    let clear = KeyEvent::new(KeyCode::Char('u'), KeyModifiers::CONTROL);
    assert!(matches!(
        Tui::handle_key(&mut app, clear),
        KeyOutcome::Continue
    ));
    assert!(app.query.is_empty());
    assert_eq!(app.cursor_col, 0);
}

/// The list for a query by hand, from a matcher that may have been used before
fn ranked(matcher: &fuzzy_matcher::skim::SkimMatcherV2, list: &[&str], query: &str) -> Vec<usize> {
    let mut scored: Vec<(i64, usize)> = Vec::new();
    for (i, cmd) in list.iter().enumerate() {
        if let Some(score) = fuzzy_matcher::FuzzyMatcher::fuzzy_match(matcher, cmd, query.trim()) {
            scored.push((score, i));
        }
    }
    scored.sort_by_key(|s| std::cmp::Reverse(s.0));
    scored.into_iter().map(|s| s.1).collect()
}

#[test]
fn matches_are_those_of_the_skim_matcher() {
    let list = [
        "ls", "ssh host", "ssh -v host", "less shh", "SSH other", "swish", "git push", "s s h", "", "é ssh",
    ];
    for query in ["ssh", "SSH", " ssh ", "s", "h", "host", "zz", "é", "gitp", "ssh host"] {
        let matcher = fuzzy_matcher::skim::SkimMatcherV2::default().ignore_case();
        let app = SearchApp::new(commands(&list), query.to_string());
        assert_eq!(app.filtered, ranked(&matcher, &list, query), "{query}");
    }
}

#[test]
fn one_matcher_serves_all_queries() {
    let list = ["bb bb", "BB bB", "abb/b", "-baBBbB/", "b b b", "AbbBba-", "//b/bBAba", "bab"];
    let matcher = fuzzy_matcher::skim::SkimMatcherV2::default().ignore_case();
    let mut app = SearchApp::new(commands(&list), "a".into());
    assert_eq!(app.filtered, ranked(&matcher, &list, "a"));
    for query in ["ab", "b", "BBBA", "bb", "Bbb", "bbbA", "abb", "Bbb"] {
        app.query = query.into();
        app.filter();
        assert_eq!(app.filtered, ranked(&matcher, &list, query), "{query}");
    }
}

#[test]
fn blank_and_padded_queries() {
    let app = SearchApp::new(sample_candidates(), " \t ".into());
    assert_eq!(app.filtered, vec![0, 1, 2]);
    assert_eq!(app.cursor_col, 3);
    let plain = SearchApp::new(sample_candidates(), "git".into());
    let padded = SearchApp::new(sample_candidates(), "  git ".into());
    assert_eq!(plain.filtered, padded.filtered);
}

#[test]
fn matching_ignores_case_and_gaps() {
    let app = SearchApp::new(commands(&["Cargo Test", "cat", "tac", "ct"]), "CT".into());
    let mut found = app.filtered.clone();
    found.sort();
    assert_eq!(found, vec![0, 1, 3]);
}

#[test]
fn ranking_is_stable_and_descending() {
    assert_eq!(rank(&vec![]), Vec::<usize>::new());
    assert_eq!(rank(&vec![None, None]), Vec::<usize>::new());
    assert_eq!(
        rank(&vec![Some(1), None, Some(5), Some(1), Some(-2), Some(5), Some(9)]),
        vec![6, 2, 5, 0, 3, 4]
    );
    let scores: Vec<Option<i64>> = (0..500i64)
        .map(|i| if i % 7 == 0 { None } else { Some(i * 7919 % 13) })
        .collect();
    let mut expected: Vec<usize> = (0..500usize).filter(|&i| scores[i].is_some()).collect();
    expected.sort_by_key(|&i| std::cmp::Reverse(scores[i]));
    assert_eq!(rank(&scores), expected);
}

#[test]
fn scores_decide_the_list() {
    let mut app = SearchApp::new(sample_candidates(), String::new());
    app.move_down();
    app.move_down();
    app.show_ranked(&vec![Some(1), None, Some(7)]);
    assert_eq!(app.filtered, vec![2, 0]);
    assert_eq!(app.list_state.selected(), Some(1));
    app.show_ranked(&vec![None, None, None]);
    assert_eq!(app.list_state.selected(), None);
    app.show_all();
    assert_eq!(app.filtered, vec![0, 1, 2]);
    assert_eq!(app.list_state.selected(), Some(0));
}

#[test]
fn list_state_holds_a_position() {
    let mut state = ListState::default();
    assert_eq!(state.selected(), None);
    state.select(Some(4));
    assert_eq!(state.selected(), Some(4));
}

#[test]
fn candidates_behind_positions() {
    let app = SearchApp::new(sample_candidates(), "commit".into());
    assert_eq!(app.filtered, vec![2]);
    assert_eq!(app.candidate_at_filtered(0).map(|c| c.cmd.as_str()), Some("git commit"));
    assert!(app.candidate_at_filtered(1).is_none());
    let mut app = SearchApp::new(sample_candidates(), String::new());
    app.filtered = vec![9];
    assert!(app.candidate_at_filtered(0).is_none());
    app.accept();
    assert_eq!(app.selected, None);
}

#[test]
fn keys_and_what_they_ask() {
    let none = KeyModifiers::NONE;
    let shift = KeyModifiers::SHIFT;
    let control = KeyModifiers::CONTROL;
    let alt = 4u8;
    let asked = |code: KeyCode, modifiers: u8| KeyEvent::new(code, modifiers).action();
    assert_eq!(asked(KeyCode::Char('c'), control), Action::Cancel);
    assert_eq!(asked(KeyCode::Char('p'), control), Action::SelectUp);
    assert_eq!(asked(KeyCode::Char('n'), control), Action::SelectDown);
    assert_eq!(asked(KeyCode::Char('u'), control), Action::Clear);
    assert_eq!(asked(KeyCode::Char('x'), control), Action::Ignore);
    assert_eq!(asked(KeyCode::Char('c'), control | shift), Action::Ignore);
    assert_eq!(asked(KeyCode::Char('c'), none), Action::Insert('c'));
    assert_eq!(asked(KeyCode::Char('C'), shift), Action::Insert('C'));
    assert_eq!(asked(KeyCode::Char('c'), alt), Action::Ignore);
    assert_eq!(asked(KeyCode::Esc, alt), Action::Cancel);
    assert_eq!(asked(KeyCode::Enter, shift), Action::Accept);
    assert_eq!(asked(KeyCode::Tab, none), Action::Accept);
    assert_eq!(asked(KeyCode::Up, control), Action::SelectUp);
    assert_eq!(asked(KeyCode::Down, none), Action::SelectDown);
    assert_eq!(asked(KeyCode::Backspace, none), Action::EraseBefore);
    assert_eq!(asked(KeyCode::Delete, none), Action::EraseAt);
    assert_eq!(asked(KeyCode::Left, none), Action::CursorLeft);
    assert_eq!(asked(KeyCode::Right, none), Action::CursorRight);
    assert_eq!(asked(KeyCode::Home, none), Action::CursorHome);
    assert_eq!(asked(KeyCode::End, none), Action::CursorEnd);
    assert_eq!(asked(KeyCode::Other, none), Action::Ignore);
    for kind in [KeyEventKind::Repeat, KeyEventKind::Release] {
        let key = KeyEvent { code: KeyCode::Esc, modifiers: none, kind };
        assert_eq!(key.action(), Action::Ignore);
    }
}

#[test]
fn editing_the_query() {
    let mut app = SearchApp::new(sample_candidates(), "gt".into());
    let list = app.filtered.clone();
    press(&mut app, KeyCode::Left);
    press(&mut app, KeyCode::Char('é'));
    assert_eq!((app.query.as_str(), app.cursor_col), ("gét", 2));
    assert!(app.filtered.is_empty());
    press(&mut app, KeyCode::Backspace);
    assert_eq!((app.query.as_str(), app.cursor_col), ("gt", 1));
    assert_eq!(app.filtered.len(), list.len());
    assert!(app.filtered.iter().all(|i| list.contains(i)));
    press(&mut app, KeyCode::Delete);
    assert_eq!((app.query.as_str(), app.cursor_col), ("g", 1));
    press(&mut app, KeyCode::Delete);
    assert_eq!((app.query.as_str(), app.cursor_col), ("g", 1));
    press(&mut app, KeyCode::Right);
    assert_eq!(app.cursor_col, 1);
    press(&mut app, KeyCode::Home);
    assert_eq!(app.cursor_col, 0);
    press(&mut app, KeyCode::Left);
    press(&mut app, KeyCode::Backspace);
    assert_eq!((app.query.as_str(), app.cursor_col), ("g", 0));
    press(&mut app, KeyCode::Right);
    assert_eq!(app.cursor_col, 1);
    for c in "it".chars() {
        press(&mut app, KeyCode::Char(c));
    }
    assert_eq!((app.query.as_str(), app.cursor_col), ("git", 3));
    press(&mut app, KeyCode::Home);
    press(&mut app, KeyCode::End);
    assert_eq!(app.cursor_col, 3);
}

#[test]
fn selecting_and_leaving() {
    let mut app = SearchApp::new(sample_candidates(), String::new());
    press(&mut app, KeyCode::Down);
    press(&mut app, KeyCode::Down);
    press(&mut app, KeyCode::Up);
    assert_eq!(app.list_state.selected(), Some(1));
    match press(&mut app, KeyCode::Tab) {
        KeyOutcome::Done(Some(cmd)) => assert_eq!(cmd, "cargo test"),
        other => panic!("{other:?}"),
    }
    assert!(matches!(press(&mut app, KeyCode::Esc), KeyOutcome::Done(None)));
    assert_eq!(app.selected, None);
    let mut app = SearchApp::new(sample_candidates(), "zzz".into());
    assert!(matches!(press(&mut app, KeyCode::Enter), KeyOutcome::Done(None)));
}

#[test]
fn a_cursor_beyond_the_query_edits_nothing() {
    let mut app = SearchApp::new(sample_candidates(), "abc".into());
    app.query = "a".into();
    press(&mut app, KeyCode::Char('x'));
    press(&mut app, KeyCode::Backspace);
    press(&mut app, KeyCode::Delete);
    assert_eq!((app.query.as_str(), app.cursor_col), ("a", 3));
}

#[test]
fn rows_of_the_list() {
    assert_eq!(max_rows(None), 12);
    assert_eq!(max_rows(Some("")), 12);
    assert_eq!(max_rows(Some("many")), 12);
    assert_eq!(max_rows(Some("-3")), 12);
    assert_eq!(max_rows(Some("0")), 1);
    assert_eq!(max_rows(Some("+7")), 7);
    assert_eq!(max_rows(Some("30")), 30);
}

#[test]
fn windows_show_the_selection() {
    assert_eq!(Window::around(None, 12, 3), Window { start: 0, end: 3 });
    assert_eq!(Window::around(Some(0), 12, 0), Window { start: 0, end: 0 });
    assert_eq!(Window::around(Some(11), 12, 100), Window { start: 0, end: 12 });
    assert_eq!(Window::around(Some(12), 12, 100), Window { start: 1, end: 13 });
    assert_eq!(Window::around(Some(99), 12, 100), Window { start: 88, end: 100 });
    assert_eq!(Window::around(Some(5), 1, 9), Window { start: 5, end: 6 });
    assert_eq!(Window::around(Some(5), usize::MAX, 9), Window { start: 0, end: 9 });
}

#[test]
fn frames_show_the_window() {
    let mut app = SearchApp::new(commands(&["one", "two\nlines", "three", "four"]), String::new());
    app.query = "q é".into();
    app.cursor_col = 3;
    app.list_state.select(Some(2));
    let labels = vec!["now".to_string(), "12mo".to_string()];
    let frame = SearchFrame::compose(&app, Window { start: 1, end: 3 }, &labels);
    assert_eq!(frame.prompt, "> q é");
    assert_eq!(frame.cursor_x, 5);
    assert_eq!(frame.rows.len(), 2);
    assert_eq!((frame.rows[0].ts.as_str(), frame.rows[0].line.as_str()), (" now", "two  lines"));
    assert_eq!((frame.rows[1].ts.as_str(), frame.rows[1].line.as_str()), ("12mo", "three"));
    assert!(!frame.rows[0].highlighted && frame.rows[1].highlighted);
    assert_eq!(frame.selected_row, Some(1));
    assert_eq!(frame.footer, "  4 matches · ↑/↓ move · enter accept · esc cancel");
    app.list_state.select(Some(0));
    let frame = SearchFrame::compose(&app, Window { start: 1, end: 3 }, &vec![]);
    assert_eq!(frame.selected_row, None);
    assert_eq!(frame.rows[0].ts, "");
    app.cursor_col = 70_000;
    let frame = SearchFrame::compose(&app, Window { start: 3, end: 1 }, &vec![]);
    assert_eq!(frame.cursor_x, u16::MAX);
    assert!(frame.rows.is_empty());
}

#[test]
fn a_search_is_drawn() {
    let mut app = SearchApp::new(sample_candidates(), String::new());
    app.all[1].ts = 0;
    press(&mut app, KeyCode::Down);
    let frame = Tui::draw_search(&app, Some("2"));
    assert_eq!(frame.rows.len(), 2);
    assert_eq!(frame.rows[1].line, "cargo test");
    assert_eq!(frame.rows[1].ts, "never");
    assert_eq!(frame.rows[0].ts.chars().count(), 5);
    assert_eq!(frame.selected_row, Some(1));
    assert_eq!(frame.cursor_x, 2);
    let frame = Tui::draw_search(&app, None);
    assert_eq!(frame.rows.len(), 3);
    assert_eq!(frame.footer, "  3 matches · ↑/↓ move · enter accept · esc cancel");
}

#[test]
fn writing_on_narrows_the_list() {
    let list = ["git status", "cargo test", " git commit ", "grep it", "tig"];
    let mut app = SearchApp::new(commands(&list), String::new());
    let mut shown = app.filtered.clone();
    for c in "git s".chars() {
        press(&mut app, KeyCode::Char(c));
        assert!(app.filtered.iter().all(|i| shown.contains(i)));
        shown = app.filtered.clone();
    }
    assert_eq!(shown, vec![0]);
    for (i, cmd) in list.iter().enumerate() {
        let app = SearchApp::new(commands(&list), cmd.to_string());
        assert!(app.filtered.contains(&i));
    }
}

#[test]
fn lengths_that_can_be_matched() {
    assert!(can_match(0, 0));
    assert!(can_match(MAX_MATCHED_CHARS, usize::MAX));
    assert!(can_match(usize::MAX, MAX_MATCHED_CHARS));
    assert!(!can_match(MAX_MATCHED_CHARS + 1, MAX_MATCHED_CHARS + 1));
}

#[test]
fn ordinary_searches_can_be_made() {
    assert!(can_search(&sample_candidates(), "git"));
    assert!(can_search(&sample_candidates(), " "));
    assert!(can_search(&Vec::new(), "git"));
    let mut app = SearchApp::new(sample_candidates(), "git".into());
    let mut handled = |code, modifiers| Tui::try_handle_key(&mut app, KeyEvent::new(code, modifiers));
    for code in [KeyCode::Char('x'), KeyCode::Backspace, KeyCode::Delete, KeyCode::Down] {
        assert!(matches!(handled(code, KeyModifiers::NONE), Some(KeyOutcome::Continue)));
    }
    assert!(matches!(
        handled(KeyCode::Char('u'), KeyModifiers::CONTROL),
        Some(KeyOutcome::Continue)
    ));
    assert!(matches!(handled(KeyCode::Esc, KeyModifiers::NONE), Some(KeyOutcome::Done(None))));
    assert_eq!(app.query, "");
    assert_eq!(app.filtered, [0, 1, 2]);
}

fn run(initial: &str, keys: &[KeyCode]) -> Option<String> {
    let mut app = SearchApp::new(sample_candidates(), initial.to_string());
    for code in keys {
        let key = KeyEvent::new(*code, KeyModifiers::NONE);
        if let Some(KeyOutcome::Done(selected)) = Tui::try_handle_key(&mut app, key) {
            return selected;
        }
        assert!(app.selected.is_none());
    }
    panic!("the run has no end");
}

#[test]
fn runs_end_with_a_command_of_the_history() {
    let write = |c| KeyCode::Char(c);
    assert_eq!(
        run("", &[KeyCode::Down, KeyCode::Enter]).as_deref(),
        Some("cargo test")
    );
    assert_eq!(
        run("", &[write('c'), write('a'), write('r'), KeyCode::Tab]).as_deref(),
        Some("cargo test")
    );
    assert_eq!(
        run("cargo", &[KeyCode::Backspace, KeyCode::Home, KeyCode::Enter]).as_deref(),
        Some("cargo test")
    );
    // nothing matches
    assert_eq!(run("", &[write('z'), write('z'), KeyCode::Enter]), None);
    assert_eq!(run("", &[KeyCode::Down, KeyCode::Esc]), None);
}
