use oxisql::query::{prompt, Query};
use oxisql::trie::Trie;
use oxisql::ui::{redraw, InputState, Key, Session, Step, TerminalLine};

fn type_text(session: &Session, st: &mut InputState, text: &str) {
    for c in text.chars() {
        let r = session.step(st, Key::Char(c));
        assert!(r == Step::Pending);
    }
}

#[test]
fn typing_inserts_at_the_cursor() {
    let session = Session::new(Trie::new(), Trie::new());
    let mut st = InputState::new();
    type_text(&session, &mut st, "SELET");
    // move left before the final T and repair the typo
    assert!(session.step(&mut st, Key::ArrowLeft) == Step::Pending);
    assert!(session.step(&mut st, Key::Char('C')) == Step::Pending);
    assert_eq!(st.query.as_str(), "SELECT".to_string());
    assert_eq!(st.cursor, 5);
}

#[test]
fn arrows_clamp_to_the_text() {
    let session = Session::new(Trie::new(), Trie::new());
    let mut st = InputState::new();
    type_text(&session, &mut st, "ab");
    for _ in 0..5 {
        session.step(&mut st, Key::ArrowLeft);
    }
    assert_eq!(st.cursor, 0);
    for _ in 0..5 {
        session.step(&mut st, Key::ArrowRight);
    }
    assert_eq!(st.cursor, 2);
}

#[test]
fn backspace_removes_before_the_cursor() {
    let session = Session::new(Trie::new(), Trie::new());
    let mut st = InputState::new();
    type_text(&session, &mut st, "abc");
    assert!(session.step(&mut st, Key::Backspace) == Step::Pending);
    assert_eq!(st.query.as_str(), "ab".to_string());
    assert_eq!(st.cursor, 2);
}

#[test]
fn backspace_on_an_empty_buffer_changes_nothing() {
    let session = Session::new(Trie::new(), Trie::new());
    let mut st = InputState::new();
    let r = session.step(&mut st, Key::Backspace);
    assert!(r == Step::Pending);
    assert_eq!(st.cursor, 0);
    assert_eq!(st.query.len(), 0);
    // the redrawn line holds nothing but the fixed prompt
    let mut line = TerminalLine::new();
    redraw(&mut line, &st.query, st.cursor);
    let drawn: String = line.content.iter().collect();
    assert_eq!(drawn, prompt().to_string());
    assert_eq!(line.cursor_col, prompt().chars().count());
}

#[test]
fn redrawing_twice_changes_nothing() {
    let session = Session::new(Trie::new(), Trie::new());
    let mut st = InputState::new();
    type_text(&session, &mut st, "SELECT 1");
    let mut line = TerminalLine::new();
    redraw(&mut line, &st.query, st.cursor);
    let first_content = line.content.clone();
    let first_col = line.cursor_col;
    redraw(&mut line, &st.query, st.cursor);
    assert_eq!(line.content, first_content);
    assert_eq!(line.cursor_col, first_col);
    let drawn: String = line.content.iter().collect();
    assert_eq!(drawn, "oxisql>SELECT 1".to_string());
}

#[test]
fn submit_needs_the_terminator() {
    let session = Session::new(Trie::new(), Trie::new());
    let mut st = InputState::new();
    type_text(&session, &mut st, "SELECT 1");
    // no terminator yet: the line break goes to the display text only
    assert!(session.step(&mut st, Key::Enter) == Step::Pending);
    assert_eq!(st.query.as_str(), "SELECT 1".to_string());
    assert_eq!(st.query.visible_text(), "SELECT 1\n".to_string());
    type_text(&session, &mut st, ";");
    assert!(session.step(&mut st, Key::Enter) == Step::Submitted);
    assert_eq!(st.query.as_str(), "SELECT 1;".to_string());
}

#[test]
fn end_of_input_on_an_empty_buffer_terminates() {
    let session = Session::new(Trie::new(), Trie::new());
    let mut st = InputState::new();
    assert!(session.step(&mut st, Key::Char('\u{4}')) == Step::Terminated);
    type_text(&session, &mut st, "x");
    assert!(session.step(&mut st, Key::Char('\u{4}')) == Step::Pending);
    assert_eq!(st.query.as_str(), "x".to_string());
}

#[test]
fn unknown_keys_are_ignored() {
    let session = Session::new(Trie::new(), Trie::new());
    let mut st = InputState::new();
    type_text(&session, &mut st, "a");
    assert!(session.step(&mut st, Key::Unknown) == Step::Pending);
    assert_eq!(st.query.as_str(), "a".to_string());
    assert_eq!(st.cursor, 1);
}

#[test]
fn history_walks_backward_and_forward() {
    let mut history = Trie::new();
    history.insert("SELECT 1;");
    history.insert("SELECT 2;");
    let session = Session::new(history, Trie::new());
    let mut st = InputState::new();
    assert!(session.step(&mut st, Key::ArrowUp) == Step::Pending);
    assert_eq!(st.query.as_str(), "SELECT 2;".to_string());
    assert!(session.step(&mut st, Key::ArrowUp) == Step::Pending);
    assert_eq!(st.query.as_str(), "SELECT 1;".to_string());
    assert!(session.step(&mut st, Key::ArrowDown) == Step::Pending);
    assert_eq!(st.query.as_str(), "SELECT 2;".to_string());
    assert!(session.step(&mut st, Key::ArrowDown) == Step::Pending);
    assert_eq!(st.query.as_str(), "".to_string());
    assert_eq!(st.cursor, 0);
}

#[test]
fn history_stops_at_the_oldest_match() {
    let mut history = Trie::new();
    history.insert("a;");
    let session = Session::new(history, Trie::new());
    let mut st = InputState::new();
    session.step(&mut st, Key::ArrowUp);
    session.step(&mut st, Key::ArrowUp);
    session.step(&mut st, Key::ArrowUp);
    assert_eq!(st.query.as_str(), "a;".to_string());
}

#[test]
fn history_is_scoped_to_the_typed_prefix() {
    let mut history = Trie::new();
    history.insert("SHOW TABLES;");
    history.insert("SELECT 1;");
    let session = Session::new(history, Trie::new());
    let mut st = InputState::new();
    type_text(&session, &mut st, "SH");
    session.step(&mut st, Key::ArrowUp);
    assert_eq!(st.query.as_str(), "SHOW TABLES;".to_string());
}

#[test]
fn history_ignores_the_keys_without_matches() {
    let session = Session::new(Trie::new(), Trie::new());
    let mut st = InputState::new();
    type_text(&session, &mut st, "Q");
    session.step(&mut st, Key::ArrowUp);
    assert_eq!(st.query.as_str(), "Q".to_string());
    assert_eq!(st.cursor, 1);
}

#[test]
fn an_empty_history_entry_is_never_selected() {
    let mut history = Trie::new();
    history.insert("");
    history.insert("a;");
    let session = Session::new(history, Trie::new());
    let mut st = InputState::new();
    session.step(&mut st, Key::ArrowUp);
    assert_eq!(st.query.as_str(), "a;".to_string());
    // the next step walks onto the empty entry, which leaves the buffer alone
    session.step(&mut st, Key::ArrowUp);
    assert_eq!(st.query.as_str(), "a;".to_string());
}

#[test]
fn completion_inserts_then_cycles() {
    let mut symbols = Trie::new();
    symbols.insert("user_id");
    symbols.insert("users");
    let session = Session::new(Trie::new(), symbols);
    let mut st = InputState::new();
    type_text(&session, &mut st, "SELECT u");
    // the first press takes the oldest match
    assert!(session.step(&mut st, Key::Tab) == Step::Pending);
    assert_eq!(st.query.as_str(), "SELECT user_id".to_string());
    assert_eq!(st.cursor, 14);
    // an immediate second press cycles
    session.step(&mut st, Key::Tab);
    assert_eq!(st.query.as_str(), "SELECT users".to_string());
    // and around again
    session.step(&mut st, Key::Tab);
    assert_eq!(st.query.as_str(), "SELECT user_id".to_string());
}

#[test]
fn typing_resets_completion_cycling() {
    let mut symbols = Trie::new();
    symbols.insert("user_id");
    symbols.insert("users");
    let session = Session::new(Trie::new(), symbols);
    let mut st = InputState::new();
    type_text(&session, &mut st, "SELECT u");
    session.step(&mut st, Key::Tab);
    assert_eq!(st.query.as_str(), "SELECT user_id".to_string());
    // an edit in between changes the token, so cycling starts over
    session.step(&mut st, Key::Backspace);
    session.step(&mut st, Key::Backspace);
    session.step(&mut st, Key::Backspace);
    assert_eq!(st.query.as_str(), "SELECT user".to_string());
    session.step(&mut st, Key::Tab);
    assert_eq!(st.query.as_str(), "SELECT user_id".to_string());
}

#[test]
fn completion_without_matches_is_a_no_op() {
    let mut symbols = Trie::new();
    symbols.insert("users");
    let session = Session::new(Trie::new(), symbols);
    let mut st = InputState::new();
    type_text(&session, &mut st, "SELECT z");
    session.step(&mut st, Key::Tab);
    assert_eq!(st.query.as_str(), "SELECT z".to_string());
    assert_eq!(st.cursor, 8);
}

#[test]
fn completion_keeps_the_tail_after_the_cursor() {
    let mut symbols = Trie::new();
    symbols.insert("users");
    let session = Session::new(Trie::new(), symbols);
    let mut st = InputState::new();
    type_text(&session, &mut st, "SELECT u FROM t");
    for _ in 0..7 {
        session.step(&mut st, Key::ArrowLeft);
    }
    assert_eq!(st.cursor, 8);
    session.step(&mut st, Key::Tab);
    assert_eq!(st.query.as_str(), "SELECT users FROM t".to_string());
    assert_eq!(st.cursor, 12);
}

#[test]
fn the_buffer_tracks_visible_and_real_text_together() {
    let mut q = Query::new();
    q.handle_char(0, 'a');
    q.handle_char(1, 'b');
    q.handle_char(1, 'x');
    assert_eq!(q.as_str(), "axb".to_string());
    assert_eq!(q.visible_text(), "axb".to_string());
    assert_eq!(q.len(), 3);
    assert_eq!(q.chars(), vec!['a', 'x', 'b']);
    q.handle_enter();
    assert_eq!(q.as_str(), "axb".to_string());
    assert_eq!(q.visible_text(), "axb\n".to_string());
    q.set_query("fresh".to_string());
    assert_eq!(q.as_str(), "fresh".to_string());
    q.clear();
    assert_eq!(q.len(), 0);
    q.handle_backspace(0);
    assert_eq!(q.len(), 0);
}
