use typing_game::actions::Action;
use typing_game::app_state::{State, View};
use typing_game::keyboard::Keyboard;
use typing_game::text::ElementValue;

fn bare_keyboard() -> Keyboard {
    Keyboard {
        layout: Vec::new(),
        touch_map: Vec::new(),
        active_keys: Vec::new(),
    }
}

fn fresh(target: &str) -> State {
    let mut state = State::new(bare_keyboard());
    state.dispatch(Action::SetTarget(target.to_string()), 1_000);
    state
}

#[test]
fn new_state_shows_type_test_view() {
    let state = State::new(bare_keyboard());
    assert!(matches!(state.current_view, View::TypeTest));
    assert_eq!(state.type_test.cursor, (0, 0));
    assert!(state.type_test.lines.is_empty());
    assert!(state.type_test.actions.is_empty());
    assert!(state.type_test.last_modified.is_none());
}

#[test]
fn set_target_builds_lines_and_resets_cursor() {
    let state = fresh("ab\ncd");
    assert_eq!(state.type_test.lines.len(), 2);
    assert_eq!(state.type_test.cursor, (0, 0));
    assert!(state.type_test.last_modified.is_none());
    assert_eq!(state.type_test.actions.len(), 1);
}

#[test]
fn typing_records_value_and_advances() {
    let mut state = fresh("ab");
    state.dispatch(Action::Char('a'), 1_001);
    assert_eq!(state.type_test.cursor, (0, 1));
    assert_eq!(state.type_test.last_modified, Some((0, 0)));
    assert_eq!(
        state.type_test.lines[0].1[0].value,
        Some(ElementValue::Char('a'))
    );
    assert!(state.type_test.lines[0].1[1].value.is_none());
}

#[test]
fn cursor_advances_one_element_per_keystroke() {
    // Pure typing visits strictly increasing positions.
    let mut state = fresh("ab\ncd");
    let mut seen = vec![state.type_test.cursor];
    for (c, t) in [('a', 2), ('b', 3), ('\n', 4), ('c', 5), ('d', 6)] {
        state.dispatch(Action::Char(c), 1_000 + t);
        let cur = state.type_test.cursor;
        assert!(!seen.contains(&cur));
        seen.push(cur);
    }
    assert_eq!(
        seen,
        vec![(0, 0), (0, 1), (0, 2), (1, 0), (1, 1), (1, 2)]
    );
}

#[test]
fn enter_matches_line_end_marker() {
    let mut state = fresh("a\nb");
    state.dispatch(Action::Char('a'), 1_001);
    state.dispatch(Action::Char('\n'), 1_002);
    assert_eq!(
        state.type_test.lines[0].1[1].value,
        Some(ElementValue::Newline)
    );
    assert_eq!(state.type_test.cursor, (1, 0));
}

#[test]
fn newline_against_ordinary_char_is_wrong_value() {
    let mut state = fresh("ab");
    state.dispatch(Action::Char('\n'), 1_001);
    assert_eq!(
        state.type_test.lines[0].1[0].value,
        Some(ElementValue::Char('\n'))
    );
}

#[test]
fn indent_is_auto_skipped() {
    // Typing a, b, Enter against "ab\n  cd" lands directly on 'c'.
    let mut state = fresh("ab\n  cd");
    state.dispatch(Action::Char('a'), 1_001);
    state.dispatch(Action::Char('b'), 1_002);
    state.dispatch(Action::Char('\n'), 1_003);
    assert_eq!(state.type_test.cursor, (1, 0));
    assert_eq!(
        state.type_test.lines[1].1[0].target,
        ElementValue::Char('c')
    );
    // The skipped indentation weighs nothing in the scan: everything
    // typed so far counts as fully correct.
    let stats = state.type_test.stats(2_000);
    let p = stats.precision.unwrap();
    assert_eq!((p.num, p.den), (3, 3));
}

#[test]
fn backspace_undoes_the_preceding_char() {
    let mut state = fresh("ab");
    let before: Vec<Option<ElementValue>> =
        state.type_test.lines[0].1.iter().map(|e| e.value).collect();
    let cursor_before = state.type_test.cursor;
    state.dispatch(Action::Char('x'), 1_001);
    state.dispatch(Action::Backspace, 1_002);
    let after: Vec<Option<ElementValue>> =
        state.type_test.lines[0].1.iter().map(|e| e.value).collect();
    assert_eq!(after, before);
    assert_eq!(state.type_test.cursor, cursor_before);
}

#[test]
fn backspace_wraps_to_previous_line_end() {
    let mut state = fresh("a\nb");
    state.dispatch(Action::Char('a'), 1_001);
    state.dispatch(Action::Char('\n'), 1_002);
    assert_eq!(state.type_test.cursor, (1, 0));
    state.dispatch(Action::Backspace, 1_003);
    assert_eq!(state.type_test.cursor, (0, 1));
    assert!(state.type_test.lines[0].1[1].value.is_none());
    assert_eq!(state.type_test.last_modified, Some((0, 1)));
}

#[test]
fn backspace_at_start_does_nothing_but_log() {
    let mut state = fresh("ab");
    state.dispatch(Action::Backspace, 1_001);
    assert_eq!(state.type_test.cursor, (0, 0));
    assert!(state.type_test.lines[0].1[0].value.is_none());
    assert_eq!(state.type_test.actions.len(), 2);
}

#[test]
fn typing_past_the_end_reaches_terminal_state() {
    let mut state = fresh("a");
    state.dispatch(Action::Char('a'), 1_001);
    state.dispatch(Action::Char('\n'), 1_002);
    // Past the last element of the last line: the terminal state.
    assert_eq!(state.type_test.cursor, (1, 0));
    state.dispatch(Action::Char('z'), 1_003);
    assert_eq!(state.type_test.cursor, (1, 0));
    assert_eq!(state.type_test.actions.len(), 4);
    // Backspace is still permitted back into the text.
    state.dispatch(Action::Backspace, 1_004);
    assert_eq!(state.type_test.cursor, (0, 1));
}

#[test]
fn home_view_ignores_every_action() {
    let mut state = fresh("ab");
    state.current_view = View::Home;
    state.dispatch(Action::Char('a'), 1_001);
    state.dispatch(Action::Backspace, 1_002);
    assert_eq!(state.type_test.cursor, (0, 0));
    assert_eq!(state.type_test.actions.len(), 1);
    assert!(state.type_test.lines[0].1[0].value.is_none());
}

#[test]
fn session_runs_with_a_parsed_keyboard() {
    let keyboard = Keyboard::new("qwe\nasd\n\nqwe\nasd").unwrap();
    let mut state = State::new(keyboard);
    state.dispatch(Action::SetTarget("qq".to_string()), 1_000);
    state.dispatch(Action::Char('q'), 1_001);
    // Typing drives the keyboard highlight as well as the text model.
    assert_eq!(state.type_test.keyboard.active_keys, vec![('Q', 1_201)]);
    assert_eq!(state.type_test.cursor, (0, 1));
}

#[test]
fn every_action_is_logged_with_its_time() {
    let mut state = fresh("ab");
    state.dispatch(Action::Char('a'), 1_500);
    state.dispatch(Action::Backspace, 2_000);
    let log = &state.type_test.actions;
    assert_eq!(log.len(), 3);
    assert_eq!(log[0].time, 1_000);
    assert_eq!(log[1].time, 1_500);
    assert_eq!(log[2].time, 2_000);
}
