use typing_game::keyboard::{parse_layout, Keyboard, KeyboardError};

const LAYOUT: &str = "q w e\na s d\n\nq-w-e\na|s|d";

#[test]
fn parse_splits_glyphs_and_touch_map() {
    let (glyphs, touch) = parse_layout(LAYOUT).unwrap();
    let glyph_text: String = glyphs.into_iter().collect();
    assert_eq!(glyph_text, "q w e\na s d");
    // Separator markers map to blanks; everything else is the key
    // at that position, the newline included.
    let touch_text: String = touch.into_iter().collect();
    assert_eq!(touch_text, "q w e\na s d");
}

#[test]
fn parse_keeps_blank_markers_out_of_the_touch_map() {
    let (_, touch) = parse_layout("x\n\n-|_ y").unwrap();
    assert_eq!(touch, vec![' ', ' ', ' ', ' ', 'y']);
}

#[test]
fn parse_rejects_single_block() {
    assert_eq!(
        parse_layout("q w e\na s d").unwrap_err(),
        KeyboardError::LayoutParsingError
    );
}

#[test]
fn parse_rejects_three_blocks() {
    assert_eq!(
        parse_layout("a\n\nb\n\nc").unwrap_err(),
        KeyboardError::LayoutParsingError
    );
}

#[test]
fn parse_rejects_empty_text() {
    assert_eq!(
        parse_layout("").unwrap_err(),
        KeyboardError::LayoutParsingError
    );
}

#[test]
fn new_keyboard_starts_with_no_active_keys() {
    let kb = Keyboard::new(LAYOUT).unwrap();
    assert!(kb.active_keys.is_empty());
    assert_eq!(kb.layout.iter().collect::<String>(), "q w e\na s d");
}

#[test]
fn key_press_is_uppercased_and_expires_after_the_window() {
    let mut kb = Keyboard::new(LAYOUT).unwrap();
    kb.key_pressed('a', 10_000);
    assert_eq!(kb.active_keys, vec![('A', 10_200)]);
    // An immediate tick keeps the key.
    kb.tick(10_000);
    assert_eq!(kb.active_keys, vec![('A', 10_200)]);
    // At the edge of the window the key still stands.
    kb.tick(10_200);
    assert_eq!(kb.active_keys, vec![('A', 10_200)]);
    // One tick past the window removes it.
    kb.tick(10_201);
    assert!(kb.active_keys.is_empty());
}

#[test]
fn pressing_again_refreshes_the_expiry() {
    let mut kb = Keyboard::new(LAYOUT).unwrap();
    kb.key_pressed('a', 10_000);
    kb.key_pressed('A', 10_150);
    assert_eq!(kb.active_keys, vec![('A', 10_350)]);
    kb.tick(10_300);
    assert_eq!(kb.active_keys, vec![('A', 10_350)]);
}

#[test]
fn tick_keeps_live_keys_in_order() {
    let mut kb = Keyboard::new(LAYOUT).unwrap();
    kb.key_pressed('a', 10_000);
    kb.key_pressed('s', 10_050);
    kb.key_pressed('d', 10_100);
    kb.tick(10_230);
    assert_eq!(kb.active_keys, vec![('S', 10_250), ('D', 10_300)]);
}

#[test]
fn non_letters_keep_their_shape() {
    let mut kb = Keyboard::new(LAYOUT).unwrap();
    kb.key_pressed('3', 10_000);
    assert_eq!(kb.active_keys, vec![('3', 10_200)]);
}
