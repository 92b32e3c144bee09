use orbit::keyboard::{handle_scancode, KeyEvent};

#[test]
fn named_keys() {
    assert_eq!(handle_scancode(0x1C), Some(KeyEvent::Enter));
    assert_eq!(handle_scancode(0x01), Some(KeyEvent::Escape));
    assert_eq!(handle_scancode(0x0E), Some(KeyEvent::Backspace));
    assert_eq!(handle_scancode(0x39), Some(KeyEvent::Space));
}

#[test]
fn letter_rows_and_their_edges() {
    assert_eq!(handle_scancode(0x0F), None);
    assert_eq!(handle_scancode(0x10), Some(KeyEvent::TopRow(0x10)));
    assert_eq!(handle_scancode(0x19), Some(KeyEvent::TopRow(0x19)));
    assert_eq!(handle_scancode(0x1A), None);
    assert_eq!(handle_scancode(0x1D), None);
    assert_eq!(handle_scancode(0x1E), Some(KeyEvent::HomeRow(0x1E)));
    assert_eq!(handle_scancode(0x2C), Some(KeyEvent::HomeRow(0x2C)));
    assert_eq!(handle_scancode(0x2D), Some(KeyEvent::BottomRow(0x2D)));
    assert_eq!(handle_scancode(0x35), Some(KeyEvent::BottomRow(0x35)));
    assert_eq!(handle_scancode(0x36), None);
    assert_eq!(handle_scancode(0x02), None);
}

#[test]
fn releases_are_ignored() {
    assert_eq!(handle_scancode(0x9C), None);
    assert_eq!(handle_scancode(0x80), None);
    assert_eq!(handle_scancode(0x90), None);
    assert_eq!(handle_scancode(0xFF), None);
}
