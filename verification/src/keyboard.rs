use vstd::prelude::*;

verus! {

/// Bit set in a scancode when the key is released.
pub const SCAN_CODE_RELEASE: u8 = 0x80;

/// A key press that the kernel reports.
#[derive(Clone, Copy, Debug, PartialEq, Eq, Structural)]
pub enum KeyEvent {
    Enter,
    Escape,
    Backspace,
    Space,
    /// A key of the top letter row (`q` to `p`), with its scancode.
    TopRow(u8),
    /// A key of the home row (`a` to `l` and the keys after them), with its scancode.
    HomeRow(u8),
    /// A key of the bottom row (`z` to `/`), with its scancode.
    BottomRow(u8),
}

/// The event for a scancode of set 1: releases and unknown keys give none.
pub open spec fn key_event(scancode: u8) -> Option<KeyEvent> {
    if scancode >= SCAN_CODE_RELEASE {
        None
    } else if scancode == 0x1C {
        Some(KeyEvent::Enter)
    } else if scancode == 0x01 {
        Some(KeyEvent::Escape)
    } else if scancode == 0x0E {
        Some(KeyEvent::Backspace)
    } else if scancode == 0x39 {
        Some(KeyEvent::Space)
    } else if 0x10 <= scancode <= 0x19 {
        Some(KeyEvent::TopRow(scancode))
    } else if 0x1E <= scancode <= 0x2C {
        Some(KeyEvent::HomeRow(scancode))
    } else if 0x2D <= scancode <= 0x35 {
        Some(KeyEvent::BottomRow(scancode))
    } else {
        None
    }
}

/// Decodes a scancode read from the keyboard controller.
pub fn handle_scancode(scancode: u8) -> (r: Option<KeyEvent>)
    ensures
        r == key_event(scancode),
        scancode >= 0x80 ==> r is None,
        scancode == 0x1C ==> r == Some(KeyEvent::Enter),
        scancode == 0x01 ==> r == Some(KeyEvent::Escape),
        scancode == 0x0E ==> r == Some(KeyEvent::Backspace),
        scancode == 0x39 ==> r == Some(KeyEvent::Space),
        0x10 <= scancode <= 0x19 ==> r == Some(KeyEvent::TopRow(scancode)),
        0x1E <= scancode <= 0x2C ==> r == Some(KeyEvent::HomeRow(scancode)),
        0x2D <= scancode <= 0x35 ==> r == Some(KeyEvent::BottomRow(scancode)),
{
    if scancode & SCAN_CODE_RELEASE != 0 {
        assert(scancode & 0x80 != 0 ==> scancode >= 0x80) by (bit_vector);
        return None;
    }
    assert(scancode & 0x80 == 0 ==> scancode < 0x80) by (bit_vector);
    match scancode {
        0x1C => Some(KeyEvent::Enter),
        0x01 => Some(KeyEvent::Escape),
        0x0E => Some(KeyEvent::Backspace),
        0x39 => Some(KeyEvent::Space),
        0x10..=0x19 => Some(KeyEvent::TopRow(scancode)),
        0x1E..=0x2C => Some(KeyEvent::HomeRow(scancode)),
        0x2D..=0x35 => Some(KeyEvent::BottomRow(scancode)),
        _ => None,
    }
}

/// The scancode table of set 1, key by key: releases (bit 7 set) give no
/// event; Enter, Escape, Backspace and Space give their named events; every
/// code of the top letter row `0x10..=0x19`, the home row `0x1E..=0x2C` and
/// the bottom row `0x2D..=0x35` gives its row's event carrying the code; and
/// every other code gives no event.
pub proof fn lemma_scancode_table(s: u8)
    ensures
        s >= 0x80 ==> key_event(s) is None,
        s == 0x1C ==> key_event(s) == Some(KeyEvent::Enter),
        s == 0x01 ==> key_event(s) == Some(KeyEvent::Escape),
        s == 0x0E ==> key_event(s) == Some(KeyEvent::Backspace),
        s == 0x39 ==> key_event(s) == Some(KeyEvent::Space),
        0x10 <= s <= 0x19 ==> key_event(s) == Some(KeyEvent::TopRow(s)),
        0x1E <= s <= 0x2C ==> key_event(s) == Some(KeyEvent::HomeRow(s)),
        0x2D <= s <= 0x35 ==> key_event(s) == Some(KeyEvent::BottomRow(s)),
        !(s == 0x1C || s == 0x01 || s == 0x0E || s == 0x39 || (0x10 <= s <= 0x19) || (0x1E <= s <= 0x2C)
            || (0x2D <= s <= 0x35)) ==> key_event(s) is None,
{
}

} // verus!
