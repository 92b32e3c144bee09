use orbit::vga::{banner, clear, linear_banner, write_line, CellWrite, BUFFER_BYTES, DEFAULT_COLOR, HEIGHT, WIDTH};

fn c(offset: usize, value: u8) -> CellWrite {
    CellWrite { offset, value }
}

#[test]
fn clear_blanks_every_cell() {
    let writes = clear();
    assert_eq!(writes.len(), WIDTH * HEIGHT * 2);
    for (k, w) in writes.iter().enumerate() {
        assert_eq!(w.offset, k);
        assert_eq!(w.value, if k % 2 == 0 { b' ' } else { DEFAULT_COLOR });
    }
    assert_eq!(writes.last().unwrap().offset, BUFFER_BYTES - 1);
}

#[test]
fn write_line_pads_and_cuts_to_the_width() {
    let writes = write_line(1, b"hi");
    assert_eq!(writes.len(), WIDTH * 2);
    assert_eq!(writes[0], c(160, b'h'));
    assert_eq!(writes[1], c(161, DEFAULT_COLOR));
    assert_eq!(writes[2], c(162, b'i'));
    assert_eq!(writes[4], c(164, b' '));
    assert_eq!(writes[159], c(319, DEFAULT_COLOR));
    let long = [b'x'; 100];
    let writes = write_line(24, &long);
    assert_eq!(writes.len(), WIDTH * 2);
    assert_eq!(writes[158], c(3998, b'x'));
}

#[test]
fn write_line_past_the_bottom_does_nothing() {
    assert!(write_line(HEIGHT, b"x").is_empty());
    assert!(write_line(usize::MAX, b"x").is_empty());
}

#[test]
fn banner_starts_a_row_at_each_newline() {
    let writes = banner(b"AB\nC");
    assert_eq!(
        writes,
        vec![c(0, b'A'), c(1, 0x0f), c(2, b'B'), c(3, 0x0f), c(160, b'C'), c(161, 0x0f)]
    );
    let boot = banner(b"ORBIT Kernel v0.1\nBoot successful.");
    assert_eq!(boot.len(), (17 + 16) * 2);
    assert_eq!(boot[34], c(160, b'B'));
}

#[test]
fn linear_banner_skips_newline_cells() {
    let writes = linear_banner(b"AB\nC");
    assert_eq!(
        writes,
        vec![c(0, b'A'), c(1, 0x0f), c(2, b'B'), c(3, 0x0f), c(6, b'C'), c(7, 0x0f)]
    );
}

#[test]
fn banner_rows_may_pass_the_screen_bottom() {
    let mut message = vec![b'\n'; 30];
    message.push(b'A');
    let writes = banner(&message);
    assert_eq!(writes, vec![c(30 * 160, b'A'), c(30 * 160 + 1, 0x0f)]);
    let long = vec![b'x'; 2500];
    let writes = linear_banner(&long);
    assert_eq!(writes.len(), 5000);
    assert_eq!(writes[4998], c(4998, b'x'));
}
