use nanoos::vga::{encode_color, print, Color, VGAWriter};

const WHITE_ON_BLACK: u16 = 0x0f00;

#[test]
fn color_encoding() {
    assert_eq!(encode_color(Color::White, Color::Black), 0x0f);
    assert_eq!(encode_color(Color::Black, Color::White), 0xf0);
    assert_eq!(encode_color(Color::Yellow, Color::Blue), 0x1e);
}

#[test]
fn fresh_writer_is_blank() {
    let w = VGAWriter::new();
    assert_eq!(w.cursor(), (0, 0));
    assert_eq!(w.cell(0, 0), WHITE_ON_BLACK | b' ' as u16);
    assert_eq!(w.cell(79, 24), WHITE_ON_BLACK | b' ' as u16);
}

#[test]
fn writing_paints_cells_and_moves_the_cursor() {
    let mut w = VGAWriter::new();
    w.write_str("AB");
    assert_eq!(w.cell(0, 0), WHITE_ON_BLACK | b'A' as u16);
    assert_eq!(w.cell(1, 0), WHITE_ON_BLACK | b'B' as u16);
    assert_eq!(w.cursor(), (2, 0));
}

#[test]
fn newline_moves_to_the_next_row() {
    let mut w = VGAWriter::new();
    print(&mut w, "A\nB");
    assert_eq!(w.cell(0, 0), WHITE_ON_BLACK | b'A' as u16);
    assert_eq!(w.cell(0, 1), WHITE_ON_BLACK | b'B' as u16);
    assert_eq!(w.cursor(), (1, 1));
}

#[test]
fn multi_byte_characters_write_their_bytes() {
    let mut w = VGAWriter::new();
    let text = String::from_utf8(vec![0xc3, 0xa9]).unwrap();
    w.write_str(&text);
    // The writer works byte for byte: a two-byte character takes two
    // cells, as it would on the raw hardware buffer.
    assert_eq!(w.cursor(), (2, 0));
    assert_eq!(w.cell(0, 0), WHITE_ON_BLACK | 0xc3);
    assert_eq!(w.cell(1, 0), WHITE_ON_BLACK | 0xa9);
}

#[test]
fn colors_apply_to_later_writes() {
    let mut w = VGAWriter::new();
    w.set_color(Color::Green, Color::Blue);
    w.write_str("G");
    assert_eq!(w.cell(0, 0), 0x1200 | b'G' as u16);
}

#[test]
fn writing_past_the_row_end_drops_characters() {
    let mut w = VGAWriter::new();
    for _ in 0..85 {
        w.write_str("x");
    }
    assert_eq!(w.cursor(), (80, 0));
    assert_eq!(w.cell(79, 0), WHITE_ON_BLACK | b'x' as u16);
    w.write_str("\ny");
    assert_eq!(w.cursor(), (1, 1));
    assert_eq!(w.cell(0, 1), WHITE_ON_BLACK | b'y' as u16);
}

#[test]
fn newline_past_the_last_row_scrolls() {
    let mut w = VGAWriter::new();
    w.write_str("A\nB\n");
    assert_eq!(w.cursor(), (0, 2));
    for _ in 0..22 {
        w.write_str("\n");
    }
    assert_eq!(w.cursor(), (0, 24));
    // One more newline scrolls: the first row falls off, the second moves
    // up, and the cursor stays on the last row.
    w.write_str("\n");
    assert_eq!(w.cursor(), (0, 24));
    assert_eq!(w.cell(0, 0), WHITE_ON_BLACK | b'B' as u16);
    assert_eq!(w.cell(0, 24), WHITE_ON_BLACK | b' ' as u16);
}

#[test]
fn clear_repaints_with_the_clear_color() {
    let mut w = VGAWriter::new();
    w.write_str("something");
    w.clear(Color::Blue);
    assert_eq!(w.cursor(), (0, 0));
    assert_eq!(w.cell(0, 0), 0x1f00 | b' ' as u16);
    assert_eq!(w.cell(5, 0), 0x1f00 | b' ' as u16);
    // After a scroll, the fresh last row keeps the clear color.
    for _ in 0..30 {
        w.write_str("\n");
    }
    assert_eq!(w.cell(0, 24), 0x1f00 | b' ' as u16);
}
