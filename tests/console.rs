use hannos::vgabuf::{Color, VGAColor, VGAWriter, HEIGHT, WIDTH};

fn row_text(w: &VGAWriter, row: usize, len: usize) -> String {
    (0..len).map(|c| w.get_char_at(row, c) as char).collect()
}

#[test]
fn color_packs_background_high() {
    assert_eq!(VGAColor::new(Color::White, Color::Black), VGAColor(0x0f));
    assert_eq!(VGAColor::new(Color::Blue, Color::Red), VGAColor(0x41));
    assert_eq!(VGAColor::new(Color::Yellow, Color::LightGray), VGAColor(0x7e));
    assert_eq!(Color::Pink.code(), 13);
}

#[test]
fn new_screen_is_blank() {
    let w = VGAWriter::new();
    for row in 0..HEIGHT {
        assert_eq!(row_text(&w, row, WIDTH), " ".repeat(WIDTH));
    }
}

#[test]
fn text_goes_to_bottom_row() {
    let mut w = VGAWriter::new();
    w.write_str("hello");
    assert_eq!(row_text(&w, HEIGHT - 1, 6), "hello ");
}

#[test]
fn println_moves_text_up() {
    let mut w = VGAWriter::new();
    let s = "Check that this string is actually printed to the VGA buffer";
    w.write_str(s);
    w.write_str("\n");
    assert_eq!(row_text(&w, HEIGHT - 2, s.len()), s);
    assert_eq!(row_text(&w, HEIGHT - 1, WIDTH), " ".repeat(WIDTH));
}

#[test]
fn long_text_wraps() {
    let mut w = VGAWriter::new();
    let loops = 10;
    let s = "Repeating this string should wrap around the VGA buffer";
    w.write_str("\n");
    for _ in 0..loops {
        w.write_str(s);
    }
    w.write_str("\n");
    let start_row = HEIGHT - 2 - s.len() * loops / WIDTH;
    for (i, c) in s.chars().cycle().take(s.len() * loops).enumerate() {
        let row = start_row + i / WIDTH;
        let col = i % WIDTH;
        assert_eq!(w.get_char_at(row, col) as char, c);
    }
}

#[test]
fn carriage_return_and_tab() {
    let mut w = VGAWriter::new();
    w.write_str("abc\rX\tY");
    assert_eq!(row_text(&w, HEIGHT - 1, 7), "Xbc  Y ");
}

#[test]
fn unprintable_bytes_are_replaced() {
    let mut w = VGAWriter::new();
    w.write_str("a\u{e9}b");
    assert_eq!(w.get_char_at(HEIGHT - 1, 0), b'a');
    assert_eq!(w.get_char_at(HEIGHT - 1, 1), 0xfe);
    assert_eq!(w.get_char_at(HEIGHT - 1, 2), 0xfe);
    assert_eq!(w.get_char_at(HEIGHT - 1, 3), b'b');
    w.write_byte(0x07);
    assert_eq!(w.get_char_at(HEIGHT - 1, 4), 0x07);
}
