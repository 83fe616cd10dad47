use op_sys::term::fbterm::{is_control, printable_text, text_of_blocks, AnsiBlock, FBTerm, Tile};
use op_sys::term::framebuffer::EFIFrameBuffer;
use op_sys::term::framebuffer_color::{FBColor, FramebufferPixelBGR};

fn px(v: u8) -> FramebufferPixelBGR {
    FramebufferPixelBGR::new(v, v, v)
}

/// A terminal with 2x3 glyph cells on a 5x7 framebuffer whose pixel `i` has value `i + 1`.
fn term() -> FBTerm {
    let mut t = FBTerm::new_unset(2, 3);
    let pixels: Vec<FramebufferPixelBGR> = (0..35).map(|i| px(i as u8 + 1)).collect();
    t.set_framebuffer(EFIFrameBuffer::new(pixels, 5, 7));
    t
}

fn pixels(t: &FBTerm) -> Vec<FramebufferPixelBGR> {
    t.framebuffer.as_ref().unwrap().pixels().clone()
}

fn black() -> FramebufferPixelBGR {
    FramebufferPixelBGR::new(0, 0, 0)
}

#[test]
fn new_unset_starts_without_framebuffer() {
    let t = FBTerm::new_unset(8, 16);
    assert!(t.framebuffer.is_none());
    assert!(t.tiles.is_empty());
    assert_eq!((t.current_column, t.current_row), (0, 0));
    assert_eq!((t.character_width, t.character_height), (8, 16));
    assert_eq!((t.max_column, t.max_row), (0, 0));
    assert_eq!(t.foreground_color, FBColor::Pink);
    assert_eq!(t.background_color, FBColor::Rgb(0, 0, 0));
}

#[test]
fn set_framebuffer_sizes_grid_to_whole_cells() {
    let t = term();
    assert_eq!(t.max_column, 2);
    assert_eq!(t.max_row, 2);
    assert_eq!(t.tiles, vec![Tile::Character(' '); 4]);
    assert_eq!((t.current_column, t.current_row), (0, 0));
}

#[test]
fn set_background_changes_only_background() {
    let mut t = term();
    t.set_background(FBColor::Rgb(1, 2, 3));
    assert_eq!(t.background_color, FBColor::Rgb(1, 2, 3));
    assert_eq!(t.foreground_color, FBColor::Pink);
}

#[test]
fn clear_paints_background_everywhere() {
    let mut t = term();
    t.set_background(FBColor::Rgb(7, 7, 7));
    t.clear();
    assert_eq!(pixels(&t), vec![px(7); 35]);
}

#[test]
fn clear_without_framebuffer_does_nothing() {
    let mut t = FBTerm::new_unset(2, 3);
    t.clear();
    assert!(t.framebuffer.is_none());
}

#[test]
fn printable_character_moves_one_column() {
    let mut t = term();
    t.update_location('a');
    assert_eq!((t.current_column, t.current_row), (1, 0));
}

#[test]
fn last_column_wraps_to_next_row() {
    let mut t = term();
    t.update_location('a');
    t.update_location('b');
    assert_eq!((t.current_column, t.current_row), (0, 1));
}

#[test]
fn tab_moves_four_columns_and_wraps() {
    let mut t = FBTerm::new_unset(1, 1);
    t.set_framebuffer(EFIFrameBuffer::new(vec![black(); 10 * 2], 10, 2));
    t.update_location('\t');
    assert_eq!((t.current_column, t.current_row), (4, 0));
    t.update_location('\t');
    assert_eq!((t.current_column, t.current_row), (8, 0));
    t.update_location('\t');
    assert_eq!((t.current_column, t.current_row), (0, 1));
}

#[test]
fn newline_on_last_row_scrolls() {
    let mut t = term();
    t.update_location('\n');
    assert_eq!((t.current_column, t.current_row), (0, 1));
    t.update_location('\n');
    assert_eq!((t.current_column, t.current_row), (0, 1));
    let mut expected: Vec<FramebufferPixelBGR> = (0..35).map(|i| px(i as u8 + 1)).collect();
    for i in 0..15 {
        expected[i] = px(i as u8 + 16);
    }
    for i in 15..30 {
        expected[i] = black();
    }
    assert_eq!(pixels(&t), expected);
}

#[test]
fn scroll_screen_moves_up_one_line() {
    let mut t = term();
    t.current_row = 1;
    t.scroll_screen();
    assert_eq!(t.current_row, 0);
    let p = pixels(&t);
    assert_eq!(p[0], px(16));
    assert_eq!(p[14], px(30));
    assert_eq!(p[15], black());
    assert_eq!(p[29], black());
    assert_eq!(p[30], px(31));
}

#[test]
fn scroll_screen_without_framebuffer_does_nothing() {
    let mut t = FBTerm::new_unset(2, 3);
    t.current_row = 5;
    t.scroll_screen();
    assert_eq!(t.current_row, 5);
}

#[test]
fn carriage_return_erases_cells_left_of_cursor() {
    let mut t = term();
    t.update_location('a');
    t.update_location('\r');
    assert_eq!((t.current_column, t.current_row), (0, 0));
    let mut expected: Vec<FramebufferPixelBGR> = (0..35).map(|i| px(i as u8 + 1)).collect();
    for i in [0, 1, 5, 6, 10, 11] {
        expected[i] = black();
    }
    assert_eq!(pixels(&t), expected);
}

#[test]
fn backspace_erases_previous_cell() {
    let mut t = term();
    t.update_location('\n');
    t.update_location('x');
    t.update_location('\x08');
    assert_eq!((t.current_column, t.current_row), (0, 1));
    let mut expected: Vec<FramebufferPixelBGR> = (0..35).map(|i| px(i as u8 + 1)).collect();
    for i in [15, 16, 20, 21, 25, 26] {
        expected[i] = black();
    }
    assert_eq!(pixels(&t), expected);
}

#[test]
fn backspace_at_line_start_stays() {
    let mut t = term();
    t.update_location('\x08');
    assert_eq!((t.current_column, t.current_row), (0, 0));
    let expected: Vec<FramebufferPixelBGR> = (0..35).map(|i| px(i as u8 + 1)).collect();
    assert_eq!(pixels(&t), expected);
}

#[test]
fn without_framebuffer_every_character_starts_a_row() {
    let mut t = FBTerm::new_unset(2, 3);
    t.update_location('a');
    assert_eq!((t.current_column, t.current_row), (0, 1));
    t.update_location('\n');
    assert_eq!((t.current_column, t.current_row), (0, 3));
}

#[test]
fn cursor_stays_in_grid_over_many_characters() {
    let mut t = term();
    for c in "ab\tc\nd\r\x08ef\n\n\tgh".chars() {
        t.update_location(c);
        assert!(t.current_column < t.max_column);
        assert!(t.current_row < t.max_row);
    }
}

#[test]
fn glyph_cell_skips_control_characters() {
    let mut t = term();
    t.update_location('a');
    assert_eq!(t.glyph_cell('z'), Some((1, 0)));
    assert_eq!(t.glyph_cell('\n'), None);
    assert_eq!(t.glyph_cell('\u{7f}'), None);
    assert_eq!(t.glyph_cell('\u{9f}'), None);
    assert_eq!(t.glyph_cell('\u{a0}'), Some((1, 0)));
}

#[test]
fn is_control_matches_std() {
    for c in ['\0', '\n', '\u{1f}', ' ', 'a', '\u{7e}', '\u{7f}', '\u{9f}', '\u{a0}', 'é'] {
        assert_eq!(is_control(c), c.is_control());
    }
}

#[test]
fn glyph_pixel_uses_foreground_from_half_coverage() {
    let mut t = term();
    t.draw_glyph_pixel(1, 0, 128);
    t.draw_glyph_pixel(2, 0, 127);
    t.draw_glyph_pixel(5, 0, 255);
    let p = pixels(&t);
    assert_eq!(p[1], FramebufferPixelBGR::new(0xFF, 0, 0xFF));
    assert_eq!(p[2], black());
    assert_eq!(p[5], px(6));
}

#[test]
fn printable_text_drops_escape_sequences() {
    assert_eq!(printable_text("\x1b[31mred\x1b[0m!"), vec!['r', 'e', 'd', '!']);
}

#[test]
fn printable_text_keeps_plain_text_whole() {
    assert_eq!(printable_text("a\tb\n"), vec!['a', '\t', 'b', '\n']);
    assert_eq!(printable_text(""), Vec::<char>::new());
}

#[test]
fn text_of_blocks_concatenates_text_runs() {
    let blocks = vec![AnsiBlock::Text(vec!['h', 'i']), AnsiBlock::Escape, AnsiBlock::Text(vec!['!'])];
    assert_eq!(text_of_blocks(&blocks), vec!['h', 'i', '!']);
}

#[test]
fn can_update_location_in_grid() {
    let t = term();
    for c in ['a', '\n', '\r', '\t', '\x08'] {
        assert!(t.can_update_location(c));
    }
}

#[test]
fn can_update_location_refuses_overflow() {
    let mut t = FBTerm::new_unset(2, 3);
    t.current_row = usize::MAX - 1;
    assert!(t.can_update_location('a'));
    t.current_row = usize::MAX;
    assert!(!t.can_update_location('a'));
    t.current_row = usize::MAX - 2;
    assert!(t.can_update_location('\n'));
    t.current_row = usize::MAX - 1;
    assert!(!t.can_update_location('\n'));
}

#[test]
fn can_update_location_refuses_screen_without_rows() {
    let mut t = FBTerm::new_unset(2, 3);
    t.set_framebuffer(EFIFrameBuffer::new(vec![black(); 10], 5, 2));
    assert_eq!(t.max_row, 0);
    assert!(!t.can_update_location('a'));
}

#[test]
fn printing_joined_text_equals_printing_parts() {
    let mut t1 = term();
    let mut t2 = term();
    for c in printable_text("ab\r\tc\x08\n") {
        t1.update_location(c);
    }
    for c in printable_text("ab\r") {
        t2.update_location(c);
    }
    for c in printable_text("\tc\x08\n") {
        t2.update_location(c);
    }
    assert_eq!((t1.current_column, t1.current_row), (t2.current_column, t2.current_row));
    assert_eq!(pixels(&t1), pixels(&t2));
}

#[test]
fn escape_sequence_prints_nothing() {
    assert_eq!(printable_text("a\x1b[31mb"), printable_text("ab"));
    assert_eq!(printable_text("\x1b[0m"), Vec::<char>::new());
}

#[test]
fn control_character_moves_without_glyph() {
    let mut t = term();
    assert_eq!(t.glyph_cell('\t'), None);
    t.update_location('\t');
    assert_eq!((t.current_column, t.current_row), (0, 1));
}
