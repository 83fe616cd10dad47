use op_sys::term::framebuffer::{select_bgr_mode, EFIFrameBuffer, PixelFormat};
use op_sys::term::framebuffer_color::{FBColor, FramebufferPixelBGR};

fn px(v: u8) -> FramebufferPixelBGR {
    FramebufferPixelBGR::new(v, v, v)
}

fn numbered(width: usize, height: usize) -> EFIFrameBuffer {
    let pixels: Vec<FramebufferPixelBGR> = (0..width * height).map(|i| px(i as u8)).collect();
    EFIFrameBuffer::new(pixels, width, height)
}

#[test]
fn new_keeps_dimensions_and_pixels() {
    let fb = numbered(3, 2);
    assert_eq!(fb.get_width(), 3);
    assert_eq!(fb.get_height(), 2);
    assert_eq!(fb.pixels().len(), 6);
    assert_eq!(fb.pixels()[4], px(4));
}

#[test]
fn draw_pixel_writes_row_major_index() {
    let mut fb = numbered(3, 2);
    fb.draw_pixel(2, 1, FBColor::Rgb(200, 100, 50));
    let mut expected: Vec<FramebufferPixelBGR> = (0..6).map(|i| px(i as u8)).collect();
    expected[5] = FramebufferPixelBGR::new(200, 100, 50);
    assert_eq!(fb.pixels(), &expected);
}

#[test]
fn draw_pixel_outside_is_ignored() {
    let mut fb = numbered(3, 2);
    fb.draw_pixel(3, 0, FBColor::Pink);
    fb.draw_pixel(0, 2, FBColor::Pink);
    fb.draw_pixel(usize::MAX, usize::MAX, FBColor::Pink);
    let expected: Vec<FramebufferPixelBGR> = (0..6).map(|i| px(i as u8)).collect();
    assert_eq!(fb.pixels(), &expected);
}

#[test]
fn shift_left_moves_pixels_and_keeps_tail() {
    let mut fb = numbered(3, 2);
    fb.shift_left(3);
    let expected = vec![px(3), px(4), px(5), px(3), px(4), px(5)];
    assert_eq!(fb.pixels(), &expected);
}

#[test]
fn shift_left_by_zero_and_by_all() {
    let mut fb = numbered(2, 2);
    fb.shift_left(0);
    assert_eq!(fb.pixels(), &vec![px(0), px(1), px(2), px(3)]);
    fb.shift_left(4);
    assert_eq!(fb.pixels(), &vec![px(0), px(1), px(2), px(3)]);
    fb.shift_left(1);
    assert_eq!(fb.pixels(), &vec![px(1), px(2), px(3), px(3)]);
}

#[test]
fn fill_paints_span() {
    let mut fb = numbered(2, 2);
    fb.fill(1, 3, px(9));
    assert_eq!(fb.pixels(), &vec![px(0), px(9), px(9), px(3)]);
}

#[test]
fn select_bgr_mode_picks_last_bgr() {
    let formats = vec![PixelFormat::Bgr, PixelFormat::Rgb, PixelFormat::Bgr, PixelFormat::BltOnly];
    assert_eq!(select_bgr_mode(&formats), Some(2));
}

#[test]
fn select_bgr_mode_none_without_bgr() {
    assert_eq!(select_bgr_mode(&vec![PixelFormat::Rgb, PixelFormat::Bitmask]), None);
    assert_eq!(select_bgr_mode(&vec![]), None);
}

#[test]
fn debug_text_shows_height_then_width() {
    let fb = EFIFrameBuffer::new(vec![px(0); 640 * 480], 640, 480);
    assert_eq!(fb.debug_text(), "(480-640)");
    assert_eq!(EFIFrameBuffer::new(vec![], 0, 0).debug_text(), "(0-0)");
    assert_eq!(EFIFrameBuffer::new(vec![px(0); 10], 10, 1).debug_text(), "(1-10)");
}

#[test]
fn operations_keep_dimensions() {
    let mut fb = numbered(4, 3);
    fb.draw_pixel(1, 1, FBColor::Pink);
    fb.shift_left(4);
    fb.draw_pixel(9, 9, FBColor::Pink);
    fb.fill(0, 12, px(1));
    fb.shift_left(12);
    assert_eq!(fb.get_width(), 4);
    assert_eq!(fb.get_height(), 3);
    assert_eq!(fb.pixels().len(), 12);
}
