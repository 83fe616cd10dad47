use op_sys::term::framebuffer_color::{fb_color_pink, FBColor, FramebufferPixelBGR};

#[test]
fn pixel_new_sets_channels_and_clears_reserved() {
    let p = FramebufferPixelBGR::new(1, 2, 3);
    assert_eq!(p.red, 1);
    assert_eq!(p.green, 2);
    assert_eq!(p.blue, 3);
    assert_eq!(p.reserved, 0);
}

#[test]
fn pink_pixel_is_full_red_and_blue() {
    assert_eq!(fb_color_pink(), FramebufferPixelBGR::new(0xFF, 0, 0xFF));
    assert_eq!(FramebufferPixelBGR::from(FBColor::Pink), FramebufferPixelBGR::new(0xFF, 0, 0xFF));
}

#[test]
fn rgb_color_becomes_its_pixel() {
    let p = FramebufferPixelBGR::from(FBColor::Rgb(10, 20, 30));
    assert_eq!(p, FramebufferPixelBGR { blue: 30, green: 20, red: 10, reserved: 0 });
}

#[test]
fn pink_pixel_reads_back_as_pink() {
    assert_eq!(FBColor::from(FramebufferPixelBGR::new(0xFF, 0, 0xFF)), FBColor::Pink);
}

#[test]
fn other_pixel_reads_back_as_rgb() {
    assert_eq!(FBColor::from(FramebufferPixelBGR::new(1, 2, 3)), FBColor::Rgb(1, 2, 3));
}

#[test]
fn pink_channels_with_reserved_byte_read_back_as_rgb() {
    let p = FramebufferPixelBGR { blue: 0xFF, green: 0, red: 0xFF, reserved: 7 };
    assert_eq!(FBColor::from(p), FBColor::Rgb(0xFF, 0, 0xFF));
}

#[test]
fn color_round_trip_keeps_colors() {
    for c in [FBColor::Pink, FBColor::Rgb(0, 0, 0), FBColor::Rgb(1, 2, 3), FBColor::Rgb(0xFF, 0xFF, 0xFF)] {
        assert_eq!(FBColor::from(FramebufferPixelBGR::from(c)), c);
    }
}

#[test]
fn color_round_trip_turns_pink_rgb_into_pink() {
    let c = FBColor::Rgb(0xFF, 0, 0xFF);
    assert_eq!(FBColor::from(FramebufferPixelBGR::from(c)), FBColor::Pink);
}

#[test]
fn pixel_round_trip_keeps_pixels_with_zero_reserved() {
    for p in [
        FramebufferPixelBGR::new(0xFF, 0, 0xFF),
        FramebufferPixelBGR::new(0, 0, 0),
        FramebufferPixelBGR::new(9, 8, 7),
    ] {
        assert_eq!(FramebufferPixelBGR::from(FBColor::from(p)), p);
    }
}

#[test]
fn fbcolor_to_rgb_returns_the_color() {
    assert_eq!(FBColor::fbcolor_to_rgb(FBColor::Pink), FBColor::Pink);
    assert_eq!(FBColor::fbcolor_to_rgb(FBColor::Rgb(4, 5, 6)), FBColor::Rgb(4, 5, 6));
    assert_eq!(FBColor::fbcolor_to_rgb(FBColor::Rgb(0xFF, 0, 0xFF)), FBColor::Rgb(0xFF, 0, 0xFF));
}
