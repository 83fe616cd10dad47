use vstd::prelude::*;
use vstd::std_specs::convert::FromSpecImpl;

verus! {

/// One pixel of a 32-bit BGR framebuffer: blue, green, red and a reserved byte.
#[derive(Clone, Copy, Debug, PartialEq, Eq, Structural)]
pub struct FramebufferPixelBGR {
    pub blue: u8,
    pub green: u8,
    pub red: u8,
    pub reserved: u8,
}

/// Colors supported by the framebuffer terminal.
#[derive(Clone, Copy, Debug, PartialEq, Eq, Structural)]
pub enum FBColor {
    Pink,
    Rgb(u8, u8, u8),
}

/// The pixel written for `FBColor::Pink`: full red and full blue.
pub open spec fn spec_pink_pixel() -> FramebufferPixelBGR {
    FramebufferPixelBGR { blue: 0xFF, green: 0, red: 0xFF, reserved: 0 }
}

/// The pixel that a color is written as.
pub open spec fn pixel_of(color: FBColor) -> FramebufferPixelBGR {
    match color {
        FBColor::Pink => spec_pink_pixel(),
        FBColor::Rgb(r, g, b) => FramebufferPixelBGR { blue: b, green: g, red: r, reserved: 0 },
    }
}

/// The color that a pixel reads back as: the pink pixel is `Pink`, every
/// other pixel is its red, green and blue bytes.
pub open spec fn color_of(pixel: FramebufferPixelBGR) -> FBColor {
    if pixel == spec_pink_pixel() {
        FBColor::Pink
    } else {
        FBColor::Rgb(pixel.red, pixel.green, pixel.blue)
    }
}

/// Writing a color as a pixel and reading it back gives the color again,
/// except `Rgb(0xFF, 0, 0xFF)`, whose pixel is the pink one and reads back
/// as `Pink`.
pub proof fn lemma_color_round_trip(c: FBColor)
    ensures
        c != FBColor::Rgb(0xFF, 0, 0xFF) ==> color_of(pixel_of(c)) == c,
        color_of(pixel_of(FBColor::Rgb(0xFF, 0, 0xFF))) == FBColor::Pink,
{
}

/// Reading a pixel as a color and writing it back gives the pixel again,
/// for every pixel whose reserved byte is 0 (the only pixels colors write).
pub proof fn lemma_pixel_round_trip(p: FramebufferPixelBGR)
    requires
        p.reserved == 0,
    ensures
        pixel_of(color_of(p)) == p,
{
}

impl FramebufferPixelBGR {
    /// A pixel with the given red, green and blue bytes and a zero reserved byte.
    pub fn new(red: u8, green: u8, blue: u8) -> (p: FramebufferPixelBGR)
        ensures
            p == (FramebufferPixelBGR { blue, green, red, reserved: 0 }),
    {
        FramebufferPixelBGR { reserved: 0, red, green, blue }
    }
}

/// The pixel used for `FBColor::Pink`.
pub fn fb_color_pink() -> (p: FramebufferPixelBGR)
    ensures
        p == spec_pink_pixel(),
{
    FramebufferPixelBGR::new(0xFF, 0, 0xFF)
}

impl From<FBColor> for FramebufferPixelBGR {
    fn from(color: FBColor) -> (p: Self) {
        match color {
            FBColor::Pink => fb_color_pink(),
            FBColor::Rgb(r, g, b) => Self::new(r, g, b),
        }
    }
}

impl FromSpecImpl<FBColor> for FramebufferPixelBGR {
    open spec fn obeys_from_spec() -> bool {
        true
    }

    open spec fn from_spec(v: FBColor) -> Self {
        pixel_of(v)
    }
}

impl From<FramebufferPixelBGR> for FBColor {
    fn from(pixel: FramebufferPixelBGR) -> (c: Self) {
        if pixel == fb_color_pink() {
            FBColor::Pink
        } else {
            FBColor::Rgb(pixel.red, pixel.green, pixel.blue)
        }
    }
}

impl FromSpecImpl<FramebufferPixelBGR> for FBColor {
    open spec fn obeys_from_spec() -> bool {
        true
    }

    open spec fn from_spec(v: FramebufferPixelBGR) -> Self {
        color_of(v)
    }
}

impl FBColor {
    /// Converts a color to its red-green-blue form by way of its pixel.
    ///
    /// The pink pixel reads back as `Pink`, so every color, `Pink` included,
    /// comes back unchanged.
    pub fn fbcolor_to_rgb(color: Self) -> (c: Self)
        ensures
            c == color,
    {
        match color {
            FBColor::Pink => FBColor::from(fb_color_pink()),
            FBColor::Rgb(r, g, b) => FBColor::Rgb(r, g, b),
        }
    }
}

} // verus!
