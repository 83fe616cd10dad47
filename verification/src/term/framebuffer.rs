use vstd::prelude::*;
use vstd::arithmetic::div_mod::lemma_fundamental_div_mod_converse;
use crate::term::framebuffer_color::{FramebufferPixelBGR, FBColor, pixel_of};

verus! {

/// The linear framebuffer: `height` rows of `width` pixels, row after row.
pub struct EFIFrameBuffer {
    pixels: Vec<FramebufferPixelBGR>,
    height: usize,
    width: usize,
}

/// The pixel formats that a graphics mode may report.
#[derive(Clone, Copy, Debug, PartialEq, Eq, Structural)]
pub enum PixelFormat {
    Rgb,
    Bgr,
    Bitmask,
    BltOnly,
}

/// Index in a row-major buffer of `width` columns of the pixel at column `x`, row `y`.
pub open spec fn pixel_index(x: int, y: int, width: int) -> int {
    y * width + x
}

/// Whether the pixel with row-major index `i` lies in columns `[x0, x1)` and
/// rows `[y0, y1)` of a buffer `width` pixels wide.
pub open spec fn in_rect(i: int, width: int, x0: int, x1: int, y0: int, y1: int) -> bool {
    &&& x0 <= i % width < x1
    &&& y0 <= i / width < y1
}

/// `pixels` with every pixel of the rectangle given to `in_rect` set to `p`.
pub open spec fn fill_rect(
    pixels: Seq<FramebufferPixelBGR>,
    width: int,
    x0: int,
    x1: int,
    y0: int,
    y1: int,
    p: FramebufferPixelBGR,
) -> Seq<FramebufferPixelBGR> {
    Seq::new(
        pixels.len(),
        |i: int| if in_rect(i, width, x0, x1, y0, y1) { p } else { pixels[i] },
    )
}

/// `pixels` with the indices `[start, end)` set to `p`.
pub open spec fn fill_span(
    pixels: Seq<FramebufferPixelBGR>,
    start: int,
    end: int,
    p: FramebufferPixelBGR,
) -> Seq<FramebufferPixelBGR> {
    Seq::new(pixels.len(), |i: int| if start <= i < end { p } else { pixels[i] })
}

/// `pixels` moved `offset` places towards the start; the last `offset`
/// pixels keep their old values.
pub open spec fn shifted_left(pixels: Seq<FramebufferPixelBGR>, offset: int) -> Seq<
    FramebufferPixelBGR,
> {
    Seq::new(
        pixels.len(),
        |i: int| if i + offset < pixels.len() { pixels[i + offset] } else { pixels[i] },
    )
}

/// An operation on a framebuffer: drawing a pixel, shifting the pixels
/// left, or painting a span of indices.
#[derive(Clone, Copy, Debug, PartialEq, Eq, Structural)]
pub enum FramebufferOp {
    Draw(usize, usize, FBColor),
    ShiftLeft(usize),
    Fill(usize, usize, FramebufferPixelBGR),
}

/// The pixels of a `width` by `height` framebuffer after one operation, as
/// `draw_pixel`, `shift_left` and `fill` leave them.
pub open spec fn apply_op(
    pixels: Seq<FramebufferPixelBGR>,
    width: int,
    height: int,
    op: FramebufferOp,
) -> Seq<FramebufferPixelBGR> {
    match op {
        FramebufferOp::Draw(x, y, color) => if x < width && y < height {
            pixels.update(pixel_index(x as int, y as int, width), pixel_of(color))
        } else {
            pixels
        },
        FramebufferOp::ShiftLeft(offset) => shifted_left(pixels, offset as int),
        FramebufferOp::Fill(start, end, p) => fill_span(pixels, start as int, end as int, p),
    }
}

/// The pixels after a sequence of operations, first to last.
pub open spec fn apply_ops(
    pixels: Seq<FramebufferPixelBGR>,
    width: int,
    height: int,
    ops: Seq<FramebufferOp>,
) -> Seq<FramebufferPixelBGR>
    decreases ops.len(),
{
    if ops.len() == 0 {
        pixels
    } else {
        apply_op(apply_ops(pixels, width, height, ops.drop_last()), width, height, ops.last())
    }
}

/// No sequence of operations changes the number of pixels: a `width` by
/// `height` framebuffer keeps its `width * height` pixels.
pub proof fn lemma_ops_keep_size(
    pixels: Seq<FramebufferPixelBGR>,
    width: int,
    height: int,
    ops: Seq<FramebufferOp>,
)
    requires
        0 <= width,
        0 <= height,
        pixels.len() == width * height,
    ensures
        apply_ops(pixels, width, height, ops).len() == width * height,
    decreases ops.len(),
{
    if ops.len() > 0 {
        lemma_ops_keep_size(pixels, width, height, ops.drop_last());
        if let FramebufferOp::Draw(x, y, _) = ops.last() {
            if x < width && y < height {
                lemma_pixel_index_bound(x as int, y as int, width, height);
            }
        }
    }
}

/// Index of the last mode whose pixel format is `Bgr`, if any.
pub open spec fn last_bgr_index(formats: Seq<PixelFormat>) -> Option<int>
    decreases formats.len(),
{
    if formats.len() == 0 {
        None
    } else if formats.last() == PixelFormat::Bgr {
        Some(formats.len() - 1)
    } else {
        last_bgr_index(formats.drop_last())
    }
}

/// The decimal digit `d` (below 10) as a character.
pub open spec fn digit_char(d: nat) -> char {
    if d == 0 {
        '0'
    } else if d == 1 {
        '1'
    } else if d == 2 {
        '2'
    } else if d == 3 {
        '3'
    } else if d == 4 {
        '4'
    } else if d == 5 {
        '5'
    } else if d == 6 {
        '6'
    } else if d == 7 {
        '7'
    } else if d == 8 {
        '8'
    } else {
        '9'
    }
}

/// `n` written in decimal, most significant digit first, without leading zeros.
pub open spec fn decimal(n: nat) -> Seq<char>
    decreases n,
{
    if n < 10 {
        seq![digit_char(n)]
    } else {
        decimal(n / 10).push(digit_char(n % 10))
    }
}

/// The one-character string of the decimal digit `d`.
fn digit_str(d: usize) -> (s: &'static str)
    requires
        d < 10,
    ensures
        s@ == seq![digit_char(d as nat)],
{
    proof {
        reveal_strlit("0");
        reveal_strlit("1");
        reveal_strlit("2");
        reveal_strlit("3");
        reveal_strlit("4");
        reveal_strlit("5");
        reveal_strlit("6");
        reveal_strlit("7");
        reveal_strlit("8");
        reveal_strlit("9");
    }
    let s = if d == 0 {
        "0"
    } else if d == 1 {
        "1"
    } else if d == 2 {
        "2"
    } else if d == 3 {
        "3"
    } else if d == 4 {
        "4"
    } else if d == 5 {
        "5"
    } else if d == 6 {
        "6"
    } else if d == 7 {
        "7"
    } else if d == 8 {
        "8"
    } else {
        "9"
    };
    assert(s@ =~= seq![digit_char(d as nat)]);
    s
}

/// Appends `n` in decimal to `s`.
fn push_decimal(s: &mut String, n: usize)
    ensures
        final(s)@ == old(s)@ + decimal(n as nat),
    decreases n,
{
    if n >= 10 {
        push_decimal(s, n / 10);
    }
    s.append(digit_str(n % 10));
    proof {
        if n >= 10 {
            assert(decimal(n as nat) == decimal((n / 10) as nat).push(digit_char((n % 10) as nat)));
        }
    }
    assert(s@ =~= old(s)@ + decimal(n as nat));
}

/// The mode chosen is a `Bgr` mode with no `Bgr` mode after it; no mode is
/// chosen only when none is `Bgr`.
pub proof fn lemma_last_bgr_index(formats: Seq<PixelFormat>)
    ensures
        match last_bgr_index(formats) {
            Some(i) => {
                &&& 0 <= i < formats.len()
                &&& formats[i] == PixelFormat::Bgr
                &&& forall|j: int| i < j < formats.len() ==> #[trigger] formats[j] != PixelFormat::Bgr
            },
            None => forall|j: int| 0 <= j < formats.len() ==> #[trigger] formats[j] != PixelFormat::Bgr,
        },
    decreases formats.len(),
{
    if formats.len() > 0 {
        let prefix = formats.drop_last();
        lemma_last_bgr_index(prefix);
        assert forall|j: int| 0 <= j < prefix.len() implies prefix[j] == formats[j] by {}
        assert(formats.last() == formats[formats.len() - 1]);
    }
}

/// For `x < width`, the pixel at column `x` and row `y` has column `x` and row `y`.
pub proof fn lemma_pixel_index_coords(x: int, y: int, width: int)
    requires
        0 <= x < width,
        0 <= y,
    ensures
        pixel_index(x, y, width) % width == x,
        pixel_index(x, y, width) / width == y,
{
    lemma_fundamental_div_mod_converse(pixel_index(x, y, width), width, y, x);
}

/// A pixel in a buffer of `width * height` pixels lies at a column below
/// `width` and a row below `height`.
pub proof fn lemma_index_in_grid(i: int, width: int, height: int)
    requires
        0 <= i < width * height,
        0 < width,
    ensures
        0 <= i % width < width,
        0 <= i / width < height,
        pixel_index(i % width, i / width, width) == i,
{
    vstd::arithmetic::div_mod::lemma_fundamental_div_mod(i, width);
    vstd::arithmetic::div_mod::lemma_div_pos_is_pos(i, width);
    vstd::arithmetic::div_mod::lemma_mod_pos_bound(i, width);
    vstd::arithmetic::mul::lemma_mul_is_commutative(i / width, width);
    if i / width >= height {
        vstd::arithmetic::mul::lemma_mul_inequality(height, i / width, width);
        vstd::arithmetic::mul::lemma_mul_is_commutative(height, width);
        vstd::arithmetic::mul::lemma_mul_is_commutative(i / width, width);
    }
}

/// A pixel at a column below `width` and a row below `height` has an index
/// below `width * height`.
pub proof fn lemma_pixel_index_bound(x: int, y: int, width: int, height: int)
    requires
        0 <= x < width,
        0 <= y < height,
    ensures
        0 <= pixel_index(x, y, width) < width * height,
{
    assert(0 <= y * width + x < width * height) by (nonlinear_arith)
        requires
            0 <= x < width,
            0 <= y < height,
    ;
}

impl EFIFrameBuffer {
    /// The buffer holds exactly `width * height` pixels, no more than a
    /// Rust allocation can (`isize::MAX`).
    pub closed spec fn wf(&self) -> bool {
        &&& self.pixels.len() == self.width * self.height
        &&& self.pixels.len() <= isize::MAX
    }

    /// The pixels, row after row.
    pub closed spec fn view(&self) -> Seq<FramebufferPixelBGR> {
        self.pixels@
    }

    /// The width in pixels.
    pub closed spec fn spec_width(&self) -> usize {
        self.width
    }

    /// The height in pixels.
    pub closed spec fn spec_height(&self) -> usize {
        self.height
    }

    /// A well-formed framebuffer holds `width * height` pixels.
    pub proof fn lemma_wf_len(&self)
        requires
            self.wf(),
        ensures
            self@.len() == self.spec_width() * self.spec_height(),
            self@.len() <= isize::MAX,
    {
    }

    /// Width and height belong to the framebuffer for good, and every
    /// sequence of operations keeps its pixels at `width * height`, so
    /// every framebuffer it leaves is well formed with the same size.
    pub proof fn lemma_ops_keep_wf(&self, ops: Seq<FramebufferOp>)
        requires
            self.wf(),
        ensures
            apply_ops(self@, self.spec_width() as int, self.spec_height() as int, ops).len()
                == self@.len(),
            self@.len() == self.spec_width() * self.spec_height(),
    {
        lemma_ops_keep_size(self@, self.spec_width() as int, self.spec_height() as int, ops);
    }

    /// A framebuffer over the given pixels, `width` pixels to a row.
    pub fn new(pixels: Vec<FramebufferPixelBGR>, width: usize, height: usize) -> (fb: Self)
        requires
            pixels.len() == width * height,
            pixels.len() <= isize::MAX,
        ensures
            fb.wf(),
            fb@ == pixels@,
            fb.spec_width() == width,
            fb.spec_height() == height,
    {
        EFIFrameBuffer { pixels, height, width }
    }

    /// Moves every pixel `offset` places towards the start of the buffer; the
    /// last `offset` pixels keep their old values.
    pub fn shift_left(&mut self, offset: usize)
        requires
            old(self).wf(),
            offset <= old(self).spec_width() * old(self).spec_height(),
        ensures
            final(self).wf(),
            final(self)@ == shifted_left(old(self)@, offset as int),
            final(self)@ == apply_op(
                old(self)@,
                old(self).spec_width() as int,
                old(self).spec_height() as int,
                FramebufferOp::ShiftLeft(offset),
            ),
            final(self).spec_width() == old(self).spec_width(),
            final(self).spec_height() == old(self).spec_height(),
    {
        let n = self.pixels.len();
        let num_pixels = n - offset;
        let ghost old_pixels = self.pixels@;
        let mut i: usize = 0;
        while i < num_pixels
            invariant
                num_pixels == n - offset,
                n == old_pixels.len(),
                i <= num_pixels,
                self.pixels@.len() == n,
                self.pixels.len() == self.width * self.height,
                self.width == old(self).width,
                self.height == old(self).height,
                forall|j: int| 0 <= j < i ==> self.pixels@[j] == old_pixels[j + offset],
                forall|j: int| i <= j < n ==> self.pixels@[j] == old_pixels[j],
            decreases num_pixels - i,
        {
            let p = self.pixels[i + offset];
            self.pixels.set(i, p);
            i = i + 1;
        }
        assert(self.pixels@ =~= shifted_left(old_pixels, offset as int));
    }

    /// Writes `color` at column `x`, row `y`; a position outside the buffer is ignored.
    pub fn draw_pixel(&mut self, x: usize, y: usize, color: FBColor)
        requires
            old(self).wf(),
        ensures
            final(self).wf(),
            final(self).spec_width() == old(self).spec_width(),
            final(self).spec_height() == old(self).spec_height(),
            x < old(self).spec_width() && y < old(self).spec_height() ==> final(self)@ == old(
                self,
            )@.update(pixel_index(x as int, y as int, old(self).spec_width() as int), pixel_of(color)),
            !(x < old(self).spec_width() && y < old(self).spec_height()) ==> final(self)@ == old(
                self,
            )@,
            final(self)@ == apply_op(
                old(self)@,
                old(self).spec_width() as int,
                old(self).spec_height() as int,
                FramebufferOp::Draw(x, y, color),
            ),
    {
        if x >= self.width || y >= self.height {
            return;
        }
        proof {
            lemma_pixel_index_bound(x as int, y as int, self.width as int, self.height as int);
        }
        self.pixels.set((y * self.width) + x, FramebufferPixelBGR::from(color));
    }

    /// Sets the pixels with indices `[start, end)` to `p`.
    pub fn fill(&mut self, start: usize, end: usize, p: FramebufferPixelBGR)
        requires
            old(self).wf(),
            start <= end <= old(self)@.len(),
        ensures
            final(self).wf(),
            final(self)@ == fill_span(old(self)@, start as int, end as int, p),
            final(self)@ == apply_op(
                old(self)@,
                old(self).spec_width() as int,
                old(self).spec_height() as int,
                FramebufferOp::Fill(start, end, p),
            ),
            final(self).spec_width() == old(self).spec_width(),
            final(self).spec_height() == old(self).spec_height(),
    {
        let ghost old_pixels = self.pixels@;
        let mut i: usize = start;
        while i < end
            invariant
                start <= i <= end,
                end <= old_pixels.len(),
                self.pixels@.len() == old_pixels.len(),
                self.pixels.len() == self.width * self.height,
                self.width == old(self).width,
                self.height == old(self).height,
                forall|j: int|
                    0 <= j < old_pixels.len() ==> self.pixels@[j] == (if start <= j < i {
                        p
                    } else {
                        old_pixels[j]
                    }),
            decreases end - i,
        {
            self.pixels.set(i, p);
            i = i + 1;
        }
        assert(self.pixels@ =~= fill_span(old_pixels, start as int, end as int, p));
    }

    /// The width in pixels.
    pub fn get_width(&self) -> (w: usize)
        ensures
            w == self.spec_width(),
            self.wf() ==> self@.len() == self.spec_width() * self.spec_height(),
            self.wf() ==> self@.len() <= isize::MAX,
    {
        self.width
    }

    /// The height in pixels.
    pub fn get_height(&self) -> (h: usize)
        ensures
            h == self.spec_height(),
            self.wf() ==> self@.len() == self.spec_width() * self.spec_height(),
            self.wf() ==> self@.len() <= isize::MAX,
    {
        self.height
    }

    /// The framebuffer's size as text: `(height-width)`, both in decimal.
    pub fn debug_text(&self) -> (text: String)
        ensures
            text@ == seq!['('] + decimal(self.spec_height() as nat) + seq!['-'] + decimal(
                self.spec_width() as nat,
            ) + seq![')'],
    {
        proof {
            reveal_strlit("(");
            reveal_strlit("-");
            reveal_strlit(")");
        }
        let mut text = String::new();
        text.append("(");
        push_decimal(&mut text, self.height);
        text.append("-");
        push_decimal(&mut text, self.width);
        text.append(")");
        assert(text@ =~= seq!['('] + decimal(self.spec_height() as nat) + seq!['-'] + decimal(
            self.spec_width() as nat,
        ) + seq![')']);
        text
    }

    /// The pixels, row after row.
    pub fn pixels(&self) -> (p: &Vec<FramebufferPixelBGR>)
        ensures
            p@ == self@,
    {
        &self.pixels
    }
}

/// The graphics mode a framebuffer is set up in: the last of the offered
/// modes whose pixel format is `Bgr`, or `None` where no mode has that format.
pub fn select_bgr_mode(formats: &Vec<PixelFormat>) -> (mode: Option<usize>)
    ensures
        match mode {
            Some(i) => last_bgr_index(formats@) == Some(i as int),
            None => last_bgr_index(formats@) is None,
        },
{
    let mut i: usize = formats.len();
    assert(formats@.take(i as int) =~= formats@);
    while i > 0
        invariant
            i <= formats@.len(),
            last_bgr_index(formats@) == last_bgr_index(formats@.take(i as int)),
        decreases i,
    {
        let ghost prefix = formats@.take(i as int);
        assert(prefix.drop_last() =~= formats@.take(i - 1));
        if formats[i - 1] == PixelFormat::Bgr {
            return Some(i - 1);
        }
        i = i - 1;
    }
    None
}

} // verus!
