use vstd::prelude::*;
use vstd::arithmetic::div_mod::{lemma_fundamental_div_mod, lemma_mod_pos_bound};
use crate::term::framebuffer::{
    EFIFrameBuffer, fill_rect, fill_span, pixel_index, shifted_left,
    lemma_pixel_index_coords, lemma_index_in_grid,
};
use crate::term::framebuffer_color::{FBColor, FramebufferPixelBGR, pixel_of};
use ansi_parser::{AnsiParser, Output};

verus! {

/// What one character cell of the terminal holds.
#[derive(Clone, Copy, Debug, PartialEq, Eq, Structural)]
pub enum Tile {
    Character(char),
}

/// A text terminal drawn on a framebuffer, one glyph cell of
/// `character_width` by `character_height` pixels per character, with the
/// cursor at `current_column`, `current_row`.
pub struct FBTerm {
    pub framebuffer: Option<EFIFrameBuffer>,
    pub tiles: Vec<Tile>,
    pub current_column: usize,
    pub current_row: usize,
    pub character_height: usize,
    pub character_width: usize,
    pub max_row: usize,
    pub max_column: usize,
    pub foreground_color: FBColor,
    pub background_color: FBColor,
}

/// The operations of a text terminal.
pub trait Term {
    fn clear(&mut self);

    fn scroll_screen(&mut self);

    fn print_char_at(&mut self, x: usize, y: usize, c: char);

    fn print_ref_str(&mut self, s: &str);

    fn print(&mut self, s: &str);
}

/// The pixels of the terminal's framebuffer (none while it has no framebuffer).
pub open spec fn fb_pixels(t: FBTerm) -> Seq<FramebufferPixelBGR> {
    match t.framebuffer {
        Some(fb) => fb@,
        None => Seq::empty(),
    }
}

/// The width in pixels of the terminal's framebuffer (0 while it has none).
pub open spec fn fb_width(t: FBTerm) -> int {
    match t.framebuffer {
        Some(fb) => fb.spec_width() as int,
        None => 0,
    }
}

/// The height in pixels of the terminal's framebuffer (0 while it has none).
pub open spec fn fb_height(t: FBTerm) -> int {
    match t.framebuffer {
        Some(fb) => fb.spec_height() as int,
        None => 0,
    }
}

/// The framebuffer, where there is one, holds `width * height` pixels; the
/// glyph cells have a positive size; the grid has as many columns and rows
/// as whole cells fit on the screen, and one tile per cell.
pub open spec fn term_wf(t: FBTerm) -> bool {
    match t.framebuffer {
        Some(fb) => {
            &&& fb.wf()
            &&& t.character_width > 0
            &&& t.character_height > 0
            &&& t.max_column == fb.spec_width() / t.character_width
            &&& t.max_row == fb.spec_height() / t.character_height
            &&& t.tiles@.len() == t.max_column * t.max_row
        },
        None => true,
    }
}

/// The fields that only the cursor movement and the framebuffer contents change.
pub open spec fn same_settings(a: FBTerm, b: FBTerm) -> bool {
    &&& a.framebuffer is Some <==> b.framebuffer is Some
    &&& fb_width(a) == fb_width(b)
    &&& fb_height(a) == fb_height(b)
    &&& a.tiles@ == b.tiles@
    &&& a.character_height == b.character_height
    &&& a.character_width == b.character_width
    &&& a.max_row == b.max_row
    &&& a.max_column == b.max_column
    &&& a.foreground_color == b.foreground_color
    &&& a.background_color == b.background_color
}

/// The pixels of the glyph cell at `col`, `row` can be addressed without overflow.
pub open spec fn cell_fits(col: int, row: int, cw: int, ch: int) -> bool {
    &&& (col + 1) * cw <= usize::MAX + 1
    &&& (row + 1) * ch <= usize::MAX + 1
}

/// `pixels` with the glyph cell at `col`, `row` painted `p`.
pub open spec fn cleared_cell(
    pixels: Seq<FramebufferPixelBGR>,
    width: int,
    col: int,
    row: int,
    cw: int,
    ch: int,
    p: FramebufferPixelBGR,
) -> Seq<FramebufferPixelBGR> {
    fill_rect(pixels, width, col * cw, col * cw + cw, row * ch, row * ch + ch, p)
}

/// Painting two rectangles with the same rows side by side, `[x0, x1)`
/// and `[x1, x2)`, in either order, paints the rectangle `[x0, x2)`.
pub proof fn lemma_fill_rect_join(
    pixels: Seq<FramebufferPixelBGR>,
    width: int,
    x0: int,
    x1: int,
    x2: int,
    y0: int,
    y1: int,
    p: FramebufferPixelBGR,
)
    requires
        x0 <= x1 <= x2,
    ensures
        fill_rect(fill_rect(pixels, width, x1, x2, y0, y1, p), width, x0, x1, y0, y1, p)
            == fill_rect(pixels, width, x0, x2, y0, y1, p),
        fill_rect(fill_rect(pixels, width, x0, x1, y0, y1, p), width, x1, x2, y0, y1, p)
            == fill_rect(pixels, width, x0, x2, y0, y1, p),
{
    assert(fill_rect(fill_rect(pixels, width, x1, x2, y0, y1, p), width, x0, x1, y0, y1, p)
        =~= fill_rect(pixels, width, x0, x2, y0, y1, p));
    assert(fill_rect(fill_rect(pixels, width, x0, x1, y0, y1, p), width, x1, x2, y0, y1, p)
        =~= fill_rect(pixels, width, x0, x2, y0, y1, p));
}

/// A rectangle with no columns leaves the pixels as they are.
pub proof fn lemma_fill_rect_empty(
    pixels: Seq<FramebufferPixelBGR>,
    width: int,
    x0: int,
    y0: int,
    y1: int,
    p: FramebufferPixelBGR,
)
    ensures
        fill_rect(pixels, width, x0, x0, y0, y1, p) == pixels,
{
    assert(fill_rect(pixels, width, x0, x0, y0, y1, p) =~= pixels);
}

/// Painting the pixel at column `x`, row `y` extends a one-column rectangle
/// that ends at row `y` by that row; a position outside the buffer adds
/// nothing to the rectangle.
proof fn lemma_fill_rect_grow(
    pixels: Seq<FramebufferPixelBGR>,
    width: int,
    height: int,
    x: int,
    y0: int,
    y: int,
    p: FramebufferPixelBGR,
)
    requires
        0 <= width,
        0 <= height,
        0 <= x,
        0 <= y0 <= y,
        pixels.len() == width * height,
    ensures
        x < width && y < height ==> fill_rect(pixels, width, x, x + 1, y0, y + 1, p) == fill_rect(
            pixels,
            width,
            x,
            x + 1,
            y0,
            y,
            p,
        ).update(pixel_index(x, y, width), p),
        !(x < width && y < height) ==> fill_rect(pixels, width, x, x + 1, y0, y + 1, p)
            == fill_rect(pixels, width, x, x + 1, y0, y, p),
{
    let a = fill_rect(pixels, width, x, x + 1, y0, y + 1, p);
    let b = fill_rect(pixels, width, x, x + 1, y0, y, p);
    if width == 0 {
        assert(a =~= b);
    } else {
        assert forall|i: int| 0 <= i < pixels.len() implies #[trigger] a[i] == (if i == pixel_index(
            x,
            y,
            width,
        ) && x < width && y < height {
            p
        } else {
            b[i]
        }) by {
            lemma_index_in_grid(i, width, height);
            if x < width && y < height {
                lemma_pixel_index_coords(x, y, width);
            }
        }
        if x < width && y < height {
            lemma_pixel_index_coords(x, y, width);
            vstd::arithmetic::mul::lemma_mul_inequality(y, height - 1, width);
            assert(pixel_index(x, y, width) < pixels.len()) by (nonlinear_arith)
                requires
                    x < width,
                    y * width <= (height - 1) * width,
                    pixels.len() == width * height,
                    pixel_index(x, y, width) == y * width + x,
            ;
            assert(a =~= b.update(pixel_index(x, y, width), p));
        } else {
            assert(a =~= b);
        }
    }
}

/// A piece of a string split at its ANSI escape sequences: the characters
/// of a run of text, or an escape sequence.
#[derive(Debug, PartialEq, Eq)]
pub enum AnsiBlock {
    Text(Vec<char>),
    Escape,
}

/// The pieces that `ansi_parser` splits a string into: `Some` with the
/// characters of a run of text, `None` for an escape sequence.
pub uninterp spec fn ansi_blocks(s: Seq<char>) -> Seq<Option<Seq<char>>>;

/// What an `AnsiBlock` holds, as `ansi_blocks` gives it.
pub open spec fn block_view(b: AnsiBlock) -> Option<Seq<char>> {
    match b {
        AnsiBlock::Text(t) => Some(t@),
        AnsiBlock::Escape => None,
    }
}

/// The characters of the text runs, in order, escape sequences left out.
pub open spec fn text_chars(blocks: Seq<Option<Seq<char>>>) -> Seq<char>
    decreases blocks.len(),
{
    if blocks.len() == 0 {
        Seq::empty()
    } else {
        text_chars(blocks.drop_last()) + match blocks.last() {
            Some(t) => t,
            None => Seq::empty(),
        }
    }
}

/// Splits `s` with `ansi_parser`'s `ansi_parse` into text runs and escape
/// sequences.  The blocks are what `ansi_blocks` names; a string without
/// an escape character (U+001B) is one text run, or no block at all when
/// it is empty.
#[verifier::external_body]
fn parse_ansi(s: &str) -> (blocks: Vec<AnsiBlock>)
    ensures
        blocks@.len() == ansi_blocks(s@).len(),
        forall|i: int| 0 <= i < blocks@.len() ==> block_view(#[trigger] blocks@[i]) == ansi_blocks(s@)[i],
        !s@.contains('\u{1b}') ==> blocks@.len() == (if s@.len() == 0 { 0int } else { 1int }),
        !s@.contains('\u{1b}') && s@.len() > 0 ==> block_view(blocks@[0]) == Some(s@),
{
    s.ansi_parse().map(
        |o| match o {
            Output::TextBlock(t) => AnsiBlock::Text(t.chars().collect()),
            Output::Escape(_) => AnsiBlock::Escape,
        },
    ).collect()
}

/// The characters of the text blocks, in order, escape sequences left out.
pub fn text_of_blocks(blocks: &Vec<AnsiBlock>) -> (chars: Vec<char>)
    ensures
        chars@ == text_chars(blocks@.map_values(|b: AnsiBlock| block_view(b))),
{
    let ghost views = blocks@.map_values(|b: AnsiBlock| block_view(b));
    let mut chars: Vec<char> = Vec::new();
    let mut i: usize = 0;
    while i < blocks.len()
        invariant
            i <= blocks@.len(),
            views == blocks@.map_values(|b: AnsiBlock| block_view(b)),
            chars@ == text_chars(views.take(i as int)),
        decreases blocks@.len() - i,
    {
        assert(views.take(i + 1).drop_last() =~= views.take(i as int));
        match &blocks[i] {
            AnsiBlock::Text(t) => {
                let ghost before = chars@;
                let mut j: usize = 0;
                while j < t.len()
                    invariant
                        j <= t@.len(),
                        chars@ == before + t@.take(j as int),
                    decreases t@.len() - j,
                {
                    chars.push(t[j]);
                    j = j + 1;
                    assert(chars@ =~= before + t@.take(j as int));
                }
                assert(t@.take(j as int) =~= t@);
            },
            AnsiBlock::Escape => {
                assert(chars@ =~= chars@ + Seq::<char>::empty());
            },
        }
        i = i + 1;
    }
    assert(views.take(i as int) =~= views);
    chars
}

/// The characters that printing `s` puts through the terminal: the text
/// runs of `s`, in order, with its ANSI escape sequences left out.  A
/// string without an escape character comes back whole.
pub fn printable_text(s: &str) -> (chars: Vec<char>)
    ensures
        chars@ == text_chars(ansi_blocks(s@)),
        !s@.contains('\u{1b}') ==> chars@ == s@,
{
    let blocks = parse_ansi(s);
    let chars = text_of_blocks(&blocks);
    proof {
        assert(blocks@.map_values(|b: AnsiBlock| block_view(b)) =~= ansi_blocks(s@));
        if !s@.contains('\u{1b}') {
            if s@.len() == 0 {
                assert(ansi_blocks(s@) =~= Seq::<Option<Seq<char>>>::empty());
            } else {
                assert(block_view(blocks@[0]) == ansi_blocks(s@)[0]);
                assert(ansi_blocks(s@).last() == Some(s@));
                assert(ansi_blocks(s@).drop_last() =~= Seq::<Option<Seq<char>>>::empty());
                assert(text_chars(ansi_blocks(s@).drop_last()) =~= Seq::<char>::empty());
                assert(text_chars(ansi_blocks(s@)) =~= s@);
            }
        }
    }
    chars
}

/// Where the cursor goes for `c`, before wrapping at the right edge: a
/// newline starts the next row, a carriage return goes back to column 0, a
/// tab moves four columns on, a backspace one column back (not past column
/// 0), any other character one column on.
pub open spec fn moved_cursor(col: int, row: int, c: char) -> (int, int) {
    if c == '\n' {
        (0, row + 1)
    } else if c == '\r' {
        (0, row)
    } else if c == '\t' {
        (col + 4, row)
    } else if c == '\x08' {
        if col > 0 {
            (col - 1, row)
        } else {
            (col, row)
        }
    } else {
        (col + 1, row)
    }
}

/// A cursor at or past the last column moves to the start of the next row.
pub open spec fn wrapped_cursor(pos: (int, int), max_column: int) -> (int, int) {
    if pos.0 >= max_column {
        (0, pos.1 + 1)
    } else {
        pos
    }
}

/// The cursor after `c`, before any scrolling.
pub open spec fn advanced_cursor(t: FBTerm, c: char) -> (int, int) {
    wrapped_cursor(
        moved_cursor(t.current_column as int, t.current_row as int, c),
        t.max_column as int,
    )
}

/// Whether `c` scrolls the screen: there is a framebuffer and the cursor
/// has gone past the last row.
pub open spec fn scrolls(t: FBTerm, c: char) -> bool {
    t.framebuffer is Some && advanced_cursor(t, c).1 >= t.max_row
}

/// The cursor after `c`: scrolling moves it one row up.
pub open spec fn next_cursor(t: FBTerm, c: char) -> (int, int) {
    let p = advanced_cursor(t, c);
    if scrolls(t, c) {
        (p.0, p.1 - 1)
    } else {
        p
    }
}

/// The framebuffer after the erasing that `c` does: a carriage return
/// erases the cells left of the cursor on its row, a backspace the cell it
/// moves back onto; erasing paints the background color.
pub open spec fn erased_pixels(t: FBTerm, c: char) -> Seq<FramebufferPixelBGR> {
    let col = t.current_column as int;
    let row = t.current_row as int;
    let cw = t.character_width as int;
    let ch = t.character_height as int;
    let bg = pixel_of(t.background_color);
    if t.framebuffer is None {
        fb_pixels(t)
    } else if c == '\r' {
        fill_rect(fb_pixels(t), fb_width(t), 0, col * cw, row * ch, row * ch + ch, bg)
    } else if c == '\x08' && col > 0 {
        cleared_cell(fb_pixels(t), fb_width(t), col - 1, row, cw, ch, bg)
    } else {
        fb_pixels(t)
    }
}

/// The framebuffer scrolled up by one text line of `line` pixels (a cell's
/// height times the width), with the last of `max_row` text lines painted `bg`.
pub open spec fn scrolled_pixels(
    pixels: Seq<FramebufferPixelBGR>,
    line: int,
    max_row: int,
    bg: FramebufferPixelBGR,
) -> Seq<FramebufferPixelBGR> {
    fill_span(shifted_left(pixels, line), line * (max_row - 1), line * max_row, bg)
}

/// The framebuffer after `c` has moved the cursor.
pub open spec fn next_pixels(t: FBTerm, c: char) -> Seq<FramebufferPixelBGR> {
    if scrolls(t, c) {
        scrolled_pixels(
            erased_pixels(t, c),
            t.character_height * fb_width(t),
            t.max_row as int,
            pixel_of(t.background_color),
        )
    } else {
        erased_pixels(t, c)
    }
}

/// The inputs on which moving the cursor for `c` stays within `usize` and,
/// with a framebuffer, finds at least one row to scroll within.
pub open spec fn step_ok(t: FBTerm, c: char) -> bool {
    let m = moved_cursor(t.current_column as int, t.current_row as int, c);
    &&& m.0 <= usize::MAX
    &&& advanced_cursor(t, c).1 <= usize::MAX
    &&& t.framebuffer is Some ==> t.max_row >= 1
    &&& (t.framebuffer is Some && (c == '\r' || c == '\x08') && t.current_column > 0)
        ==> cell_fits(
        t.current_column - 1,
        t.current_row as int,
        t.character_width as int,
        t.character_height as int,
    )
}

/// The part of a terminal that printing moves: cursor column, cursor row
/// and the framebuffer's pixels.
pub open spec fn term_view(t: FBTerm) -> (int, int, Seq<FramebufferPixelBGR>) {
    (t.current_column as int, t.current_row as int, fb_pixels(t))
}

/// `update_location(c)` from state `s` on a terminal with `t`'s settings
/// (grid, cell size, colors, framebuffer size).
pub open spec fn term_step(t: FBTerm, s: (int, int, Seq<FramebufferPixelBGR>), c: char) -> (
    int,
    int,
    Seq<FramebufferPixelBGR>,
) {
    let col = s.0;
    let row = s.1;
    let cw = t.character_width as int;
    let ch = t.character_height as int;
    let w = fb_width(t);
    let bg = pixel_of(t.background_color);
    let p = wrapped_cursor(moved_cursor(col, row, c), t.max_column as int);
    let erased = if t.framebuffer is None {
        s.2
    } else if c == '\r' {
        fill_rect(s.2, w, 0, col * cw, row * ch, row * ch + ch, bg)
    } else if c == '\x08' && col > 0 {
        cleared_cell(s.2, w, col - 1, row, cw, ch, bg)
    } else {
        s.2
    };
    if t.framebuffer is Some && p.1 >= t.max_row {
        (p.0, p.1 - 1, scrolled_pixels(erased, ch * w, t.max_row as int, bg))
    } else {
        (p.0, p.1, erased)
    }
}

/// The characters `cs`, first to last, put through `update_location` from
/// state `s` on a terminal with `t`'s settings.
pub open spec fn term_run(t: FBTerm, s: (int, int, Seq<FramebufferPixelBGR>), cs: Seq<char>) -> (
    int,
    int,
    Seq<FramebufferPixelBGR>,
)
    decreases cs.len(),
{
    if cs.len() == 0 {
        s
    } else {
        term_step(t, term_run(t, s, cs.drop_last()), cs.last())
    }
}

/// `term_step` from the terminal's own state is `update_location`'s
/// `next_cursor` and `next_pixels`.
pub proof fn lemma_term_step_matches(t: FBTerm, c: char)
    ensures
        term_step(t, term_view(t), c) == (next_cursor(t, c).0, next_cursor(t, c).1, next_pixels(
            t,
            c,
        )),
{
}

/// Terminals with the same settings move the same way.
pub proof fn lemma_run_same_settings(
    a: FBTerm,
    b: FBTerm,
    s: (int, int, Seq<FramebufferPixelBGR>),
    cs: Seq<char>,
)
    requires
        same_settings(a, b),
    ensures
        term_run(a, s, cs) == term_run(b, s, cs),
    decreases cs.len(),
{
    if cs.len() > 0 {
        lemma_run_same_settings(a, b, s, cs.drop_last());
    }
}

/// Printing one character is one `update_location`.
pub proof fn lemma_run_single(t: FBTerm, s: (int, int, Seq<FramebufferPixelBGR>), c: char)
    ensures
        term_run(t, s, seq![c]) == term_step(t, s, c),
{
    assert(seq![c].drop_last() =~= Seq::<char>::empty());
    assert(term_run(t, s, Seq::<char>::empty()) == s);
}

/// Printing `a` followed by `b` is printing `a` and then printing `b`.
pub proof fn lemma_run_concat(
    t: FBTerm,
    s: (int, int, Seq<FramebufferPixelBGR>),
    a: Seq<char>,
    b: Seq<char>,
)
    ensures
        term_run(t, s, a + b) == term_run(t, term_run(t, s, a), b),
    decreases b.len(),
{
    if b.len() == 0 {
        assert(a + b =~= a);
    } else {
        lemma_run_concat(t, s, a, b.drop_last());
        assert((a + b).drop_last() =~= a + b.drop_last());
        assert((a + b).last() == b.last());
    }
}

/// Two strings without escape characters joined have none either, so
/// `printable_text` gives each whole; printing the joined string moves the
/// terminal as printing the first and then the second does.
pub proof fn lemma_plain_text_concat(
    t: FBTerm,
    s: (int, int, Seq<FramebufferPixelBGR>),
    a: Seq<char>,
    b: Seq<char>,
)
    requires
        !a.contains('\u{1b}'),
        !b.contains('\u{1b}'),
    ensures
        !(a + b).contains('\u{1b}'),
        term_run(t, s, a + b) == term_run(t, term_run(t, s, a), b),
{
    lemma_run_concat(t, s, a, b);
    if (a + b).contains('\u{1b}') {
        let i = choose|i: int| 0 <= i < (a + b).len() && (a + b)[i] == '\u{1b}';
        if i < a.len() {
            assert(a[i] == '\u{1b}');
        } else {
            assert(b[i - a.len()] == '\u{1b}');
        }
    }
}

/// The text of two runs of blocks, one after the other, is the text of the
/// first followed by the text of the second.
pub proof fn lemma_text_chars_concat(x: Seq<Option<Seq<char>>>, y: Seq<Option<Seq<char>>>)
    ensures
        text_chars(x + y) == text_chars(x) + text_chars(y),
    decreases y.len(),
{
    if y.len() == 0 {
        assert(x + y =~= x);
        assert(text_chars(x) + text_chars(y) =~= text_chars(x));
    } else {
        lemma_text_chars_concat(x, y.drop_last());
        assert((x + y).drop_last() =~= x + y.drop_last());
        assert((x + y).last() == y.last());
        assert(text_chars(x + y) =~= text_chars(x) + text_chars(y));
    }
}

/// An escape sequence between text runs adds nothing to what is printed:
/// the text of `x`, an escape block, then `y` is the text of `x` then `y`.
pub proof fn lemma_escape_prints_nothing(x: Seq<Option<Seq<char>>>, y: Seq<Option<Seq<char>>>)
    ensures
        text_chars(x + seq![None] + y) == text_chars(x + y),
{
    lemma_text_chars_concat(x + seq![None], y);
    lemma_text_chars_concat(x, seq![None]);
    lemma_text_chars_concat(x, y);
    assert(seq![None::<Seq<char>>].drop_last() =~= Seq::<Option<Seq<char>>>::empty());
    assert(text_chars(Seq::<Option<Seq<char>>>::empty()) =~= Seq::<char>::empty());
    assert(text_chars(seq![None::<Seq<char>>]) =~= Seq::<char>::empty());
    assert(text_chars(x) + Seq::<char>::empty() =~= text_chars(x));
}

/// A newline always leaves the cursor at column 0.
pub proof fn lemma_newline_column_zero(t: FBTerm)
    ensures
        next_cursor(t, '\n').0 == 0,
{
}

/// Where each kind of character leaves a cursor on the grid: a newline
/// goes to column 0 of the next row, a carriage return to column 0 of the
/// same row, a tab four columns on, a backspace one column back (not past
/// column 0), any other character one column on; a cursor that reaches the
/// last column goes to column 0 of the next row, and from the last row the
/// screen scrolls, so the cursor stays on the last row.
pub proof fn lemma_cursor_moves(t: FBTerm, c: char)
    requires
        cursor_in_grid(t),
    ensures
        ({
            let col = t.current_column as int;
            let row = t.current_row as int;
            let down = if row + 1 == t.max_row {
                row
            } else {
                row + 1
            };
            let ahead = |n: int|
                if col + n < t.max_column {
                    (col + n, row)
                } else {
                    (0, down)
                };
            &&& c == '\n' ==> next_cursor(t, c) == (0int, down)
            &&& c == '\r' ==> next_cursor(t, c) == (0int, row)
            &&& c == '\t' ==> next_cursor(t, c) == ahead(4)
            &&& c == '\x08' ==> next_cursor(t, c) == (if col > 0 {
                col - 1
            } else {
                0
            }, row)
            &&& (c != '\n' && c != '\r' && c != '\t' && c != '\x08') ==> next_cursor(t, c) == ahead(
                1,
            )
        }),
{
}

/// Scrolling moves every text line but the first one line up, paints the
/// last text line (`line * (max_row - 1)` up to `line * max_row`) in the
/// background color; pixels below the grid move up by a line too, where
/// there is a line below them, and stay otherwise.
pub proof fn lemma_scroll_moves_lines_up(
    pixels: Seq<FramebufferPixelBGR>,
    line: int,
    max_row: int,
    bg: FramebufferPixelBGR,
)
    requires
        line >= 0,
        max_row >= 1,
        line * max_row <= pixels.len(),
    ensures
        scrolled_pixels(pixels, line, max_row, bg).len() == pixels.len(),
        forall|i: int|
            0 <= i < line * (max_row - 1) ==> #[trigger] scrolled_pixels(pixels, line, max_row, bg)[i]
                == pixels[i + line],
        forall|i: int|
            line * (max_row - 1) <= i < line * max_row ==> #[trigger] scrolled_pixels(
                pixels,
                line,
                max_row,
                bg,
            )[i] == bg,
        forall|i: int|
            line * max_row <= i < pixels.len() ==> #[trigger] scrolled_pixels(pixels, line, max_row, bg)[i]
                == (if i + line < pixels.len() {
                pixels[i + line]
            } else {
                pixels[i]
            }),
{
    assert(line * (max_row - 1) + line == line * max_row) by (nonlinear_arith);
    assert(line * (max_row - 1) >= 0) by (nonlinear_arith)
        requires
            line >= 0,
            max_row >= 1,
    ;
}

/// The terminal has a framebuffer at least one cell wide and high, and the
/// cursor is on the grid.
pub open spec fn cursor_in_grid(t: FBTerm) -> bool {
    &&& t.framebuffer is Some
    &&& 1 <= t.max_column
    &&& 1 <= t.max_row
    &&& t.current_column < t.max_column
    &&& t.current_row < t.max_row
}

/// A terminal whose cursor is on the grid can take any character, and its
/// cursor stays on the grid.
pub proof fn lemma_cursor_stays_in_grid(t: FBTerm, c: char)
    requires
        term_wf(t),
        cursor_in_grid(t),
    ensures
        step_ok(t, c),
        0 <= next_cursor(t, c).0 < t.max_column,
        0 <= next_cursor(t, c).1 < t.max_row,
{
    let fb = t.framebuffer.unwrap();
    let cw = t.character_width as int;
    let ch = t.character_height as int;
    let w = fb.spec_width() as int;
    let h = fb.spec_height() as int;
    let mc = t.max_column as int;
    let mr = t.max_row as int;
    fb.lemma_wf_len();
    lemma_fundamental_div_mod(w, cw);
    lemma_fundamental_div_mod(h, ch);
    lemma_mod_pos_bound(w, cw);
    lemma_mod_pos_bound(h, ch);
    assert(w <= w * h) by (nonlinear_arith)
        requires
            ch * mr <= h,
            mr >= 1,
            ch >= 1,
            w >= 0,
    ;
    assert(t.current_column + 4 <= usize::MAX);
    if t.current_column > 0 {
        let col = t.current_column as int;
        let row = t.current_row as int;
        assert(cell_fits(col - 1, row, cw, ch)) by (nonlinear_arith)
            requires
                1 <= col < mc,
                0 <= row < mr,
                cw * mc <= w,
                ch * mr <= h,
                cw >= 1,
                ch >= 1,
                w <= usize::MAX,
                h <= usize::MAX,
        ;
    }
}

/// Whether `c` is a control character (Unicode general category Cc):
/// U+0000 to U+001F and U+007F to U+009F.
pub open spec fn spec_is_control(c: char) -> bool {
    ||| (c as u32) <= 0x1f
    ||| (0x7f <= (c as u32) && (c as u32) <= 0x9f)
}

/// Whether `c` is a control character (Unicode general category Cc).
pub fn is_control(c: char) -> (b: bool)
    ensures
        b == spec_is_control(c),
{
    let v = c as u32;
    v <= 0x1f || (0x7f <= v && v <= 0x9f)
}

impl FBTerm {
    /// A terminal without a framebuffer, whose glyph cells are
    /// `character_width` by `character_height` pixels: cursor at the top
    /// left, no grid, pink text on black.
    pub fn new_unset(character_width: usize, character_height: usize) -> (t: Self)
        ensures
            term_wf(t),
            t.framebuffer is None,
            t.tiles@.len() == 0,
            t.current_column == 0,
            t.current_row == 0,
            t.character_width == character_width,
            t.character_height == character_height,
            t.max_column == 0,
            t.max_row == 0,
            t.foreground_color == FBColor::Pink,
            t.background_color == FBColor::Rgb(0, 0, 0),
    {
        FBTerm {
            framebuffer: None,
            tiles: Vec::new(),
            current_column: 0,
            current_row: 0,
            character_height,
            character_width,
            max_column: 0,
            max_row: 0,
            foreground_color: FBColor::Pink,
            background_color: FBColor::Rgb(0, 0, 0),
        }
    }

    /// Sets the color that clearing, erasing and scrolling paint.
    pub fn set_background(&mut self, color: FBColor)
        ensures
            final(self).background_color == color,
            final(self).framebuffer == old(self).framebuffer,
            final(self).tiles@ == old(self).tiles@,
            final(self).current_column == old(self).current_column,
            final(self).current_row == old(self).current_row,
            final(self).character_height == old(self).character_height,
            final(self).character_width == old(self).character_width,
            final(self).max_row == old(self).max_row,
            final(self).max_column == old(self).max_column,
            final(self).foreground_color == old(self).foreground_color,
    {
        self.background_color = color;
    }

    /// Paints the whole framebuffer, where there is one, in the background color.
    pub fn clear(&mut self)
        requires
            term_wf(*old(self)),
        ensures
            term_wf(*final(self)),
            same_settings(*old(self), *final(self)),
            final(self).current_column == old(self).current_column,
            final(self).current_row == old(self).current_row,
            fb_pixels(*final(self)) == Seq::new(
                fb_pixels(*old(self)).len(),
                |i: int| pixel_of(old(self).background_color),
            ),
    {
        let bg = FramebufferPixelBGR::from(self.background_color);
        if let Some(fb) = &mut self.framebuffer {
            let w = fb.get_width();
            let h = fb.get_height();
            fb.fill(0, w * h, bg);
            assert(fb@ =~= Seq::new(fb@.len(), |i: int| bg));
        }
    }

    /// Scrolls the screen up by one text line: the framebuffer moves up by
    /// a cell's height of pixels, the last text line is painted in the
    /// background color and the cursor moves one row up.  Without a
    /// framebuffer nothing changes.
    pub fn scroll_screen(&mut self)
        requires
            term_wf(*old(self)),
            old(self).framebuffer is Some ==> old(self).max_row >= 1 && old(self).current_row >= 1,
        ensures
            term_wf(*final(self)),
            same_settings(*old(self), *final(self)),
            final(self).current_column == old(self).current_column,
            old(self).framebuffer is None ==> final(self).current_row == old(self).current_row
                && fb_pixels(*final(self)) == fb_pixels(*old(self)),
            old(self).framebuffer is Some ==> final(self).current_row == old(self).current_row - 1
                && fb_pixels(*final(self)) == scrolled_pixels(
                fb_pixels(*old(self)),
                old(self).character_height * fb_width(*old(self)),
                old(self).max_row as int,
                pixel_of(old(self).background_color),
            ),
    {
        let bg = FramebufferPixelBGR::from(self.background_color);
        if let Some(fb) = &mut self.framebuffer {
            let w = fb.get_width();
            let h = fb.get_height();
            let ch = self.character_height;
            let mr = self.max_row;
            proof {
                lemma_fundamental_div_mod(h as int, ch as int);
                lemma_mod_pos_bound(h as int, ch as int);
                assert(ch * w * mr <= w * h && ch * w * (mr - 1) + ch * w == ch * w * mr)
                    by (nonlinear_arith)
                    requires
                        ch * mr <= h,
                        mr >= 1,
                        w >= 0,
                        ch >= 1,
                ;
            }
            let end_pixel = self.character_height * fb.get_width() * (self.max_row - 1);
            let line_offset = self.character_height * fb.get_width();

            fb.shift_left(line_offset);

            fb.fill(end_pixel, end_pixel + line_offset, bg);
            self.current_row = self.current_row - 1;
        }
    }

    /// Paints the glyph cell under the cursor in the background color.
    fn clear_char(&mut self)
        requires
            term_wf(*old(self)),
            old(self).framebuffer is Some ==> cell_fits(
                old(self).current_column as int,
                old(self).current_row as int,
                old(self).character_width as int,
                old(self).character_height as int,
            ),
        ensures
            term_wf(*final(self)),
            same_settings(*old(self), *final(self)),
            final(self).current_column == old(self).current_column,
            final(self).current_row == old(self).current_row,
            fb_pixels(*final(self)) == (if old(self).framebuffer is Some {
                cleared_cell(
                    fb_pixels(*old(self)),
                    fb_width(*old(self)),
                    old(self).current_column as int,
                    old(self).current_row as int,
                    old(self).character_width as int,
                    old(self).character_height as int,
                    pixel_of(old(self).background_color),
                )
            } else {
                fb_pixels(*old(self))
            }),
    {
        let ghost p0 = fb_pixels(*self);
        let ghost w = fb_width(*self);
        let ghost hh = fb_height(*self);
        let ghost bg = pixel_of(self.background_color);
        let ghost x0 = self.current_column * self.character_width;
        let ghost y0 = self.current_row * self.character_height;
        let cw = self.character_width;
        let ch = self.character_height;
        proof {
            if self.framebuffer is Some {
                self.framebuffer.unwrap().lemma_wf_len();
                let col = self.current_column as int;
                let row = self.current_row as int;
                assert(col * cw + cw <= usize::MAX + 1 && row * ch + ch <= usize::MAX + 1)
                    by (nonlinear_arith)
                    requires
                        cell_fits(col, row, cw as int, ch as int),
                ;
                lemma_fill_rect_empty(p0, w, x0, y0, y0 + ch, bg);
            }
        }
        let mut x: usize = 0;
        while x < cw
            invariant
                x <= cw,
                cw == self.character_width,
                ch == self.character_height,
                term_wf(*self),
                same_settings(*old(self), *self),
                self.current_column == old(self).current_column,
                self.current_row == old(self).current_row,
                p0 == fb_pixels(*old(self)),
                w == fb_width(*old(self)),
                hh == fb_height(*old(self)),
                bg == pixel_of(self.background_color),
                x0 == self.current_column * cw,
                y0 == self.current_row * ch,
                self.framebuffer is Some ==> x0 + cw <= usize::MAX + 1 && y0 + ch <= usize::MAX
                    + 1,
                self.framebuffer is Some ==> p0.len() == w * hh && w >= 0 && hh >= 0,
                fb_pixels(*self) == (if self.framebuffer is Some {
                    fill_rect(p0, w, x0, x0 + x, y0, y0 + ch, bg)
                } else {
                    p0
                }),
            decreases cw - x,
        {
            let ghost left = fill_rect(p0, w, x0, x0 + x, y0, y0 + ch, bg);
            proof {
                if self.framebuffer is Some {
                    lemma_fill_rect_empty(left, w, x0 + x, y0, y0, bg);
                }
            }
            let mut y: usize = 0;
            while y < ch
                invariant
                    y <= ch,
                    x < cw,
                    cw == self.character_width,
                    ch == self.character_height,
                    term_wf(*self),
                    same_settings(*old(self), *self),
                    self.current_column == old(self).current_column,
                    self.current_row == old(self).current_row,
                    p0 == fb_pixels(*old(self)),
                    w == fb_width(*old(self)),
                    hh == fb_height(*old(self)),
                    bg == pixel_of(self.background_color),
                    x0 == self.current_column * cw,
                    y0 == self.current_row * ch,
                    self.framebuffer is Some ==> x0 + cw <= usize::MAX + 1 && y0 + ch
                        <= usize::MAX + 1,
                    self.framebuffer is Some ==> p0.len() == w * hh && w >= 0 && hh >= 0,
                    left == fill_rect(p0, w, x0, x0 + x, y0, y0 + ch, bg),
                    fb_pixels(*self) == (if self.framebuffer is Some {
                        fill_rect(left, w, x0 + x, x0 + x + 1, y0, y0 + y, bg)
                    } else {
                        p0
                    }),
                decreases ch - y,
            {
                if let Some(fb) = &mut self.framebuffer {
                    proof {
                        lemma_fill_rect_grow(
                            left,
                            w,
                            hh,
                            x0 + x,
                            y0 as int,
                            y0 + y,
                            bg,
                        );
                    }
                    fb.draw_pixel(
                        self.current_column * self.character_width + x,
                        self.current_row * self.character_height + y,
                        self.background_color,
                    );
                }
                y = y + 1;
            }
            proof {
                if self.framebuffer is Some {
                    lemma_fill_rect_join(p0, w, x0, x0 + x, x0 + x + 1, y0, y0 + ch, bg);
                    assert(fill_rect(left, w, x0 + x, x0 + x + 1, y0, y0 + ch, bg) == fill_rect(
                        p0,
                        w,
                        x0,
                        x0 + x + 1,
                        y0,
                        y0 + ch,
                        bg,
                    ));
                }
            }
            x = x + 1;
        }
    }

    /// Moves the cursor for `character` (see `moved_cursor`), wraps it to
    /// the next row at the right edge and scrolls the screen when it has
    /// gone past the last row; a carriage return erases the cells left of
    /// the cursor, a backspace the cell it moves back onto.
    pub fn update_location(&mut self, character: char)
        requires
            term_wf(*old(self)),
            step_ok(*old(self), character),
        ensures
            term_wf(*final(self)),
            same_settings(*old(self), *final(self)),
            final(self).current_column == next_cursor(*old(self), character).0,
            final(self).current_row == next_cursor(*old(self), character).1,
            fb_pixels(*final(self)) == next_pixels(*old(self), character),
            term_view(*final(self)) == term_step(*old(self), term_view(*old(self)), character),
    {
        let ghost t0 = *self;
        let ghost p0 = fb_pixels(*self);
        let ghost w = fb_width(*self);
        let ghost col0 = self.current_column as int;
        let ghost row = self.current_row as int;
        let ghost cw = self.character_width as int;
        let ghost ch = self.character_height as int;
        let ghost bg = pixel_of(self.background_color);
        match character {
            '\n' => {
                self.current_row = self.current_row + 1;
                self.current_column = 0;
            },
            '\r' => {
                proof {
                    if self.framebuffer is Some {
                        lemma_fill_rect_empty(p0, w, col0 * cw, row * ch, row * ch + ch, bg);
                    }
                }
                while self.current_column > 0
                    invariant
                        term_wf(*self),
                        same_settings(t0, *self),
                        self.current_row == row,
                        0 <= self.current_column <= col0,
                        col0 == t0.current_column,
                        cw == t0.character_width,
                        ch == t0.character_height,
                        p0 == fb_pixels(t0),
                        w == fb_width(t0),
                        bg == pixel_of(t0.background_color),
                        self.framebuffer is Some && col0 > 0 ==> cell_fits(col0 - 1, row, cw, ch),
                        fb_pixels(*self) == (if self.framebuffer is Some {
                            fill_rect(
                                p0,
                                w,
                                self.current_column * cw,
                                col0 * cw,
                                row * ch,
                                row * ch + ch,
                                bg,
                            )
                        } else {
                            p0
                        }),
                    decreases self.current_column,
                {
                    let ghost k = self.current_column as int;
                    self.current_column = self.current_column - 1;
                    proof {
                        if self.framebuffer is Some {
                            assert((k - 1) * cw + cw == k * cw && (k - 1) * cw <= k * cw
                                && k * cw <= col0 * cw && cell_fits(k - 1, row, cw, ch))
                                by (nonlinear_arith)
                                requires
                                    1 <= k <= col0,
                                    cw >= 1,
                                    cell_fits(col0 - 1, row, cw, ch),
                            ;
                            lemma_fill_rect_join(
                                p0,
                                w,
                                (k - 1) * cw,
                                k * cw,
                                col0 * cw,
                                row * ch,
                                row * ch + ch,
                                bg,
                            );
                        }
                    }
                    self.clear_char();
                }
            },
            '\t' => {
                self.current_column = self.current_column + 4;
            },
            '\x08' => {
                if self.current_column > 0 {
                    self.current_column = self.current_column - 1;
                    self.clear_char();
                }
            },
            _ => {
                self.current_column = self.current_column + 1;
            },
        }

        if self.current_column >= self.max_column {
            self.current_row = self.current_row + 1;
            self.current_column = 0;
        }

        if self.current_row >= self.max_row {
            self.scroll_screen();
        }
        proof {
            lemma_term_step_matches(*old(self), character);
        }
    }

    /// The glyph cell in which `c` is drawn: the cursor's cell, or `None`
    /// for a control character, which is not drawn.
    pub fn glyph_cell(&self, c: char) -> (cell: Option<(usize, usize)>)
        ensures
            spec_is_control(c) ==> cell is None,
            !spec_is_control(c) ==> cell == Some((self.current_column, self.current_row)),
    {
        if !is_control(c) {
            Some((self.current_column, self.current_row))
        } else {
            None
        }
    }

    /// Plots one pixel of a glyph at column `x`, row `y` of the
    /// framebuffer: in the foreground color where the glyph covers at least
    /// half of the pixel (`coverage` of 128 or more out of 256), else in the
    /// background color.  Positions off the framebuffer are ignored.
    pub fn draw_glyph_pixel(&mut self, x: usize, y: usize, coverage: u8)
        requires
            term_wf(*old(self)),
        ensures
            term_wf(*final(self)),
            same_settings(*old(self), *final(self)),
            final(self).current_column == old(self).current_column,
            final(self).current_row == old(self).current_row,
            x < fb_width(*old(self)) && y < fb_height(*old(self)) ==> fb_pixels(*final(self))
                == fb_pixels(*old(self)).update(
                pixel_index(x as int, y as int, fb_width(*old(self))),
                pixel_of(
                    if coverage >= 128 {
                        old(self).foreground_color
                    } else {
                        old(self).background_color
                    },
                ),
            ),
            !(x < fb_width(*old(self)) && y < fb_height(*old(self))) ==> fb_pixels(*final(self))
                == fb_pixels(*old(self)),
    {
        let color = if coverage >= 128 {
            self.foreground_color
        } else {
            self.background_color
        };
        if let Some(fb) = &mut self.framebuffer {
            fb.draw_pixel(x, y, color);
        }
    }

    /// Whether `update_location(c)` can run from here: `step_ok`.  Where it
    /// is false, moving the cursor would leave `usize` or scroll a screen
    /// without text rows.
    pub fn can_update_location(&self, c: char) -> (ok: bool)
        ensures
            ok == step_ok(*self, c),
    {
        let limit: u128 = usize::MAX as u128;
        let col: u128 = self.current_column as u128;
        let row: u128 = self.current_row as u128;
        let (moved_col, moved_row): (u128, u128) = if c == '\n' {
            (0, row + 1)
        } else if c == '\r' {
            (0, row)
        } else if c == '\t' {
            (col + 4, row)
        } else if c == '\x08' {
            if col > 0 {
                (col - 1, row)
            } else {
                (col, row)
            }
        } else {
            (col + 1, row)
        };
        let advanced_row: u128 = if moved_col >= self.max_column as u128 {
            moved_row + 1
        } else {
            moved_row
        };
        if moved_col > limit || advanced_row > limit {
            return false;
        }
        if self.framebuffer.is_some() {
            if self.max_row < 1 {
                return false;
            }
            if (c == '\r' || c == '\x08') && col > 0 {
                let cw: u128 = self.character_width as u128;
                let ch: u128 = self.character_height as u128;
                proof {
                    assert(col * cw <= u128::MAX && (row + 1) * ch <= u128::MAX)
                        by (nonlinear_arith)
                        requires
                            col <= limit,
                            cw <= limit,
                            row <= limit,
                            ch <= limit,
                            limit <= 0xffff_ffff_ffff_ffff,
                    ;
                }
                if col * cw > limit + 1 || (row + 1) * ch > limit + 1 {
                    return false;
                }
            }
        }
        true
    }

    /// Installs `framebuffer` and sizes the grid to the whole glyph cells
    /// that fit on it, with one blank tile per cell.  The cursor is left
    /// where it was.
    pub fn set_framebuffer(&mut self, framebuffer: EFIFrameBuffer)
        requires
            framebuffer.wf(),
            old(self).character_width > 0,
            old(self).character_height > 0,
        ensures
            term_wf(*final(self)),
            final(self).framebuffer == Some(framebuffer),
            final(self).max_column == framebuffer.spec_width() / old(self).character_width,
            final(self).max_row == framebuffer.spec_height() / old(self).character_height,
            final(self).tiles@ == Seq::new(
                (final(self).max_column * final(self).max_row) as nat,
                |i: int| Tile::Character(' '),
            ),
            final(self).current_column == old(self).current_column,
            final(self).current_row == old(self).current_row,
            final(self).character_height == old(self).character_height,
            final(self).character_width == old(self).character_width,
            final(self).foreground_color == old(self).foreground_color,
            final(self).background_color == old(self).background_color,
    {
        let width = framebuffer.get_width();
        let height = framebuffer.get_height();

        self.framebuffer = Some(framebuffer);

        let cw = self.character_width;
        let ch = self.character_height;
        proof {
            lemma_fundamental_div_mod(width as int, cw as int);
            lemma_fundamental_div_mod(height as int, ch as int);
            lemma_mod_pos_bound(width as int, cw as int);
            lemma_mod_pos_bound(height as int, ch as int);
            vstd::arithmetic::div_mod::lemma_div_multiples_vanish(
                (width / cw) as int,
                cw as int,
            );
            vstd::arithmetic::div_mod::lemma_div_multiples_vanish(
                (height / ch) as int,
                ch as int,
            );
        }
        self.max_column = (width - (width % cw)) / cw;
        self.max_row = (height - (height % ch)) / ch;
        proof {
            let mc = self.max_column as int;
            let mr = self.max_row as int;
            assert(mc * mr <= (width as int) * (height as int)) by (nonlinear_arith)
                requires
                    cw * mc <= width,
                    ch * mr <= height,
                    cw >= 1,
                    ch >= 1,
                    mc >= 0,
                    mr >= 0,
            ;
        }
        let n = self.max_column * self.max_row;
        let mut tiles: Vec<Tile> = Vec::new();
        let mut i: usize = 0;
        while i < n
            invariant
                i <= n,
                tiles@ == Seq::new(i as nat, |j: int| Tile::Character(' ')),
            decreases n - i,
        {
            tiles.push(Tile::Character(' '));
            i = i + 1;
            assert(tiles@ =~= Seq::new(i as nat, |j: int| Tile::Character(' ')));
        }
        self.tiles = tiles;
    }
}

} // verus!
