# op_sys

The verified core of a small x86_64 UEFI kernel, written in Verus.

- `src/term/` — the framebuffer terminal: pixels and colours
  (`framebuffer_color`), the pixel buffer (`framebuffer`) and the text
  terminal (`fbterm`): cursor movement, wrapping, scrolling, erasing,
  clearing, and the splitting of printed text at ANSI escape sequences
  (through `ansi-parser`).
- `src/memory/` — the memory-map entries the kernel reads and the choice of
  the heap region.
- `src/frame_allocator.rs` — the physical frame allocator over the usable
  memory of the memory map (frame rounding through `x86_64`).
- `src/interrupts/` — interrupt vectors, PIC offsets and the bookkeeping of
  nested interrupt-free sections.
- `app/` — the UEFI entry point and everything that touches firmware,
  hardware or floating point: graphics modes, the screen, the font and its
  glyph rasteriser (`ab_glyph`), page tables, the PICs.
- `tests/` — tests of the library on concrete values.
