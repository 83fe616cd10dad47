use vstd::prelude::*;

verus! {

/// The first interrupt vector of the primary 8259 PIC.
pub const PIC_1_OFFSET: u8 = 32;

/// The first interrupt vector of the secondary 8259 PIC, right after the
/// eight lines of the primary one.
pub const PIC_2_OFFSET: u8 = PIC_1_OFFSET + 8;

} // verus!
