use vstd::prelude::*;
use crate::interrupts::pics::PIC_1_OFFSET;

pub mod pics;

verus! {

/// The hardware interrupts the kernel handles, by the lines of the primary PIC.
#[derive(Clone, Copy, Debug, PartialEq, Eq, Structural)]
pub enum InterruptIndex {
    Timer,
    Keyboard,
}

/// The interrupt vector of an index: the timer on the primary PIC's first
/// line, the keyboard on its second.
pub open spec fn vector_of(index: InterruptIndex) -> u8 {
    match index {
        InterruptIndex::Timer => 32,
        InterruptIndex::Keyboard => 33,
    }
}

impl InterruptIndex {
    /// The interrupt vector, as a byte.
    pub fn as_u8(self) -> (v: u8)
        ensures
            v == vector_of(self),
    {
        match self {
            InterruptIndex::Timer => 32,
            InterruptIndex::Keyboard => 33,
        }
    }

    /// The interrupt vector, as an index into the interrupt descriptor table.
    pub fn as_usize(self) -> (v: usize)
        ensures
            v == vector_of(self),
    {
        match self {
            InterruptIndex::Timer => 32,
            InterruptIndex::Keyboard => 33,
        }
    }
}

/// The timer is the first line of the primary PIC and the keyboard the
/// second, so their vectors are the PIC's offset and the one after it.
pub proof fn lemma_vectors_follow_pic_offset()
    ensures
        vector_of(InterruptIndex::Timer) == PIC_1_OFFSET,
        vector_of(InterruptIndex::Keyboard) == PIC_1_OFFSET + 1,
{
}

/// Whether interrupts are held off by a running critical section.
#[derive(Clone, Copy, Debug, PartialEq, Eq, Structural)]
pub struct InterruptFlag {
    pub disabled: bool,
}

/// What entering a critical section found: whether interrupts were held
/// off already, by an enclosing section.
#[derive(Clone, Copy, Debug, PartialEq, Eq, Structural)]
pub struct CriticalSection {
    pub were_disabled: bool,
}

/// Entering a section: the section records the flag, interrupts are to be
/// disabled now unless they were already, and the flag is set.
pub open spec fn enter_spec(flag: bool) -> (CriticalSection, bool, bool) {
    (CriticalSection { were_disabled: flag }, !flag, true)
}

/// Leaving a section: a section that disabled interrupts clears the flag
/// and has them enabled again; one nested in another leaves both alone.
pub open spec fn exit_spec(flag: bool, cs: CriticalSection) -> (bool, bool) {
    if cs.were_disabled {
        (false, flag)
    } else {
        (true, false)
    }
}

impl InterruptFlag {
    /// A flag with interrupts not held off.
    pub fn new() -> (f: Self)
        ensures
            !f.disabled,
    {
        InterruptFlag { disabled: false }
    }

    /// Enters a critical section.  Returns the section and whether the
    /// caller must disable interrupts now.
    pub fn enter(&mut self) -> (r: (CriticalSection, bool))
        ensures
            (r.0, r.1, final(self).disabled) == enter_spec(old(self).disabled),
    {
        let were_disabled = self.disabled;
        if !were_disabled {
            self.disabled = true;
        }
        (CriticalSection { were_disabled }, !were_disabled)
    }

    /// Leaves the critical section `cs`.  Returns whether the caller must
    /// enable interrupts again.
    pub fn exit(&mut self, cs: CriticalSection) -> (enable: bool)
        ensures
            (enable, final(self).disabled) == exit_spec(old(self).disabled, cs),
    {
        if !cs.were_disabled {
            self.disabled = false;
            true
        } else {
            false
        }
    }
}

/// A critical section leaves the flag as it found it, and enables
/// interrupts on leaving exactly when it disabled them on entering.
pub proof fn lemma_section_restores(flag: bool)
    ensures
        ({
            let (cs, disable_now, inside) = enter_spec(flag);
            let (enable_now, after) = exit_spec(inside, cs);
            &&& after == flag
            &&& enable_now == disable_now
            &&& inside
        }),
{
}

/// A section nested in another neither disables nor enables interrupts,
/// and interrupts stay held off after it until the outer one ends.
pub proof fn lemma_nested_section_keeps_disabled(flag: bool)
    ensures
        ({
            let (outer, _, inside) = enter_spec(flag);
            let (inner, disable_inner, nested) = enter_spec(inside);
            let (enable_inner, back) = exit_spec(nested, inner);
            &&& !disable_inner
            &&& !enable_inner
            &&& back
        }),
{
}

} // verus!
