use op_sys::interrupts::pics::{PIC_1_OFFSET, PIC_2_OFFSET};
use op_sys::interrupts::{InterruptFlag, InterruptIndex};

#[test]
fn interrupt_vectors() {
    assert_eq!(InterruptIndex::Timer.as_u8(), 32);
    assert_eq!(InterruptIndex::Keyboard.as_u8(), 33);
    assert_eq!(InterruptIndex::Timer.as_usize(), 32);
    assert_eq!(InterruptIndex::Keyboard.as_usize(), 33);
}

#[test]
fn pic_offsets() {
    assert_eq!(PIC_1_OFFSET, 32);
    assert_eq!(PIC_2_OFFSET, 40);
    assert_eq!(InterruptIndex::Timer.as_u8(), PIC_1_OFFSET);
    assert_eq!(InterruptIndex::Keyboard.as_u8(), PIC_1_OFFSET + 1);
}

#[test]
fn section_disables_and_enables_once() {
    let mut flag = InterruptFlag::new();
    let (cs, disable) = flag.enter();
    assert!(disable);
    assert!(flag.disabled);
    assert!(flag.exit(cs));
    assert!(!flag.disabled);
}

#[test]
fn nested_section_leaves_interrupts_alone() {
    let mut flag = InterruptFlag::new();
    let (outer, disable_outer) = flag.enter();
    let (inner, disable_inner) = flag.enter();
    assert!(disable_outer);
    assert!(!disable_inner);
    assert!(!flag.exit(inner));
    assert!(flag.disabled);
    assert!(flag.exit(outer));
    assert!(!flag.disabled);
}
