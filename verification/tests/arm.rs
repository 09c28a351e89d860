use std::collections::BTreeSet;

use delink::arm::addend::{apply_addend, elf_reloc_type, RelocKind};
use delink::arm::recover::CodeImage;
use delink::arm::runs::code_runs;

/// `bl` with the canonical "unresolved call" displacement: the field must
/// keep its condition/opcode byte and encode `A = -8` as `0xfffffe`.
#[test]
fn call_addend_encodes_the_canonical_bl() {
    // `bl #0x1234` as originally linked.
    let mut buf = 0xeb00_0487u32.to_le_bytes().to_vec();
    apply_addend(RelocKind::Call, &mut buf, 0, -8).unwrap();
    assert_eq!(u32::from_le_bytes(buf.try_into().unwrap()), 0xebff_fffe);
}

#[test]
fn jump24_keeps_the_condition_code() {
    // `beq` — condition `0000`, so the top byte is 0x0a.
    let mut buf = 0x0a00_1234u32.to_le_bytes().to_vec();
    apply_addend(RelocKind::Jump24, &mut buf, 0, -8).unwrap();
    assert_eq!(u32::from_le_bytes(buf.try_into().unwrap()), 0x0aff_fffe);
}

#[test]
fn call_addend_carries_an_interior_offset() {
    let mut buf = 0xeb00_0000u32.to_le_bytes().to_vec();
    // Branching to `sym + 0x20` needs `A = -8 + 0x20 = 0x18`.
    apply_addend(RelocKind::Call, &mut buf, 0, 0x18).unwrap();
    assert_eq!(u32::from_le_bytes(buf.try_into().unwrap()), 0xeb00_0006);
}

#[test]
fn data_addends_replace_the_whole_word() {
    for kind in [RelocKind::Rel32, RelocKind::Abs32, RelocKind::GotPrel] {
        let mut buf = 0xdead_beefu32.to_le_bytes().to_vec();
        apply_addend(kind, &mut buf, 0, 0x104).unwrap();
        assert_eq!(u32::from_le_bytes(buf.clone().try_into().unwrap()), 0x104);

        let mut buf = vec![0u8; 4];
        apply_addend(kind, &mut buf, 0, -0x104).unwrap();
        assert_eq!(
            i32::from_le_bytes(buf.try_into().unwrap()),
            -0x104,
            "{kind:?} must round-trip a negative addend"
        );
    }
}

/// PREL31 owns 31 bits; bit 31 of an `.ARM.exidx` word is a flag and has
/// to survive.
#[test]
fn prel31_preserves_the_top_bit() {
    let mut buf = 0x8000_0000u32.to_le_bytes().to_vec();
    apply_addend(RelocKind::Prel31, &mut buf, 0, 0x20).unwrap();
    assert_eq!(u32::from_le_bytes(buf.try_into().unwrap()), 0x8000_0020);

    let mut buf = 0u32.to_le_bytes().to_vec();
    apply_addend(RelocKind::Prel31, &mut buf, 0, -0x20).unwrap();
    assert_eq!(u32::from_le_bytes(buf.try_into().unwrap()), 0x7fff_ffe0);
}

#[test]
fn addend_past_the_end_is_an_error() {
    let mut buf = vec![0u8; 4];
    assert!(apply_addend(RelocKind::Rel32, &mut buf, 2, 0).is_err());
}

#[test]
fn reloc_types_match_aaelf() {
    assert_eq!(elf_reloc_type(RelocKind::Call), 28);
    assert_eq!(elf_reloc_type(RelocKind::Jump24), 29);
    assert_eq!(elf_reloc_type(RelocKind::Rel32), 3);
    assert_eq!(elf_reloc_type(RelocKind::Abs32), 2);
    assert_eq!(elf_reloc_type(RelocKind::Prel31), 42);
    assert_eq!(elf_reloc_type(RelocKind::GotPrel), 96);
}

/// Pool words must be carved out of the runs handed to the disassembler,
/// or constants get decoded as instructions.
#[test]
fn code_runs_skip_pool_words() {
    // Seven words at 0x1000..0x101c, with pools at the second and sixth.
    let bytes = vec![0u8; 28];
    let pools = BTreeSet::from([0x1004, 0x1014]);
    let runs = code_runs(&bytes, 0x1000, &pools);
    let shape: Vec<(u64, usize)> = runs.iter().map(|(a, b)| (*a, b.len())).collect();
    assert_eq!(shape, vec![(0x1000, 4), (0x1008, 12), (0x1018, 4)]);
}

#[test]
fn code_runs_without_pools_is_one_span() {
    let bytes = vec![0u8; 12];
    let runs = code_runs(&bytes, 0x2000, &BTreeSet::new());
    assert_eq!(runs.len(), 1);
    assert_eq!(runs[0].0, 0x2000);
    assert_eq!(runs[0].1.len(), 12);
}

#[test]
fn code_image_reads_within_bounds() {
    let bytes = 0x1122_3344u32.to_le_bytes().to_vec();
    let image = CodeImage {
        base: 0x8000,
        bytes: &bytes,
    };
    assert_eq!(image.word(0x8000), Some(0x1122_3344));
    assert_eq!(image.word(0x7ffc), None);
    assert_eq!(image.word(0x8004), None);
}
