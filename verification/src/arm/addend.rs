//! Addends of ARM relocations, which are stored in the relocated field.
use vstd::prelude::*;

use crate::bytes::{le_bytes, le_value, patched, read_u32_le, write_u32_le};
use crate::elf::reltypes::{
    R_ARM_ABS32, R_ARM_CALL, R_ARM_GOT_PREL, R_ARM_JUMP24, R_ARM_PREL31, R_ARM_REL32,
};

verus! {

/// Kinds of relocations.
#[derive(Debug, Clone, Copy, PartialEq, Eq, Structural)]
pub enum RelocKind {
    /// `bl`.
    Call,
    /// `b` that leaves the function, conditional or not.
    Jump24,
    /// A pointer in a literal pool, relative to the program counter.
    Rel32,
    /// A pointer in a literal pool to a slot of the global offset table.
    GotPrel,
    /// An absolute pointer.
    Abs32,
    /// 31 bits relative to the field, as in unwind tables.
    Prel31,
}

/// The relocation type of a kind.
pub open spec fn spec_reloc_type(kind: RelocKind) -> u32 {
    match kind {
        RelocKind::Call => R_ARM_CALL,
        RelocKind::Jump24 => R_ARM_JUMP24,
        RelocKind::Rel32 => R_ARM_REL32,
        RelocKind::GotPrel => R_ARM_GOT_PREL,
        RelocKind::Abs32 => R_ARM_ABS32,
        RelocKind::Prel31 => R_ARM_PREL31,
    }
}

/// The relocation type of a kind.
pub fn elf_reloc_type(kind: RelocKind) -> (t: u32)
    ensures
        t == spec_reloc_type(kind),
{
    match kind {
        RelocKind::Call => R_ARM_CALL,
        RelocKind::Jump24 => R_ARM_JUMP24,
        RelocKind::Rel32 => R_ARM_REL32,
        RelocKind::GotPrel => R_ARM_GOT_PREL,
        RelocKind::Abs32 => R_ARM_ABS32,
        RelocKind::Prel31 => R_ARM_PREL31,
    }
}

/// The field `old` with the addend in it: a whole word, the low 31 bits, or the
/// low 24 bits in words. The other bits stay.
pub open spec fn encoded(kind: RelocKind, old: u32, addend: i64) -> u32 {
    match kind {
        RelocKind::Rel32 | RelocKind::Abs32 | RelocKind::GotPrel => addend as i32 as u32,
        RelocKind::Prel31 => (old & 0x8000_0000) | ((addend as i32 as u32) & 0x7fff_ffff),
        RelocKind::Call | RelocKind::Jump24 => (old & 0xff00_0000) | (((addend >> 2) as u32)
            & 0x00ff_ffff),
    }
}

/// The field lies beyond the end of the section.
#[derive(Debug, Clone, Copy, PartialEq, Eq, Structural)]
pub struct OutOfSection;

/// Encodes an addend into the field at `offset`. The linker reads it back from
/// there, so what the field held before has to go.
pub fn apply_addend(kind: RelocKind, buf: &mut Vec<u8>, offset: usize, addend: i64) -> (r: Result<
    (),
    OutOfSection,
>)
    ensures
        r is Ok <==> offset + 4 <= old(buf)@.len(),
        r is Ok ==> final(buf)@ == patched(
            old(buf)@,
            offset as int,
            le_bytes(
                encoded(kind, le_value(old(buf)@, offset as int, 4) as u32, addend) as int,
                4,
            ),
        ),
        r is Err ==> final(buf)@ == old(buf)@,
        final(buf)@.len() == old(buf)@.len(),
{
    let n: usize = buf.len();
    if n < 4 || offset > n - 4 {
        return Err(OutOfSection);
    }
    let old: u32 = read_u32_le(buf.as_slice(), offset);
    let value: u32 = match kind {
        RelocKind::Rel32 | RelocKind::Abs32 | RelocKind::GotPrel => addend as i32 as u32,
        RelocKind::Prel31 => (old & 0x8000_0000) | ((addend as i32 as u32) & 0x7fff_ffff),
        RelocKind::Call | RelocKind::Jump24 => (old & 0xff00_0000) | (((addend >> 2) as u32)
            & 0x00ff_ffff),
    };
    write_u32_le(buf, offset, value);
    Ok(())
}

/// The addend that a linker reads back from a field.
pub open spec fn decoded(kind: RelocKind, field: u32) -> i64 {
    match kind {
        RelocKind::Rel32 | RelocKind::Abs32 | RelocKind::GotPrel => field as i32 as i64,
        RelocKind::Prel31 => ((field << 1) as i32 >> 1) as i64,
        RelocKind::Call | RelocKind::Jump24 => ((field << 8) as i32 >> 6) as i64,
    }
}

/// True when the field has room for the addend.
pub open spec fn fits(kind: RelocKind, addend: i64) -> bool {
    match kind {
        RelocKind::Rel32 | RelocKind::Abs32 | RelocKind::GotPrel => -0x8000_0000 <= addend
            < 0x8000_0000,
        RelocKind::Prel31 => -0x4000_0000 <= addend < 0x4000_0000,
        RelocKind::Call | RelocKind::Jump24 => -0x200_0000 <= addend < 0x200_0000 && addend % 4
            == 0,
    }
}

/// An addend that the field has room for is read back as it was written, and the
/// bits beside it, such as the condition of a branch, stay.
pub proof fn law_addend_round_trip(kind: RelocKind, old: u32, addend: i64)
    requires
        fits(kind, addend),
    ensures
        decoded(kind, encoded(kind, old, addend)) == addend,
        kind == RelocKind::Prel31 ==> encoded(kind, old, addend) & 0x8000_0000 == old & 0x8000_0000,
        kind == RelocKind::Call || kind == RelocKind::Jump24 ==> encoded(kind, old, addend)
            & 0xff00_0000 == old & 0xff00_0000,
{
    match kind {
        RelocKind::Rel32 | RelocKind::Abs32 | RelocKind::GotPrel => {
            assert((addend as i32 as u32) as i32 as i64 == addend) by (bit_vector)
                requires
                    -0x8000_0000 <= addend < 0x8000_0000,
            ;
        },
        RelocKind::Prel31 => {
            assert(((((old & 0x8000_0000) | ((addend as i32 as u32) & 0x7fff_ffff)) << 1) as i32
                >> 1) as i64 == addend) by (bit_vector)
                requires
                    -0x4000_0000 <= addend < 0x4000_0000,
            ;
            assert(((old & 0x8000_0000) | ((addend as i32 as u32) & 0x7fff_ffff)) & 0x8000_0000
                == old & 0x8000_0000) by (bit_vector);
        },
        RelocKind::Call | RelocKind::Jump24 => {
            assert(addend & 3 == 0) by (bit_vector)
                requires
                    addend % 4 == 0,
            ;
            assert(((((old & 0xff00_0000) | (((addend >> 2) as u32) & 0x00ff_ffff)) << 8) as i32
                >> 6) as i64 == addend) by (bit_vector)
                requires
                    -0x200_0000 <= addend < 0x200_0000,
                    addend & 3 == 0,
            ;
            assert(((old & 0xff00_0000) | (((addend >> 2) as u32) & 0x00ff_ffff)) & 0xff00_0000
                == old & 0xff00_0000) by (bit_vector);
        },
    }
}

} // verus!
