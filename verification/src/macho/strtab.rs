//! Load commands of a Mach-O file.
use vstd::prelude::*;

use crate::bytes::{read_u32, value_at};

verus! {

/// Length of the 32-bit file header.
pub const HEADER_SIZE: u64 = 28;

/// Load command with the symbol table.
pub const LC_SYMTAB: u32 = 0x2;

/// Load command with the dynamic symbol table.
pub const LC_DYSYMTAB: u32 = 0xb;

/// Load command with a 32-bit segment.
pub const LC_SEGMENT: u32 = 0x1;

/// Length of a 32-bit segment command without its sections.
pub const SEGMENT_CMD32_SIZE: u64 = 56;

/// Length of a section in a 32-bit segment command.
pub const SECTION32_SIZE: u64 = 68;

/// Length of a 32-bit symbol table entry.
pub const NLIST32_SIZE: u64 = 12;

/// Where the load commands of a 32-bit file end.
pub open spec fn commands_end(data: Seq<u8>, little: bool) -> int {
    let end = HEADER_SIZE + value_at(data, 20, 4, little);
    if end <= data.len() {
        end
    } else {
        data.len() as int
    }
}

/// Finds where the load commands of a 32-bit file end.
pub fn find_commands_end(data: &[u8], little: bool) -> (end: u64)
    requires
        data@.len() >= HEADER_SIZE,
    ensures
        end == commands_end(data@, little),
        HEADER_SIZE <= end <= data@.len(),
{
    let n: u64 = data.len() as u64;
    let end: u64 = HEADER_SIZE + read_u32(data, 20, little) as u64;
    if end <= n {
        end
    } else {
        n
    }
}

/// The rest of the file from `off` on, or nothing where it begins outside.
pub open spec fn tail_of(data: Seq<u8>, off: int) -> Seq<u8> {
    if off < data.len() {
        data.subrange(off, data.len() as int)
    } else {
        Seq::empty()
    }
}

/// Borrows the rest of the file from `off` on.
pub fn tail(data: &[u8], off: u32) -> (r: &[u8])
    ensures
        r@ == tail_of(data@, off as int),
{
    let n: usize = data.len();
    if (off as u64) < n as u64 {
        vstd::slice::slice_subrange(data, off as usize, n)
    } else {
        let r = vstd::slice::slice_subrange(data, 0, 0);
        assert(r@ =~= Seq::<u8>::empty());
        r
    }
}

} // verus!
