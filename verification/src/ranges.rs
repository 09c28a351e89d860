//! Address ranges, and slices of bytes by offset.
use std::ops::Range;
use vstd::prelude::*;

verus! {

/// True when the range begins at or below `va` and ends above it.
pub open spec fn range_contains(r: Option<Range<u64>>, va: u64) -> bool {
    r is Some && r->0.start <= va < r->0.end
}

/// The offset of `va` from the start of the range.
pub open spec fn range_offset(r: Option<Range<u64>>, va: u64) -> i64 {
    (va - r->0.start) as i64
}

/// True when `addend` bytes from `start` on lies `va`, in an address space of 64 bits.
pub open spec fn reaches(start: u64, addend: int, va: u64) -> bool {
    start + addend == va || start + addend + 0x1_0000_0000_0000_0000 == va
}

/// True when the range begins at `start` and holds `va`.
pub open spec fn begins_at(r: Option<Range<u64>>, start: u64, va: u64) -> bool {
    r matches Some(x) && x.start == start && start <= va < x.end
}

/// A distance leads back to where it was taken to.
pub proof fn lemma_reaches(start: u64, va: u64)
    requires
        start <= va,
    ensures
        reaches(start, ((va - start) as i64) as int, va),
        va - start <= i64::MAX ==> (va - start) as i64 == va - start,
{
    let d = (va - start) as u64;
    assert(d < 0x8000_0000_0000_0000 ==> d as i64 == d) by (bit_vector);
    assert(d >= 0x8000_0000_0000_0000 ==> d as i64 == d - 0x1_0000_0000_0000_0000) by (bit_vector);
}

/// Tests whether the range holds `va`.
pub fn contains(range: &Option<Range<u64>>, va: u64) -> (b: bool)
    ensures
        b == range_contains(*range, va),
{
    match range {
        Some(r) => r.start <= va && va < r.end,
        None => false,
    }
}

/// The symbol at the start of the range and the offset of `va` from it, where
/// the range holds `va`.
pub fn offset_in(range: &Option<Range<u64>>, va: u64, name: &str) -> (r: Option<(String, i64)>)
    ensures
        match r {
            Some((n, offset)) => range_contains(*range, va) && n@ == name@ && offset
                == range_offset(*range, va),
            None => !range_contains(*range, va),
        },
{
    match range {
        Some(r) => if r.start <= va && va < r.end {
            Some((name.to_owned(), (va - r.start) as i64))
        } else {
            None
        },
        None => None,
    }
}

/// The `len` bytes of `data` from `off` on, where they all lie in it.
pub open spec fn bytes_at(data: Seq<u8>, off: int, len: int) -> Option<Seq<u8>> {
    if 0 <= off && off + len <= data.len() {
        Some(data.subrange(off, off + len))
    } else {
        None
    }
}

/// The bytes that an optional slice holds.
pub open spec fn slice_view(s: Option<&[u8]>) -> Option<Seq<u8>> {
    match s {
        Some(b) => Some(b@),
        None => None,
    }
}

/// Borrows `len` bytes from `off` on, where they all lie in `data`.
pub fn slice_at(data: &[u8], off: u64, len: usize) -> (r: Option<&[u8]>)
    ensures
        slice_view(r) == bytes_at(data@, off as int, len as int),
{
    let n: usize = data.len();
    if off <= n as u64 && len <= n - off as usize {
        Some(vstd::slice::slice_subrange(data, off as usize, off as usize + len))
    } else {
        None
    }
}

} // verus!
