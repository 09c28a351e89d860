//! Fixed-width integers at byte offsets, in either byte order.
use vstd::prelude::*;

verus! {

/// Little-endian value of the `n` bytes of `s` that start at `at`.
pub open spec fn le_value(s: Seq<u8>, at: int, n: nat) -> int
    decreases n,
{
    if n == 0 {
        0
    } else {
        s[at] + 256 * le_value(s, at + 1, (n - 1) as nat)
    }
}

/// Big-endian value of the `n` bytes of `s` that start at `at`.
pub open spec fn be_value(s: Seq<u8>, at: int, n: nat) -> int
    decreases n,
{
    if n == 0 {
        0
    } else {
        256 * be_value(s, at, (n - 1) as nat) + s[at + n - 1]
    }
}

/// Value of `n` bytes in the given byte order.
pub open spec fn value_at(s: Seq<u8>, at: int, n: nat, little: bool) -> int {
    if little {
        le_value(s, at, n)
    } else {
        be_value(s, at, n)
    }
}

/// The `n` bytes of `v` in little-endian order.
pub open spec fn le_bytes(v: int, n: nat) -> Seq<u8>
    decreases n,
{
    if n == 0 {
        Seq::empty()
    } else {
        seq![(v % 256) as u8] + le_bytes(v / 256, (n - 1) as nat)
    }
}

/// `s` with the bytes from `at` on replaced by `b`.
pub open spec fn patched(s: Seq<u8>, at: int, b: Seq<u8>) -> Seq<u8> {
    s.subrange(0, at) + b + s.subrange(at + b.len(), s.len() as int)
}

/// `n` zero bytes.
pub open spec fn zeros(n: nat) -> Seq<u8> {
    Seq::new(n, |i: int| 0u8)
}

/// `le_bytes` has the asked-for length.
pub proof fn lemma_le_bytes_len(v: int, n: nat)
    ensures
        le_bytes(v, n).len() == n,
    decreases n,
{
    if n > 0 {
        lemma_le_bytes_len(v / 256, (n - 1) as nat);
    }
}

/// Reads a little-endian `u16`.
pub fn read_u16_le(data: &[u8], at: usize) -> (v: u16)
    requires
        at + 2 <= data@.len(),
    ensures
        v == le_value(data@, at as int, 2),
{
    proof {
        reveal_with_fuel(le_value, 3);
    }
    data[at] as u16 + 256 * (data[at + 1] as u16)
}

/// Reads a little-endian `u32`.
pub fn read_u32_le(data: &[u8], at: usize) -> (v: u32)
    requires
        at + 4 <= data@.len(),
    ensures
        v == le_value(data@, at as int, 4),
{
    proof {
        reveal_with_fuel(le_value, 5);
    }
    data[at] as u32 + 256 * (data[at + 1] as u32 + 256 * (data[at + 2] as u32 + 256 * (data[at
        + 3] as u32)))
}

/// Reads a little-endian `u64`.
pub fn read_u64_le(data: &[u8], at: usize) -> (v: u64)
    requires
        at + 8 <= data@.len(),
    ensures
        v == le_value(data@, at as int, 8),
{
    proof {
        reveal_with_fuel(le_value, 9);
    }
    data[at] as u64 + 256 * (data[at + 1] as u64 + 256 * (data[at + 2] as u64 + 256 * (data[at
        + 3] as u64 + 256 * (data[at + 4] as u64 + 256 * (data[at + 5] as u64 + 256 * (data[at
        + 6] as u64 + 256 * (data[at + 7] as u64)))))))
}

/// Reads a big-endian `u16`.
pub fn read_u16_be(data: &[u8], at: usize) -> (v: u16)
    requires
        at + 2 <= data@.len(),
    ensures
        v == be_value(data@, at as int, 2),
{
    proof {
        reveal_with_fuel(be_value, 3);
    }
    256 * (data[at] as u16) + data[at + 1] as u16
}

/// Reads a big-endian `u32`.
pub fn read_u32_be(data: &[u8], at: usize) -> (v: u32)
    requires
        at + 4 <= data@.len(),
    ensures
        v == be_value(data@, at as int, 4),
{
    proof {
        reveal_with_fuel(be_value, 5);
    }
    256 * (256 * (256 * (data[at] as u32) + data[at + 1] as u32) + data[at + 2] as u32) + data[at
        + 3] as u32
}

/// Reads a `u16` in the given byte order.
pub fn read_u16(data: &[u8], at: usize, little: bool) -> (v: u16)
    requires
        at + 2 <= data@.len(),
    ensures
        v == value_at(data@, at as int, 2, little),
{
    if little {
        read_u16_le(data, at)
    } else {
        read_u16_be(data, at)
    }
}

/// Reads a `u32` in the given byte order.
pub fn read_u32(data: &[u8], at: usize, little: bool) -> (v: u32)
    requires
        at + 4 <= data@.len(),
    ensures
        v == value_at(data@, at as int, 4, little),
{
    if little {
        read_u32_le(data, at)
    } else {
        read_u32_be(data, at)
    }
}

/// Overwrites four bytes with the little-endian form of `v`.
pub fn write_u32_le(data: &mut Vec<u8>, at: usize, v: u32)
    requires
        at + 4 <= old(data)@.len(),
    ensures
        final(data)@ == patched(old(data)@, at as int, le_bytes(v as int, 4)),
        final(data)@.len() == old(data)@.len(),
{
    let b0: u8 = (v % 256) as u8;
    let b1: u8 = (v / 256 % 256) as u8;
    let b2: u8 = (v / 65536 % 256) as u8;
    let b3: u8 = (v / 16777216 % 256) as u8;
    proof {
        reveal_with_fuel(le_bytes, 5);
        let w = v as int;
        assert(w / 256 / 256 == w / 65536);
        assert(w / 256 / 256 / 256 == w / 16777216);
        assert(le_bytes(w, 4) =~= seq![b0, b1, b2, b3]);
    }
    assert(data@.len() == data.len());
    data.set(at, b0);
    data.set(at + 1, b1);
    data.set(at + 2, b2);
    data.set(at + 3, b3);
    assert(data@ =~= patched(old(data)@, at as int, seq![b0, b1, b2, b3]));
}

/// Overwrites `n` bytes with zeros.
pub fn zero_fill(data: &mut Vec<u8>, at: usize, n: usize)
    requires
        at + n <= old(data)@.len(),
    ensures
        final(data)@ == patched(old(data)@, at as int, zeros(n as nat)),
        final(data)@.len() == old(data)@.len(),
{
    let mut i: usize = 0;
    while i < n
        invariant
            i <= n,
            at + n <= old(data)@.len(),
            data@.len() == old(data)@.len(),
            forall|j: int| 0 <= j < data@.len() ==> #[trigger] data@[j] == (if at <= j < at + i {
                0u8
            } else {
                old(data)@[j]
            }),
        decreases n - i,
    {
        assert(data@.len() == data.len());
        data.set(at + i, 0);
        i = i + 1;
    }
    assert(data@ =~= patched(old(data)@, at as int, zeros(n as nat)));
}

/// A copy of the bytes from `start` to `end`.
pub fn copy_range(data: &[u8], start: usize, end: usize) -> (v: Vec<u8>)
    requires
        start <= end <= data@.len(),
    ensures
        v@ == data@.subrange(start as int, end as int),
{
    vstd::slice::slice_to_vec(vstd::slice::slice_subrange(data, start, end))
}

} // verus!
