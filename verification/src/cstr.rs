//! Text in byte tables, ended by a zero byte.
use vstd::prelude::*;
use vstd::utf8::{decode_utf8, valid_utf8};

use crate::text::{from_utf8, from_utf8_lossy, lossy_utf8};

verus! {

/// Index, from `i` on, of the first zero byte, or the length.
pub open spec fn nul_index(b: Seq<u8>, i: int) -> int
    decreases b.len() - i,
{
    if i < 0 || i >= b.len() || b[i] == 0 {
        i
    } else {
        nul_index(b, i + 1)
    }
}

/// Finds the first zero byte from `start` on, or the length.
pub fn find_nul(b: &[u8], start: usize) -> (end: usize)
    requires
        start <= b@.len(),
    ensures
        end == nul_index(b@, start as int),
        start <= end <= b@.len(),
{
    let mut end: usize = start;
    while end < b.len() && b[end] != 0
        invariant
            start <= end <= b@.len(),
            nul_index(b@, start as int) == nul_index(b@, end as int),
        decreases b@.len() - end,
    {
        end = end + 1;
    }
    end
}

/// The string that begins at `strx` of a string table. One that does not end in
/// the table, or begins outside it, is empty.
pub open spec fn string_at(table: Seq<u8>, strx: int) -> Seq<char> {
    let end = nul_index(table, strx);
    if strx < 0 || strx >= table.len() || end >= table.len() {
        Seq::empty()
    } else {
        lossy_utf8(table.subrange(strx, end))
    }
}

/// Reads the string that begins at `strx` of a string table.
pub fn read_string(table: &[u8], strx: u32) -> (s: String)
    ensures
        s@ == string_at(table@, strx as int),
{
    let n: usize = table.len();
    if strx as u64 >= n as u64 {
        return String::new();
    }
    let start: usize = strx as usize;
    let end = find_nul(table, start);
    if end >= n {
        return String::new();
    }
    from_utf8_lossy(vstd::slice::slice_subrange(table, start, end))
}

/// The text of a field up to a zero byte or its end.
pub open spec fn field_text(b: Seq<u8>) -> Seq<char> {
    lossy_utf8(b.subrange(0, nul_index(b, 0)))
}

/// Reads the text of a field up to a zero byte or its end.
pub fn cstr(b: &[u8]) -> (s: String)
    ensures
        s@ == field_text(b@),
{
    let end = find_nul(b, 0);
    from_utf8_lossy(vstd::slice::slice_subrange(b, 0, end))
}

/// The string that begins at `off` of a table, where it is valid UTF-8. One that
/// does not end in the table is empty.
pub open spec fn utf8_string_at(table: Seq<u8>, off: int) -> Option<Seq<char>> {
    let end = nul_index(table, off);
    let bytes = if end >= table.len() {
        Seq::empty()
    } else {
        table.subrange(off, end)
    };
    if off < 0 || off >= table.len() || !valid_utf8(bytes) {
        None
    } else {
        Some(decode_utf8(bytes))
    }
}

/// Reads the string that begins at `off` of a table.
pub fn read_utf8_string(table: &[u8], off: u32) -> (r: Option<String>)
    ensures
        crate::text::text_of(r) == utf8_string_at(table@, off as int),
{
    let n: usize = table.len();
    if off as u64 >= n as u64 {
        return None;
    }
    let start: usize = off as usize;
    let end = find_nul(table, start);
    if end >= n {
        let none = vstd::slice::slice_subrange(table, 0, 0);
        assert(none@ =~= Seq::<u8>::empty());
        return from_utf8(none);
    }
    from_utf8(vstd::slice::slice_subrange(table, start, end))
}

} // verus!
