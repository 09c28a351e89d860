//! Which addresses of an image its base relocations rebase.
use vstd::prelude::*;

use super::image::{
    base_reloc_entry, base_relocs, base_relocs_from, block_relocs, BaseReloc, BaseRelocKind,
    PeSection,
};
use super::pointers::{is_first_called, lemma_section_index};
use crate::bytes::le_value;

verus! {

/// The number in the two bytes at `at`, the low byte first.
pub open spec fn half(data: Seq<u8>, at: int) -> int {
    data[at] + 0x100 * data[at + 1]
}

/// The number in the four bytes at `at`, the low byte first.
pub open spec fn full(data: Seq<u8>, at: int) -> int {
    half(data, at) + 0x1_0000 * half(data, at + 2)
}

/// True when a block of relocations begins at `at`: its size, behind the page it is for,
/// counts the eight bytes of both and ends inside the table.
pub open spec fn is_block(data: Seq<u8>, at: int) -> bool {
    &&& 0 <= at
    &&& at + 8 <= data.len()
    &&& 8 <= full(data, at + 4) <= data.len() - at
}

/// True when the blocks of a table begin at `starts`, one behind the other, the last of which
/// is where no block begins any more.
pub open spec fn are_blocks(data: Seq<u8>, starts: Seq<int>) -> bool {
    &&& starts.len() > 0
    &&& starts[0] == 0
    &&& !is_block(data, starts.last())
    &&& forall|b: int|
        0 <= b < starts.len() - 1 ==> is_block(data, #[trigger] starts[b]) && starts[b + 1]
            == starts[b] + full(data, starts[b] + 4)
}

/// True when the block at `at` has an entry `k` and the entry is no padding.
pub open spec fn has_entry(data: Seq<u8>, at: int, k: int) -> bool {
    &&& 0 <= k
    &&& 8 + 2 * k + 2 <= full(data, at + 4)
    &&& half(data, at + 8 + 2 * k) >= 0x1000
}

/// True when `r` is what entry `k` of the block at `at` says: the low twelve bits are an offset
/// into the page of the block, the high four the type.
pub open spec fn is_entry(data: Seq<u8>, base: u64, at: int, k: int, r: BaseReloc) -> bool {
    let entry = half(data, at + 8 + 2 * k);
    &&& r.va == (base + full(data, at) + entry % 0x1000) % 0x1_0000_0000_0000_0000
    &&& r.kind is Dir64 <==> entry / 0x1000 == 10
    &&& r.kind is HighLow <==> entry / 0x1000 == 3
    &&& r.kind matches BaseRelocKind::Other(t) ==> t == entry / 0x1000
}

/// True when some relocation is what entry `k` of the block at `at` says.
pub open spec fn is_rebased(
    relocs: Seq<BaseReloc>,
    data: Seq<u8>,
    base: u64,
    at: int,
    k: int,
) -> bool {
    exists|i: int| 0 <= i < relocs.len() && is_entry(data, base, at, k, #[trigger] relocs[i])
}

/// True when `r` is what some entry of the block at `at` says.
pub open spec fn is_of_block(data: Seq<u8>, base: u64, at: int, r: BaseReloc) -> bool {
    exists|k: int| #[trigger] has_entry(data, at, k) && is_entry(data, base, at, k, r)
}

/// True when `r` is what some entry of a block says.
pub open spec fn is_of_table(data: Seq<u8>, base: u64, starts: Seq<int>, r: BaseReloc) -> bool {
    exists|b: int| 0 <= b < starts.len() - 1 && is_of_block(data, base, #[trigger] starts[b], r)
}

proof fn lemma_numbers(data: Seq<u8>, at: int)
    ensures
        le_value(data, at, 2) == half(data, at),
        le_value(data, at, 4) == full(data, at),
        0 <= half(data, at) < 0x1_0000,
        0 <= full(data, at) < 0x1_0000_0000,
{
    reveal_with_fuel(le_value, 5);
}

proof fn lemma_entry(data: Seq<u8>, base: u64, at: int, k: int)
    requires
        half(data, at + 8 + 2 * k) >= 0x1000,
    ensures
        base_reloc_entry(data, at, k, base) matches Some(r) && is_entry(data, base, at, k, r),
{
    lemma_numbers(data, at + 8 + 2 * k);
    lemma_numbers(data, at);
}

proof fn lemma_block(data: Seq<u8>, base: u64, at: int, n: nat)
    requires
        8 + 2 * n <= full(data, at + 4),
    ensures
        forall|k: int|
            k < n && #[trigger] has_entry(data, at, k) ==> is_rebased(
                block_relocs(data, at, n, base),
                data,
                base,
                at,
                k,
            ),
        forall|i: int|
            0 <= i < block_relocs(data, at, n, base).len() ==> is_of_block(
                data,
                base,
                at,
                #[trigger] block_relocs(data, at, n, base)[i],
            ),
    decreases n,
{
    if n > 0 {
        let before = block_relocs(data, at, (n - 1) as nat, base);
        let all = block_relocs(data, at, n, base);
        lemma_block(data, base, at, (n - 1) as nat);
        lemma_numbers(data, at + 8 + 2 * (n - 1));
        if has_entry(data, at, n - 1) {
            lemma_entry(data, base, at, n - 1);
            assert(all.last() == base_reloc_entry(data, at, n - 1, base)->0);
            assert(is_entry(data, base, at, n - 1, all[all.len() - 1]));
            assert(is_of_block(data, base, at, all[all.len() - 1]));
        }
        assert forall|k: int| k < n && #[trigger] has_entry(data, at, k) implies is_rebased(
            all,
            data,
            base,
            at,
            k,
        ) by {
            if k < n - 1 {
                let i = choose|i: int|
                    0 <= i < before.len() && is_entry(data, base, at, k, #[trigger] before[i]);
                assert(all[i] == before[i]);
            }
        }
        assert forall|i: int| 0 <= i < all.len() implies is_of_block(
            data,
            base,
            at,
            #[trigger] all[i],
        ) by {
            if i < before.len() {
                assert(all[i] == before[i]);
            }
        }
    }
}

proof fn lemma_blocks(data: Seq<u8>, base: u64, starts: Seq<int>, b: int)
    requires
        are_blocks(data, starts),
        0 <= b < starts.len(),
    ensures
        forall|c: int, k: int|
            b <= c < starts.len() - 1 && #[trigger] has_entry(data, starts[c], k) ==> is_rebased(
                base_relocs_from(data, starts[b], base),
                data,
                base,
                starts[c],
                k,
            ),
        forall|i: int|
            0 <= i < base_relocs_from(data, starts[b], base).len() ==> is_of_table(
                data,
                base,
                starts,
                #[trigger] base_relocs_from(data, starts[b], base)[i],
            ),
    decreases starts.len() - b,
{
    let at = starts[b];
    let all = base_relocs_from(data, at, base);
    lemma_numbers(data, at + 4);
    if b < starts.len() - 1 {
        let size = full(data, at + 4);
        let n = ((size - 8) / 2) as nat;
        let first = block_relocs(data, at, n, base);
        let rest = base_relocs_from(data, starts[b + 1], base);
        lemma_block(data, base, at, n);
        lemma_blocks(data, base, starts, b + 1);
        assert(all == first + rest);
        assert forall|c: int, k: int|
            b <= c < starts.len() - 1 && #[trigger] has_entry(
                data,
                starts[c],
                k,
            ) implies is_rebased(all, data, base, starts[c], k) by {
            if c == b {
                assert(k < n);
                assert(is_rebased(first, data, base, at, k));
                let i = choose|i: int|
                    0 <= i < first.len() && is_entry(data, base, at, k, #[trigger] first[i]);
                assert(all[i] == first[i]);
            } else {
                assert(is_rebased(rest, data, base, starts[c], k));
                let i = choose|i: int|
                    0 <= i < rest.len() && is_entry(data, base, starts[c], k, #[trigger] rest[i]);
                assert(all[first.len() + i] == rest[i]);
            }
        }
        assert forall|i: int| 0 <= i < all.len() implies is_of_table(
            data,
            base,
            starts,
            #[trigger] all[i],
        ) by {
            if i < first.len() {
                assert(all[i] == first[i]);
                assert(is_of_block(data, base, starts[b], all[i]));
            } else {
                assert(all[i] == rest[i - first.len()]);
            }
        }
    } else {
        assert(at == starts.last());
        assert(all.len() == 0);
    }
}

/// The base relocations of an image are what the entries of the blocks in its first section
/// called `.reloc` say. Each entry that is no padding rebases the address at its offset into
/// the page of its block, with the type in its high four bits, and nothing else is rebased.
pub proof fn law_entries_rebase_their_address(
    sections: Seq<PeSection>,
    base: u64,
    s: int,
    starts: Seq<int>,
)
    requires
        is_first_called(sections, ".reloc"@, s),
        are_blocks(sections[s].data@, starts),
    ensures
        forall|b: int, k: int|
            0 <= b < starts.len() - 1 && #[trigger] has_entry(sections[s].data@, starts[b], k)
                ==> is_rebased(
                base_relocs(sections, base),
                sections[s].data@,
                base,
                starts[b],
                k,
            ),
        forall|i: int|
            0 <= i < base_relocs(sections, base).len() ==> is_of_table(
                sections[s].data@,
                base,
                starts,
                #[trigger] base_relocs(sections, base)[i],
            ),
{
    lemma_section_index(sections, ".reloc"@);
    lemma_blocks(sections[s].data@, base, starts, 0);
}

/// An image without a section called `.reloc` rebases nothing.
pub proof fn law_nothing_is_rebased_without_a_table(sections: Seq<PeSection>, base: u64)
    requires
        forall|k: int| 0 <= k < sections.len() ==> (#[trigger] sections[k]).name@ != ".reloc"@,
    ensures
        base_relocs(sections, base).len() == 0,
{
    lemma_section_index(sections, ".reloc"@);
}

} // verus!
