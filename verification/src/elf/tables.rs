//! What the slots of the global offset table and the unwind tables of an image refer to.
use vstd::prelude::*;

use super::dynrel::DynRelocView;
use super::pointers::{denotes, denotes_code, law_targets_denote_their_address};
use super::shared::{
    frame_record, frame_start, function_target, index_entry, index_function, law_sign_extend31,
    prel31_target, pushed, spec_sign_extend31, with_frames, with_index, Extab, UnwindRelocView,
};
use super::symbols::{
    plt_map, spec_expand_imm12, with_indexed, with_local_slots, with_slots, GlobalSymbols,
};
use crate::arch::Arch;
use crate::bytes::le_value;

verus! {

/// True when relocation `i` puts a symbol of this name into the slot.
pub open spec fn names_slot(relocs: Seq<DynRelocView>, i: int, slot: u64, name: Seq<char>) -> bool {
    &&& 0 <= i < relocs.len()
    &&& relocs[i].r_offset == slot
    &&& relocs[i].sym_name == name
    &&& name.len() > 0
}

/// True when relocation `i` is the last from `from` on that puts a symbol into the slot, and
/// the symbol has this name.
pub open spec fn names_slot_last(
    relocs: Seq<DynRelocView>,
    from: int,
    i: int,
    slot: u64,
    name: Seq<char>,
) -> bool {
    &&& from <= i
    &&& names_slot(relocs, i, slot, name)
    &&& forall|j: int|
        i < j < relocs.len() ==> !((#[trigger] relocs[j]).r_offset == slot
            && relocs[j].sym_name.len() > 0)
}

/// True when relocation `i` installs the address `va` of the image itself in the slot.
pub open spec fn points_slot(
    arch: Arch,
    relocs: Seq<DynRelocView>,
    i: int,
    slot: u64,
    va: u64,
) -> bool {
    &&& 0 <= i < relocs.len()
    &&& relocs[i].r_offset == slot
    &&& relocs[i].sym_name.len() == 0
    &&& relocs[i].r_type == match arch {
        Arch::Aarch64 => 1027u32,
        Arch::Arm => 23u32,
    }
    &&& relocs[i].r_addend as u64 == va
}

/// True when relocation `i` is the last from `from` on that installs an address of the image
/// in the slot, and the address is `va`.
pub open spec fn points_slot_last(
    arch: Arch,
    relocs: Seq<DynRelocView>,
    from: int,
    i: int,
    slot: u64,
    va: u64,
) -> bool {
    &&& from <= i
    &&& points_slot(arch, relocs, i, slot, va)
    &&& forall|j: int, x: u64| i < j ==> !#[trigger] points_slot(arch, relocs, j, slot, x)
}

proof fn lemma_named(m: Map<u64, Seq<char>>, relocs: Seq<DynRelocView>, from: int, slot: u64, name: Seq<char>)
    requires
        0 <= from <= relocs.len(),
    ensures
        ({
            let end = with_slots(m, relocs, from);
            end.contains_key(slot) && end[slot] == name <==> ({
                ||| exists|i: int| #[trigger] names_slot_last(relocs, from, i, slot, name)
                ||| m.contains_key(slot) && m[slot] == name && forall|j: int|
                    from <= j < relocs.len() ==> !((#[trigger] relocs[j]).r_offset == slot
                        && relocs[j].sym_name.len() > 0)
            })
        }),
    decreases relocs.len() - from,
{
    if from < relocs.len() {
        let r = relocs[from];
        let next = if r.sym_name.len() > 0 {
            m.insert(r.r_offset, r.sym_name)
        } else {
            m
        };
        lemma_named(next, relocs, from + 1, slot, name);
        let end = with_slots(m, relocs, from);
        if exists|i: int| #[trigger] names_slot_last(relocs, from + 1, i, slot, name) {
            let i = choose|i: int| #[trigger] names_slot_last(relocs, from + 1, i, slot, name);
            assert(names_slot_last(relocs, from, i, slot, name));
        }
        if exists|i: int| #[trigger] names_slot_last(relocs, from, i, slot, name) {
            let i = choose|i: int| #[trigger] names_slot_last(relocs, from, i, slot, name);
            if i > from {
                assert(names_slot_last(relocs, from + 1, i, slot, name));
            }
        }
        let later = forall|j: int|
            from + 1 <= j < relocs.len() ==> !((#[trigger] relocs[j]).r_offset == slot
                && relocs[j].sym_name.len() > 0);
        if later && r.sym_name.len() > 0 && r.r_offset == slot && r.sym_name == name {
            assert(names_slot_last(relocs, from, from, slot, name));
        }
    }
}

proof fn lemma_pointed(
    m: Map<u64, u64>,
    arch: Arch,
    relocs: Seq<DynRelocView>,
    from: int,
    slot: u64,
    va: u64,
)
    requires
        0 <= from <= relocs.len(),
    ensures
        ({
            let end = with_local_slots(m, arch, relocs, from);
            end.contains_key(slot) && end[slot] == va <==> ({
                ||| exists|i: int| #[trigger] points_slot_last(arch, relocs, from, i, slot, va)
                ||| m.contains_key(slot) && m[slot] == va && forall|j: int, x: u64|
                    from <= j ==> !#[trigger] points_slot(arch, relocs, j, slot, x)
            })
        }),
    decreases relocs.len() - from,
{
    if from < relocs.len() {
        let r = relocs[from];
        let here = r.sym_name.len() == 0 && r.r_type == match arch {
            Arch::Aarch64 => 1027u32,
            Arch::Arm => 23u32,
        };
        let next = if here {
            m.insert(r.r_offset, r.r_addend as u64)
        } else {
            m
        };
        lemma_pointed(next, arch, relocs, from + 1, slot, va);
        if exists|i: int| #[trigger] points_slot_last(arch, relocs, from + 1, i, slot, va) {
            let i = choose|i: int| #[trigger]
                points_slot_last(arch, relocs, from + 1, i, slot, va);
            assert(points_slot_last(arch, relocs, from, i, slot, va));
        }
        if exists|i: int| #[trigger] points_slot_last(arch, relocs, from, i, slot, va) {
            let i = choose|i: int| #[trigger] points_slot_last(arch, relocs, from, i, slot, va);
            if i > from {
                assert(points_slot_last(arch, relocs, from + 1, i, slot, va));
            }
        }
        let later = forall|j: int, x: u64|
            from + 1 <= j ==> !#[trigger] points_slot(arch, relocs, j, slot, x);
        if here && r.r_offset == slot {
            assert(points_slot(arch, relocs, from, slot, r.r_addend as u64));
            if later && r.r_addend as u64 == va {
                assert(points_slot_last(arch, relocs, from, from, slot, va));
            }
        } else {
            assert forall|x: u64| !#[trigger] points_slot(arch, relocs, from, slot, x) by {}
            if later {
                assert forall|j: int, x: u64| from <= j implies !#[trigger] points_slot(
                    arch,
                    relocs,
                    j,
                    slot,
                    x,
                ) by {
                    if j > from {
                        assert(!points_slot(arch, relocs, j, slot, x));
                    }
                }
            }
        }
    } else {
        assert forall|j: int, x: u64| from <= j implies !#[trigger] points_slot(
            arch,
            relocs,
            j,
            slot,
            x,
        ) by {}
    }
}

/// A slot holds what the last dynamic relocation for it puts there: a symbol, or an address
/// of the image itself.
pub proof fn law_slots_hold_what_relocations_put(
    symbols: GlobalSymbols,
    binary: super::binary::Binary,
    fs: Map<u64, super::symbols::FunctionRefView>,
    vs: Map<u64, super::symbols::VariableRefView>,
    relocs: Seq<DynRelocView>,
    slot: u64,
    name: Seq<char>,
    va: u64,
)
    requires
        symbols.is_built(binary, fs, vs, relocs),
    ensures
        symbols.got@.contains_key(slot) && symbols.got@[slot]@ == name <==> exists|i: int| #[trigger]
            names_slot_last(relocs, 0, i, slot, name),
        symbols.got_local@.contains_key(slot) && symbols.got_local@[slot] == va <==> exists|i: int|
            #[trigger]
            points_slot_last(binary.arch, relocs, 0, i, slot, va),
{
    lemma_named(Map::empty(), relocs, 0, slot, name);
    lemma_pointed(Map::empty(), binary.arch, relocs, 0, slot, va);
    let names = with_slots(Map::empty(), relocs, 0);
    assert(crate::text::texts(symbols.got@) == names);
    assert(symbols.got@.contains_key(slot) <==> names.contains_key(slot));
    if names.contains_key(slot) {
        assert(names[slot] == symbols.got@[slot]@);
    }
}

/// True when walking the frame information from `from` on, one record behind the other,
/// comes to a record at `cursor`.
pub open spec fn is_record(data: Seq<u8>, from: int, cursor: int) -> bool
    decreases data.len() - from,
{
    &&& 0 <= from
    &&& frame_record(data, from)
    &&& from + 4 <= data.len()
    &&& le_value(data, from, 4) > 0
    &&& from == cursor || is_record(data, from + 4 + le_value(data, from, 4), cursor)
}

/// A word as a signed number.
pub open spec fn signed_word(value: int) -> int {
    if value < 0x8000_0000 {
        value
    } else {
        value - 0x1_0000_0000
    }
}

/// True when the record at `cursor` describes the function at `va`: it is no common part,
/// and its third word holds the distance from itself to `va`.
pub open spec fn describes(data: Seq<u8>, vaddr: u64, cursor: int, va: u64) -> bool {
    &&& le_value(data, cursor + 4, 4) != 0
    &&& va == (vaddr + cursor + 8 + signed_word(le_value(data, cursor + 8, 4)))
        % 0x1_0000_0000_0000_0000
}

/// True when `r` is for the record at `cursor`: at its third word, to the function that it
/// describes.
pub open spec fn is_frame(
    data: Seq<u8>,
    vaddr: u64,
    symbols: GlobalSymbols,
    from: int,
    cursor: int,
    r: UnwindRelocView,
) -> bool {
    &&& is_record(data, from, cursor)
    &&& r.offset == cursor + 8
    &&& exists|va: u64| #[trigger]
        describes(data, vaddr, cursor, va) && denotes_code(symbols, r.name, r.addend as int, va)
}

/// True when `r` is for some record.
pub open spec fn is_some_frame(
    data: Seq<u8>,
    vaddr: u64,
    symbols: GlobalSymbols,
    from: int,
    r: UnwindRelocView,
) -> bool {
    exists|cursor: int| #[trigger] is_frame(data, vaddr, symbols, from, cursor, r)
}

/// True when one of the relocations from `lo` on is for the record at `cursor`.
pub open spec fn has_frame(
    relocs: Seq<UnwindRelocView>,
    lo: int,
    data: Seq<u8>,
    vaddr: u64,
    symbols: GlobalSymbols,
    from: int,
    cursor: int,
) -> bool {
    exists|k: int|
        lo <= k < relocs.len() && is_frame(
            data,
            vaddr,
            symbols,
            from,
            cursor,
            #[trigger] relocs[k],
        )
}

proof fn lemma_frame_start(data: Seq<u8>, vaddr: u64, cursor: int)
    requires
        0 <= cursor,
        cursor + 12 <= data.len() <= u64::MAX,
    ensures
        frame_start(data, vaddr, cursor) == (vaddr + cursor + 8 + signed_word(
            le_value(data, cursor + 8, 4),
        )) % 0x1_0000_0000_0000_0000,
{
    reveal_with_fuel(le_value, 5);
    let value = le_value(data, cursor + 8, 4) as u32;
    assert(0 <= le_value(data, cursor + 8, 4) <= u32::MAX);
    assert(value < 0x8000_0000u32 ==> value as i32 as i64 as u64 == value) by (bit_vector);
    assert(value >= 0x8000_0000u32 ==> value as i32 as i64 as u64 == value + 0xffff_ffff_0000_0000)
        by (bit_vector);
}

proof fn lemma_positive(data: Seq<u8>, at: int)
    ensures
        0 <= le_value(data, at, 4) <= u32::MAX,
{
    reveal_with_fuel(le_value, 5);
}

proof fn lemma_frames(
    out: Seq<UnwindRelocView>,
    data: Seq<u8>,
    vaddr: u64,
    symbols: GlobalSymbols,
    from: int,
)
    requires
        0 <= from,
        data.len() <= u64::MAX,
    ensures
        ({
            let end = with_frames(out, data, vaddr, symbols, from);
            &&& out.len() <= end.len()
            &&& forall|k: int| 0 <= k < out.len() ==> end[k] == #[trigger] out[k]
            &&& forall|k: int|
                out.len() <= k < end.len() ==> is_some_frame(
                    data,
                    vaddr,
                    symbols,
                    from,
                    #[trigger] end[k],
                )
            &&& forall|cursor: int, va: u64, name: Seq<char>, d: int| #[trigger]
                is_record(data, from, cursor) && #[trigger] describes(data, vaddr, cursor, va)
                    && #[trigger] denotes_code(symbols, name, d, va) ==> has_frame(
                    end,
                    out.len() as int,
                    data,
                    vaddr,
                    symbols,
                    from,
                    cursor,
                )
        }),
    decreases data.len() - from,
{
    lemma_positive(data, from);
    if frame_record(data, from) {
        let step = from + 4 + le_value(data, from, 4);
        let target = function_target(symbols, frame_start(data, vaddr, from));
        let some = le_value(data, from + 4, 4) != 0 && target is Some;
        let next = if some {
            out.push(
                UnwindRelocView {
                    offset: (from + 8) as u64,
                    name: (target->0).0,
                    addend: (target->0).1,
                },
            )
        } else {
            out
        };
        lemma_frames(next, data, vaddr, symbols, step);
        let end = with_frames(out, data, vaddr, symbols, from);
        assert(end == with_frames(next, data, vaddr, symbols, step));
        assert(is_record(data, from, from));
        law_targets_denote_their_address(symbols, frame_start(data, vaddr, from));
        if le_value(data, from + 4, 4) != 0 {
            lemma_frame_start(data, vaddr, from);
            assert(describes(data, vaddr, from, frame_start(data, vaddr, from)));
        }
        if some {
            assert(end[out.len() as int] == next[out.len() as int]);
            assert(is_frame(data, vaddr, symbols, from, from, end[out.len() as int]));
        }
        assert forall|k: int| 0 <= k < out.len() implies end[k] == #[trigger] out[k] by {
            assert(next[k] == out[k]);
        }
        assert forall|k: int| out.len() <= k < end.len() implies is_some_frame(
            data,
            vaddr,
            symbols,
            from,
            #[trigger] end[k],
        ) by {
            if k >= next.len() {
                assert(is_some_frame(data, vaddr, symbols, step, end[k]));
                let cursor = choose|cursor: int| #[trigger]
                    is_frame(data, vaddr, symbols, step, cursor, end[k]);
                assert(is_record(data, from, cursor));
                assert(is_frame(data, vaddr, symbols, from, cursor, end[k]));
            }
        }
        assert forall|cursor: int, va: u64, name: Seq<char>, d: int| #[trigger]
            is_record(data, from, cursor) && #[trigger] describes(data, vaddr, cursor, va)
                && #[trigger] denotes_code(symbols, name, d, va) implies has_frame(
            end,
            out.len() as int,
            data,
            vaddr,
            symbols,
            from,
            cursor,
        ) by {
            if cursor == from {
                assert(va == frame_start(data, vaddr, from));
                assert(some);
                assert(is_frame(data, vaddr, symbols, from, cursor, end[out.len() as int]));
            } else {
                assert(is_record(data, step, cursor));
                assert(has_frame(
                    end,
                    next.len() as int,
                    data,
                    vaddr,
                    symbols,
                    step,
                    cursor,
                ));
                let k = choose|k: int|
                    next.len() <= k < end.len() && is_frame(
                        data,
                        vaddr,
                        symbols,
                        step,
                        cursor,
                        #[trigger] end[k],
                    );
                assert(is_frame(data, vaddr, symbols, from, cursor, end[k]));
            }
        }
    }
}

/// Each relocation of the frame information is for a record that describes a function: at
/// the word that holds the function's address, by a symbol and an addend that denote the
/// address. Each record of a known function has one.
pub proof fn law_frames_keep_their_function(
    data: Seq<u8>,
    vaddr: u64,
    symbols: GlobalSymbols,
    cursor: int,
    va: u64,
    name: Seq<char>,
    d: int,
)
    requires
        data.len() <= u64::MAX,
    ensures
        ({
            let end = with_frames(Seq::empty(), data, vaddr, symbols, 0);
            &&& forall|k: int|
                0 <= k < end.len() ==> is_some_frame(data, vaddr, symbols, 0, #[trigger] end[k])
            &&& is_record(data, 0, cursor) && describes(data, vaddr, cursor, va) && denotes_code(
                symbols,
                name,
                d,
                va,
            ) ==> has_frame(end, 0, data, vaddr, symbols, 0, cursor)
        }),
{
    lemma_frames(Seq::empty(), data, vaddr, symbols, 0);
}

/// A field of 31 bits as a signed number.
pub open spec fn signed31(word: int) -> int {
    let low = word % 0x8000_0000;
    if low < 0x4000_0000 {
        low
    } else {
        low - 0x8000_0000
    }
}

/// True when a 31-bit field at `place` that holds `word` refers to `va`.
pub open spec fn refers_to(place: int, word: int, va: u64) -> bool {
    va == (place + signed31(word)) % 0x1_0000_0000_0000_0000
}

proof fn lemma_prel31(place: u64, word: u32)
    ensures
        refers_to(place as int, word as int, prel31_target(place, word)),
{
    law_sign_extend31(word);
    assert(word & 0x7fff_ffff == word % 0x8000_0000) by (bit_vector);
    let d = spec_sign_extend31(word);
    assert(d >= 0 ==> d as u64 == d) by (bit_vector);
    assert(d < 0 ==> d as u64 == d + 0x1_0000_0000_0000_0000) by (bit_vector);
}

/// True when `r` is for the first word of the index entry at `at`: by a symbol and an addend
/// that denote the function that the word refers to.
pub open spec fn is_index_function(
    data: Seq<u8>,
    vaddr: u64,
    symbols: GlobalSymbols,
    at: int,
    r: UnwindRelocView,
) -> bool {
    &&& r.offset == at
    &&& exists|va: u64| #[trigger]
        refers_to(vaddr + at, le_value(data, at, 4), va) && denotes(
            symbols,
            r.name,
            r.addend as int,
            va,
        )
}

/// True when `r` is for the second word of the index entry at `at`, which refers to a place
/// in the unwind entries: by the symbol at their start and the distance from it.
pub open spec fn is_index_entry(
    data: Seq<u8>,
    vaddr: u64,
    extab: Extab,
    at: int,
    r: UnwindRelocView,
) -> bool {
    let word = le_value(data, at + 4, 4);
    &&& r.offset == at + 4
    &&& r.name == "__delink_arm_extab_start"@
    &&& word != 1
    &&& word < 0x8000_0000
    &&& 0 <= r.addend < extab.size || extab.size > i64::MAX
    &&& exists|va: u64| #[trigger]
        refers_to(vaddr + at + 4, word, va) && (extab.vaddr + r.addend - va)
            % 0x1_0000_0000_0000_0000 == 0
}

proof fn lemma_index_words(
    data: Seq<u8>,
    vaddr: u64,
    symbols: GlobalSymbols,
    extab: Extab,
    at: int,
)
    requires
        0 <= at,
        at + 8 <= data.len() <= u64::MAX,
    ensures
        index_function(data, vaddr, symbols, at) matches Some(r) ==> is_index_function(
            data,
            vaddr,
            symbols,
            at,
            r,
        ),
        index_function(data, vaddr, symbols, at) is None ==> forall|r: UnwindRelocView|
            !#[trigger] is_index_function(data, vaddr, symbols, at, r),
        index_entry(data, vaddr, extab, at) matches Some(r) ==> is_index_entry(
            data,
            vaddr,
            extab,
            at,
            r,
        ),
{
    lemma_positive(data, at);
    lemma_positive(data, at + 4);
    let word = le_value(data, at, 4) as u32;
    let place = vaddr.wrapping_add(at as u64);
    lemma_prel31(place, word);
    let va = prel31_target(place, word);
    assert(refers_to(vaddr + at, le_value(data, at, 4), va));
    law_targets_denote_their_address(symbols, va);
    if let Some(r) = index_function(data, vaddr, symbols, at) {
        assert(denotes(symbols, r.name, r.addend as int, va));
    } else {
        assert forall|r: UnwindRelocView| !#[trigger] is_index_function(
            data,
            vaddr,
            symbols,
            at,
            r,
        ) by {
            if is_index_function(data, vaddr, symbols, at, r) {
                let x = choose|x: u64| #[trigger]
                    refers_to(vaddr + at, le_value(data, at, 4), x) && denotes(
                        symbols,
                        r.name,
                        r.addend as int,
                        x,
                    );
                assert(x == va);
            }
        }
    }
    let second = le_value(data, at + 4, 4) as u32;
    let spot = vaddr.wrapping_add(at as u64).wrapping_add(4);
    lemma_prel31(spot, second);
    let there = prel31_target(spot, second);
    assert(refers_to(vaddr + at + 4, le_value(data, at + 4, 4), there));
    assert(second & 0x8000_0000 == 0 <==> second < 0x8000_0000) by (bit_vector);
    if let Some(r) = index_entry(data, vaddr, extab, at) {
        let offset = there.wrapping_sub(extab.vaddr);
        assert(offset < 0x8000_0000_0000_0000u64 ==> offset as i64 == offset) by (bit_vector);
        assert(offset >= 0x8000_0000_0000_0000u64 ==> offset as i64 == offset
            - 0x1_0000_0000_0000_0000) by (bit_vector);
        let e = extab.vaddr + r.addend - there;
        assert(e == 0 || e == 0x1_0000_0000_0000_0000 || e == -0x1_0000_0000_0000_0000);
        assert(e % 0x1_0000_0000_0000_0000 == 0);
    }
}

/// True when `r` is for a word of an index entry from `from` on.
pub open spec fn is_of_index(
    data: Seq<u8>,
    vaddr: u64,
    symbols: GlobalSymbols,
    extab: Extab,
    from: int,
    r: UnwindRelocView,
) -> bool {
    exists|at: int| #[trigger]
        is_at_entry(data, from, at) && (is_index_function(data, vaddr, symbols, at, r)
            || is_index_entry(data, vaddr, extab, at, r))
}

/// True when an index entry begins at `at`: entries have eight bytes.
pub open spec fn is_at_entry(data: Seq<u8>, from: int, at: int) -> bool {
    from <= at && (at - from) % 8 == 0 && at + 8 <= data.len()
}

proof fn lemma_index(
    out: Seq<UnwindRelocView>,
    data: Seq<u8>,
    vaddr: u64,
    symbols: GlobalSymbols,
    extab: Extab,
    from: int,
)
    requires
        0 <= from,
        data.len() <= u64::MAX,
    ensures
        ({
            let end = with_index(out, data, vaddr, symbols, extab, from);
            &&& out.len() <= end.len()
            &&& forall|k: int| 0 <= k < out.len() ==> end[k] == #[trigger] out[k]
            &&& forall|k: int|
                out.len() <= k < end.len() ==> is_of_index(
                    data,
                    vaddr,
                    symbols,
                    extab,
                    from,
                    #[trigger] end[k],
                )
            &&& forall|at: int, r: UnwindRelocView| #[trigger]
                is_at_entry(data, from, at) && #[trigger] is_index_function(
                    data,
                    vaddr,
                    symbols,
                    at,
                    r,
                ) ==> has_function_at(end, out.len() as int, data, vaddr, symbols, at)
        }),
    decreases data.len() - from,
{
    if from + 8 <= data.len() {
        lemma_index_words(data, vaddr, symbols, extab, from);
        let f = index_function(data, vaddr, symbols, from);
        let e = index_entry(data, vaddr, extab, from);
        let one = pushed(out, f);
        let next = pushed(one, e);
        lemma_index(next, data, vaddr, symbols, extab, from + 8);
        let end = with_index(out, data, vaddr, symbols, extab, from);
        assert(is_at_entry(data, from, from));
        assert forall|k: int| 0 <= k < out.len() implies end[k] == #[trigger] out[k] by {
            assert(one[k] == out[k]);
            assert(next[k] == one[k]);
        }
        if f is Some {
            let k = out.len() as int;
            assert(one[k] == f->0);
            assert(next[k] == one[k]);
            assert(end[k] == next[k]);
        }
        assert forall|k: int| out.len() <= k < end.len() implies is_of_index(
            data,
            vaddr,
            symbols,
            extab,
            from,
            #[trigger] end[k],
        ) by {
            if k < next.len() {
                assert(end[k] == next[k]);
                if k < one.len() {
                    assert(next[k] == one[k]);
                }
            } else {
                assert(is_of_index(data, vaddr, symbols, extab, from + 8, end[k]));
                let at = choose|at: int| #[trigger]
                    is_at_entry(data, from + 8, at) && (is_index_function(
                        data,
                        vaddr,
                        symbols,
                        at,
                        end[k],
                    ) || is_index_entry(data, vaddr, extab, at, end[k]));
                assert(is_at_entry(data, from, at));
            }
        }
        assert forall|at: int, r: UnwindRelocView| #[trigger]
            is_at_entry(data, from, at) && #[trigger] is_index_function(
                data,
                vaddr,
                symbols,
                at,
                r,
            ) implies has_function_at(end, out.len() as int, data, vaddr, symbols, at) by {
            if at == from {
                assert(f is Some);
                assert(is_index_function(data, vaddr, symbols, at, end[out.len() as int]));
            } else {
                assert(is_at_entry(data, from + 8, at));
                assert(has_function_at(
                    end,
                    next.len() as int,
                    data,
                    vaddr,
                    symbols,
                    at,
                ));
                let k = choose|k: int|
                    next.len() <= k < end.len() && is_index_function(
                        data,
                        vaddr,
                        symbols,
                        at,
                        #[trigger] end[k],
                    );
                assert(is_index_function(data, vaddr, symbols, at, end[k]));
            }
        }
    }
}

/// True when one of the relocations from `lo` on is for the first word of the entry at `at`.
pub open spec fn has_function_at(
    relocs: Seq<UnwindRelocView>,
    lo: int,
    data: Seq<u8>,
    vaddr: u64,
    symbols: GlobalSymbols,
    at: int,
) -> bool {
    exists|k: int|
        lo <= k < relocs.len() && is_index_function(data, vaddr, symbols, at, #[trigger] relocs[k])
}

/// Each relocation of the unwind index is for a word of an entry: for the first by a symbol
/// and an addend that denote the function it refers to, for the second by the place in the
/// unwind entries that it refers to. Each entry of a known function has the first.
pub proof fn law_index_keeps_its_functions(
    data: Seq<u8>,
    vaddr: u64,
    symbols: GlobalSymbols,
    extab: Extab,
    at: int,
    r: UnwindRelocView,
)
    requires
        data.len() <= u64::MAX,
    ensures
        ({
            let end = with_index(Seq::empty(), data, vaddr, symbols, extab, 0);
            &&& forall|k: int|
                0 <= k < end.len() ==> is_of_index(
                    data,
                    vaddr,
                    symbols,
                    extab,
                    0,
                    #[trigger] end[k],
                )
            &&& is_at_entry(data, 0, at) && is_index_function(data, vaddr, symbols, at, r)
                ==> has_function_at(end, 0, data, vaddr, symbols, at)
        }),
{
    lemma_index(Seq::empty(), data, vaddr, symbols, extab, 0);
}

/// Expanding an immediate turns its low byte right by twice the number above it: turning it
/// left again gives back the byte.
pub proof fn law_immediates_turn_back(imm12: u32)
    requires
        imm12 < 0x1000,
    ensures
        ({
            let v = spec_expand_imm12(imm12);
            let turn = (2 * (imm12 / 0x100)) as u32;
            if turn == 0 {
                v == imm12 % 0x100
            } else {
                (v << turn) | (v >> ((32 - turn) as u32)) == imm12 % 0x100
            }
        }),
{
    let rot = (imm12 >> 8) & 0xf;
    let val = imm12 & 0xff;
    assert((imm12 >> 8) & 0xf == imm12 / 0x100 && imm12 & 0xff == imm12 % 0x100 && ((imm12 >> 8)
        & 0xf) <= 15 && (imm12 & 0xff) <= 0xff) by (bit_vector)
        requires
            imm12 < 0x1000,
    ;
    let right = (2 * rot) as u32;
    let left = (32 - 2 * rot) as u32;
    if rot != 0 {
        assert({
            let v = (val >> right) | (val << left);
            (v << right) | (v >> left) == val
        }) by (bit_vector)
            requires
                2 <= right <= 30,
                left == 32 - right,
                val <= 0xff,
        ;
    }
}

/// How many of the first `n` relocations are for stubs of the procedure linkage table.
pub open spec fn stubs_before(relocs: Seq<DynRelocView>, n: int) -> int
    decreases n,
{
    if n <= 0 {
        0
    } else {
        stubs_before(relocs, n - 1) + (if is_stub(relocs, n - 1) {
            1int
        } else {
            0
        })
    }
}

/// True when relocation `i` is for a stub of the procedure linkage table.
pub open spec fn is_stub(relocs: Seq<DynRelocView>, i: int) -> bool {
    0 <= i < relocs.len() && relocs[i].from_plt_section && relocs[i].sym_name.len() > 0
}

/// The address of stub number `k` where stubs have `entry` bytes and the first is at
/// `first`.
pub open spec fn stub_address(first: u64, entry: int, k: int) -> int {
    (first + entry * k) % 0x1_0000_0000_0000_0000
}

/// True when relocation `i` is for the stub at `stub`: it is in the place among the
/// relocations that the stub has among the stubs.
pub open spec fn is_stub_at(
    relocs: Seq<DynRelocView>,
    i: int,
    first: u64,
    entry: int,
    stub: u64,
) -> bool {
    is_stub(relocs, i) && stub == stub_address(first, entry, stubs_before(relocs, i))
}

proof fn lemma_stubs_before(relocs: Seq<DynRelocView>, i: int, n: int)
    requires
        0 <= i <= n,
    ensures
        0 <= stubs_before(relocs, i) <= stubs_before(relocs, n) <= stubs_before(relocs, i) + (n
            - i),
        i < n && is_stub(relocs, i) ==> stubs_before(relocs, i) < stubs_before(relocs, n),
    decreases n - i, n,
{
    if i < n {
        lemma_stubs_before(relocs, i, n - 1);
        if n - 1 == i {
            lemma_not_negative(relocs, i);
        }
    } else {
        lemma_not_negative(relocs, i);
    }
}

proof fn lemma_not_negative(relocs: Seq<DynRelocView>, n: int)
    ensures
        0 <= stubs_before(relocs, n),
    decreases n,
{
    if n > 0 {
        lemma_not_negative(relocs, n - 1);
    }
}

/// Two stubs have two addresses.
proof fn lemma_stubs_differ(first: u64, entry: int, j: int, k: int)
    requires
        entry == 16 || entry == 12,
        0 <= j < k <= 0x100_0000_0000_0000,
    ensures
        stub_address(first, entry, j) != stub_address(first, entry, k),
{
    if entry == 16 {
        assert(entry * j == 16 * j && entry * k == 16 * k);
    } else {
        assert(entry * j == 12 * j && entry * k == 12 * k);
    }
}

proof fn lemma_indexed(
    m: Map<u64, Seq<char>>,
    relocs: Seq<DynRelocView>,
    first: u64,
    entry: u64,
    n: int,
    stub: u64,
    name: Seq<char>,
)
    requires
        entry == 16 || entry == 12,
        0 <= n <= relocs.len() <= 0x100_0000_0000_0000,
        m.contains_key(stub) && m[stub] == name <==> exists|i: int|
            i < n && #[trigger] is_stub_at(relocs, i, first, entry as int, stub)
                && relocs[i].sym_name == name,
    ensures
        ({
            let end = with_indexed(
                m,
                relocs,
                stub_address(first, entry as int, stubs_before(relocs, n)) as u64,
                entry,
                n,
            );
            end.contains_key(stub) && end[stub] == name <==> exists|i: int| #[trigger]
                is_stub_at(relocs, i, first, entry as int, stub) && relocs[i].sym_name == name
        }),
    decreases relocs.len() - n,
{
    let e = entry as int;
    if n < relocs.len() {
        let k = stubs_before(relocs, n);
        let here = stub_address(first, e, k) as u64;
        lemma_not_negative(relocs, n);
        let next = if is_stub(relocs, n) {
            m.insert(here, relocs[n].sym_name)
        } else {
            m
        };
        if is_stub(relocs, n) {
            assert(is_stub_at(relocs, n, first, e, here));
            assert(stubs_before(relocs, n + 1) == k + 1);
            assert(e * (k + 1) == e * k + e) by (nonlinear_arith);
            assert(here.wrapping_add(entry) == stub_address(first, e, k + 1));
        }
        assert(next.contains_key(stub) && next[stub] == name <==> exists|i: int|
            i < n + 1 && #[trigger] is_stub_at(relocs, i, first, e, stub) && relocs[i].sym_name
                == name) by {
            if is_stub(relocs, n) && stub == here {
                assert forall|i: int| i < n && #[trigger] is_stub_at(
                    relocs,
                    i,
                    first,
                    e,
                    stub,
                ) implies false by {
                    lemma_stubs_before(relocs, i, n);
                    lemma_stubs_before(relocs, 0, n);
                    lemma_not_negative(relocs, i);
                    lemma_stubs_differ(first, e, stubs_before(relocs, i), k);
                }
            }
            if exists|i: int|
                i < n && #[trigger] is_stub_at(relocs, i, first, e, stub) && relocs[i].sym_name
                    == name {
                let i = choose|i: int|
                    i < n && #[trigger] is_stub_at(relocs, i, first, e, stub)
                        && relocs[i].sym_name == name;
                assert(i < n + 1 && is_stub_at(relocs, i, first, e, stub));
            }
            if exists|i: int|
                i < n + 1 && #[trigger] is_stub_at(relocs, i, first, e, stub) && relocs[i].sym_name
                    == name {
                let i = choose|i: int|
                    i < n + 1 && #[trigger] is_stub_at(relocs, i, first, e, stub)
                        && relocs[i].sym_name == name;
                if i < n {
                    assert(i < n && is_stub_at(relocs, i, first, e, stub));
                }
            }
        }
        lemma_indexed(next, relocs, first, entry, n + 1, stub, name);
    } else {
        assert forall|i: int| #[trigger] is_stub_at(relocs, i, first, e, stub) implies i < n by {}
    }
}

/// The stubs of an AArch64 image stand for the symbols of its stub relocations, in their
/// order: behind a first entry of 32 bytes come entries of 16 bytes.
pub proof fn law_stubs_stand_for_their_relocations(
    binary: super::binary::Binary,
    relocs: Seq<DynRelocView>,
    range: std::ops::Range<u64>,
    stub: u64,
    name: Seq<char>,
)
    requires
        binary.arch == Arch::Aarch64,
        relocs.len() <= 0x100_0000_0000_0000,
    ensures
        ({
            let plt = plt_map(binary, relocs, Some(range));
            let first = ((range.start + 32) % 0x1_0000_0000_0000_0000) as u64;
            plt.contains_key(stub) && plt[stub] == name <==> exists|i: int| #[trigger]
                is_stub_at(relocs, i, first, 16, stub) && relocs[i].sym_name == name
        }),
{
    let first = ((range.start + 32) % 0x1_0000_0000_0000_0000) as u64;
    assert(first == range.start.wrapping_add(32));
    assert(stubs_before(relocs, 0) == 0);
    assert(stub_address(first, 16, 0) == first);
    assert forall|i: int| i < 0 implies !#[trigger] is_stub_at(relocs, i, first, 16, stub) by {}
    lemma_indexed(Map::empty(), relocs, first, 16, 0, stub, name);
}

} // verus!
