//! What the object for shared data has at the starts of its sections, and what the
//! pointers in them refer to.
use std::ops::Range;
use vstd::prelude::*;

use super::emit::{
    machine_of, marks_pointer, pointer_reloc, pointer_width, shared_object, shared_sections,
    slot_index, with_shared_relocs, with_shared_section, with_shared_symbols, SharedModel, Slot,
};
use super::image::{
    first_section, section_index, section_index_of_va, BaseRelocKind, PeArch, PeContext, PeSection,
};
use super::symbols::{
    section_range, PeGlobalSymbols, SYM_BSS_START, SYM_DATA_START, SYM_RDATA_START,
};
use crate::bytes::{le_value, lemma_le_bytes_len, patched};
use crate::linkage::LinkageModel;
use crate::objfile::{
    field_bias, field_bytes, field_width, mangled, symbol, ObjectFormat, ObjectModel, RelocationType, SectionKind, SymbolKind,
    SymbolModel,
};
use crate::ordered::keys_between;
use crate::placing::{
    extends, has_relocation, is_called, knows, lemma_called_stays, lemma_extends_on,
    lemma_knows_over, lemma_reference, lemma_relocation_stays,
};
use crate::ranges::bytes_at;

verus! {

broadcast use {
    vstd::std_specs::btree::group_btree_axioms,
    vstd::hash_map::group_hash_map_axioms,
};

/// True when section `k` is the first called `name`.
pub open spec fn is_first_called(sections: Seq<PeSection>, name: Seq<char>, k: int) -> bool {
    &&& 0 <= k < sections.len()
    &&& sections[k].name@ == name
    &&& forall|j: int| 0 <= j < k ==> (#[trigger] sections[j]).name@ != name
}

/// True when `r` begins where the first section called `name` begins and is as long, or is
/// nothing where there is no such section. An end beyond the address space wraps.
pub open spec fn is_range_of(
    sections: Seq<PeSection>,
    name: Seq<char>,
    r: Option<Range<u64>>,
) -> bool {
    match r {
        Some(x) => exists|k: int| #[trigger]
            is_first_called(sections, name, k) && x.start == sections[k].va && x.end == (
            sections[k].va + sections[k].virtual_size) % 0x1_0000_0000_0000_0000,
        None => forall|k: int| !#[trigger] is_first_called(sections, name, k),
    }
}

/// True when the symbols know the ranges of the sections.
pub open spec fn is_of(symbols: PeGlobalSymbols, sections: Seq<PeSection>) -> bool {
    &&& is_range_of(sections, ".text"@, symbols.text_range)
    &&& is_range_of(sections, ".rdata"@, symbols.rdata_range)
    &&& is_range_of(sections, ".data"@, symbols.data_range)
    &&& is_range_of(sections, ".bss"@, symbols.bss_range)
    &&& is_range_of(sections, ".idata"@, symbols.idata_range)
}

/// The range of a section is that of the first section of the name.
pub proof fn law_ranges_are_those_of_the_sections(sections: Seq<PeSection>, name: Seq<char>)
    ensures
        is_range_of(sections, name, section_range(sections, name)),
    decreases sections.len(),
{
    if sections.len() > 0 {
        if sections[0].name@ == name {
            assert(is_first_called(sections, name, 0));
        } else {
            let rest = sections.drop_first();
            law_ranges_are_those_of_the_sections(rest, name);
            match section_range(rest, name) {
                Some(x) => {
                    let k = choose|k: int| #[trigger]
                        is_first_called(rest, name, k) && x.start == rest[k].va && x.end == (
                        rest[k].va + rest[k].virtual_size) % 0x1_0000_0000_0000_0000;
                    assert(sections[k + 1] == rest[k]);
                    assert forall|j: int| 0 <= j < k + 1 implies (#[trigger] sections[j]).name@
                        != name by {
                        if j > 0 {
                            assert(sections[j] == rest[j - 1]);
                        }
                    }
                    assert(is_first_called(sections, name, k + 1));
                },
                None => {
                    assert forall|k: int| !#[trigger] is_first_called(sections, name, k) by {
                        if is_first_called(sections, name, k) {
                            assert(rest[k - 1] == sections[k]);
                            assert forall|j: int| 0 <= j < k - 1 implies (#[trigger] rest[j]).name@
                                != name by {
                                assert(rest[j] == sections[j + 1]);
                            }
                            assert(is_first_called(rest, name, k - 1));
                        }
                    }
                },
            }
        }
    }
}

/// True when `r` is the first section that `p` holds of.
spec fn is_found(
    sections: Seq<PeSection>,
    p: spec_fn(PeSection) -> bool,
    r: Option<int>,
) -> bool {
    match r {
        Some(k) => 0 <= k < sections.len() && p(sections[k]) && forall|j: int|
            0 <= j < k ==> !p(#[trigger] sections[j]),
        None => forall|j: int| 0 <= j < sections.len() ==> !p(#[trigger] sections[j]),
    }
}

proof fn lemma_first_section(
    sections: Seq<PeSection>,
    p: spec_fn(PeSection) -> bool,
    i: int,
)
    requires
        0 <= i <= sections.len(),
        forall|j: int| 0 <= j < i ==> !p(#[trigger] sections[j]),
    ensures
        is_found(sections, p, first_section(sections, p, i)),
    decreases sections.len() - i,
{
    if i < sections.len() && !p(sections[i]) {
        lemma_first_section(sections, p, i + 1);
    }
}

pub proof fn lemma_section_index(sections: Seq<PeSection>, name: Seq<char>)
    ensures
        match section_index(sections, name) {
            Some(k) => is_first_called(sections, name, k),
            None => forall|k: int| !#[trigger] is_first_called(sections, name, k),
        },
        forall|j: int, k: int| #[trigger]
            is_first_called(sections, name, j) && #[trigger] is_first_called(sections, name, k)
                ==> j == k,
{
    assert forall|p: spec_fn(PeSection) -> bool| #[trigger]
        first_section(sections, p, 0) == first_section(sections, p, 0) implies is_found(
        sections,
        p,
        first_section(sections, p, 0),
    ) by {
        lemma_first_section(sections, p, 0);
    }
}

/// True when slot `j` is for section `k` of the image, which is the first called `name`: the
/// object has a section of that name, and at its start the symbol `start`.
pub open spec fn is_slot_of(
    m: ObjectModel,
    slots: Seq<Slot>,
    j: int,
    sections: Seq<PeSection>,
    name: Seq<char>,
    k: int,
    start: Seq<char>,
) -> bool {
    &&& 0 <= j < slots.len()
    &&& is_first_called(sections, name, k)
    &&& slots[j].va == sections[k].va
    &&& slots[j].size == sections[k].virtual_size
    &&& slots[j].sid < m.sections.len()
    &&& m.sections[slots[j].sid as int].name == name
    &&& exists|s: int| #[trigger] is_start(m, s, start, slots[j].sid as nat)
}

/// True when symbol `s` is `start`, at the start of section `sid`.
pub open spec fn is_start(m: ObjectModel, s: int, start: Seq<char>, sid: nat) -> bool {
    &&& 0 <= s < m.symbols.len()
    &&& m.symbols[s].name == mangled(m.format, m.machine, start, SymbolKind::Data)
    &&& m.symbols[s].section == Some(sid)
    &&& m.symbols[s].value == 0
    &&& m.symbols[s].global
}

/// The data sections of an image and the symbols at their starts.
pub open spec fn is_shared(name: Seq<char>, start: Seq<char>) -> bool {
    ||| name == ".rdata"@ && start == "__delink_pe_rdata_start"@
    ||| name == ".data"@ && start == "__delink_pe_data_start"@
    ||| name == ".bss"@ && start == "__delink_pe_bss_start"@
}

/// True when each data section of the image has a slot and each slot is for one.
pub open spec fn has_slots(m: ObjectModel, slots: Seq<Slot>, sections: Seq<PeSection>) -> bool {
    &&& forall|name: Seq<char>, start: Seq<char>, k: int| #[trigger]
        is_shared(name, start) && #[trigger] is_first_called(sections, name, k) ==> exists|j: int|
            #[trigger]
            is_slot_of(m, slots, j, sections, name, k, start)
    &&& forall|j: int|
        0 <= j < slots.len() ==> #[trigger] is_slot(m, slots, j, sections)
}

/// True when slot `j` is for a data section of the image.
pub open spec fn is_slot(
    m: ObjectModel,
    slots: Seq<Slot>,
    j: int,
    sections: Seq<PeSection>,
) -> bool {
    exists|name: Seq<char>, start: Seq<char>, k: int| #[trigger]
        is_shared(name, start) && #[trigger] is_slot_of(m, slots, j, sections, name, k, start)
}

proof fn lemma_slot_stays(
    a: ObjectModel,
    b: ObjectModel,
    slots: Seq<Slot>,
    more: Seq<Slot>,
    j: int,
    sections: Seq<PeSection>,
    name: Seq<char>,
    k: int,
    start: Seq<char>,
)
    requires
        extends(a, b),
        slots.len() <= more.len(),
        forall|i: int| 0 <= i < slots.len() ==> more[i] == #[trigger] slots[i],
        is_slot_of(a, slots, j, sections, name, k, start),
    ensures
        is_slot_of(b, more, j, sections, name, k, start),
{
    assert(more[j] == slots[j]);
    let sid = slots[j].sid as nat;
    assert(b.sections[sid as int].name == a.sections[sid as int].name);
    let s = choose|s: int| #[trigger] is_start(a, s, start, sid);
    assert(b.symbols[s] == a.symbols[s]);
    assert(is_start(b, s, start, sid));
}

/// Slots have sections of their own.
spec fn slots_differ(s: SharedModel) -> bool {
    &&& forall|i: int|
        0 <= i < s.slots.len() ==> (#[trigger] s.slots[i]).sid < s.l.obj.sections.len()
    &&& forall|i: int, j: int|
        0 <= i < j < s.slots.len() ==> (#[trigger] s.slots[i]).sid != (#[trigger] s.slots[j]).sid
}

/// What a section adds.
proof fn lemma_shared_section(
    s: SharedModel,
    pe: &PeContext,
    name: Seq<char>,
    kind: SectionKind,
    start: Seq<char>,
)
    requires
        s.l.obj.sections.len() <= usize::MAX,
        s.l.local.len() == 0 && s.l.local == Map::<Seq<char>, usize>::empty(),
        s.l.undef == Map::<Seq<char>, usize>::empty(),
    ensures
        ({
            let next = with_shared_section(s, pe, name, kind, start);
            &&& extends(s.l.obj, next.l.obj)
            &&& s.slots.len() <= next.slots.len()
            &&& forall|i: int| 0 <= i < s.slots.len() ==> next.slots[i] == #[trigger] s.slots[i]
            &&& next.l.local == s.l.local
            &&& next.l.undef == s.l.undef
            &&& next.l.obj.sections.len() <= s.l.obj.sections.len() + 1
            &&& next.l.obj.symbols.len() <= s.l.obj.symbols.len() + 1
            &&& forall|k: int| #[trigger]
                is_first_called(pe.sections@, name, k) ==> is_slot_of(
                    next.l.obj,
                    next.slots,
                    s.slots.len() as int,
                    pe.sections@,
                    name,
                    k,
                    start,
                )
            &&& next.slots.len() == s.slots.len() || {
                &&& next.slots.len() == s.slots.len() + 1
                &&& exists|k: int| #[trigger] is_first_called(pe.sections@, name, k)
            }
            &&& slots_differ(s) ==> slots_differ(next)
            &&& forall|i: int|
                0 <= i < s.l.obj.sections.len() ==> #[trigger] next.l.obj.sections[i]
                    == s.l.obj.sections[i]
            &&& forall|i: int|
                s.l.obj.sections.len() <= i < next.l.obj.sections.len() ==> (
                #[trigger] next.l.obj.sections[i]).relocations.len() == 0
        }),
{
    lemma_section_index(pe.sections@, name);
    let next = with_shared_section(s, pe, name, kind, start);
    if let Some(k) = section_index(pe.sections@, name) {
        let n = s.l.obj.symbols.len() as int;
        let sid = s.l.obj.sections.len() as nat;
        assert(is_start(next.l.obj, n, start, sid));
        assert(next.slots[s.slots.len() as int].sid == sid);
        assert forall|i: int| 0 <= i < s.l.obj.symbols.len() implies #[trigger] next.l.obj.symbols[i]
            == s.l.obj.symbols[i] by {}
        assert forall|i: int|
            0 <= i < s.l.obj.sections.len() implies #[trigger] next.l.obj.sections[i]
            == s.l.obj.sections[i] by {}
    }
}

/// What the data sections are.
proof fn lemma_shared_sections(pe: &PeContext)
    ensures
        ({
            let s = shared_sections(pe);
            &&& has_slots(s.l.obj, s.slots, pe.sections@)
            &&& slots_differ(s)
            &&& s.l.obj.symbols.len() <= 3
            &&& s.l.local == Map::<Seq<char>, usize>::empty()
            &&& s.l.undef == Map::<Seq<char>, usize>::empty()
            &&& s.l.obj.format == ObjectFormat::Coff
            &&& forall|i: int|
                0 <= i < s.l.obj.sections.len() ==> (
                #[trigger] s.l.obj.sections[i]).relocations.len() == 0
        }),
{
    let empty = SharedModel {
        l: LinkageModel::empty(ObjectFormat::Coff, machine_of(pe.arch)),
        slots: Seq::empty(),
    };
    let x = pe.sections@;
    let a = with_shared_section(empty, pe, ".rdata"@, SectionKind::ReadOnlyData, SYM_RDATA_START@);
    let b = with_shared_section(a, pe, ".data"@, SectionKind::Data, SYM_DATA_START@);
    let c = with_shared_section(b, pe, ".bss"@, SectionKind::UninitializedData, SYM_BSS_START@);
    assert(c == shared_sections(pe));
    lemma_shared_section(empty, pe, ".rdata"@, SectionKind::ReadOnlyData, SYM_RDATA_START@);
    lemma_shared_section(a, pe, ".data"@, SectionKind::Data, SYM_DATA_START@);
    lemma_shared_section(b, pe, ".bss"@, SectionKind::UninitializedData, SYM_BSS_START@);
    lemma_extends_on(a.l.obj, b.l.obj, c.l.obj);
    assert(is_shared(".rdata"@, SYM_RDATA_START@));
    assert(is_shared(".data"@, SYM_DATA_START@));
    assert(is_shared(".bss"@, SYM_BSS_START@));
    reveal_strlit(".rdata");
    reveal_strlit(".data");
    reveal_strlit(".bss");
    assert(".rdata"@.len() == 6 && ".data"@.len() == 5 && ".bss"@.len() == 4);
    assert forall|name: Seq<char>, start: Seq<char>, k: int| #[trigger]
        is_shared(name, start) && #[trigger] is_first_called(x, name, k) implies exists|j: int|
        #[trigger]
        is_slot_of(c.l.obj, c.slots, j, x, name, k, start) by {
        if name == ".rdata"@ {
            lemma_slot_stays(a.l.obj, c.l.obj, a.slots, c.slots, 0, x, name, k, start);
        } else if name == ".data"@ {
            let j = a.slots.len() as int;
            lemma_slot_stays(b.l.obj, c.l.obj, b.slots, c.slots, j, x, name, k, start);
        } else {
            assert(is_slot_of(c.l.obj, c.slots, b.slots.len() as int, x, name, k, start));
        }
    }
    assert forall|j: int| 0 <= j < c.slots.len() implies #[trigger] is_slot(
        c.l.obj,
        c.slots,
        j,
        x,
    ) by {
        if j < a.slots.len() {
            let k = choose|k: int| #[trigger] is_first_called(x, ".rdata"@, k);
            lemma_slot_stays(
                a.l.obj,
                c.l.obj,
                a.slots,
                c.slots,
                j,
                x,
                ".rdata"@,
                k,
                SYM_RDATA_START@,
            );
        } else if j < b.slots.len() {
            let k = choose|k: int| #[trigger] is_first_called(x, ".data"@, k);
            lemma_slot_stays(
                b.l.obj,
                c.l.obj,
                b.slots,
                c.slots,
                j,
                x,
                ".data"@,
                k,
                SYM_DATA_START@,
            );
        } else {
            let k = choose|k: int| #[trigger] is_first_called(x, ".bss"@, k);
            assert(is_slot_of(c.l.obj, c.slots, j, x, ".bss"@, k, SYM_BSS_START@));
        }
    }
}

/// The width of pointers.
pub open spec fn width_of(arch: PeArch) -> int {
    match arch {
        PeArch::X86_64 => 8,
        PeArch::X86 => 4,
    }
}

/// The kind of relocations that install pointers: `IMAGE_REL_AMD64_ADDR64`, or
/// `IMAGE_REL_I386_DIR32`.
pub open spec fn kind_of(arch: PeArch) -> RelocationType {
    match arch {
        PeArch::X86_64 => RelocationType::Coff(1),
        PeArch::X86 => RelocationType::Coff(6),
    }
}

/// True when a base relocation marks a pointer of the image's width.
pub open spec fn is_marked(arch: PeArch, kind: BaseRelocKind) -> bool {
    match arch {
        PeArch::X86_64 => kind == BaseRelocKind::Dir64,
        PeArch::X86 => kind == BaseRelocKind::HighLow,
    }
}

/// True when slot `j` is the first that holds `w` bytes at `va`.
pub open spec fn lies_in(slots: Seq<Slot>, va: u64, w: int, j: int) -> bool {
    &&& 0 <= j < slots.len()
    &&& slots[j].va <= va
    &&& va + w <= slots[j].va + slots[j].size
    &&& forall|i: int|
        0 <= i < j ==> !((#[trigger] slots[i]).va <= va && va + w <= slots[i].va + slots[i].size)
}

/// True when section `k` is the first that holds `va`.
pub open spec fn is_first_holding(sections: Seq<PeSection>, va: u64, k: int) -> bool {
    &&& 0 <= k < sections.len()
    &&& sections[k].va <= va < sections[k].va + sections[k].virtual_size
    &&& forall|j: int|
        0 <= j < k ==> !((#[trigger] sections[j]).va <= va < sections[j].va
            + sections[j].virtual_size)
}

/// True when the image has the pointer `value` at `va`.
pub open spec fn holds_value(pe: &PeContext, va: u64, value: u64) -> bool {
    exists|k: int| #[trigger]
        is_first_holding(pe.sections@, va, k) && va - pe.sections@[k].va + width_of(pe.arch)
            <= pe.sections@[k].data@.len() && value == le_value(
            pe.sections@[k].data@,
            va - pe.sections@[k].va,
            width_of(pe.arch) as nat,
        )
}

/// True when base relocation `i` marks the pointer `value`, in slot `j`.
pub open spec fn is_pointer(pe: &PeContext, slots: Seq<Slot>, i: int, j: int, value: u64) -> bool {
    let br = pe.base_relocations@[i];
    &&& 0 <= i < pe.base_relocations@.len()
    &&& is_marked(pe.arch, br.kind)
    &&& lies_in(slots, br.va, width_of(pe.arch), j)
    &&& holds_value(pe, br.va, value)
}

/// True when no other base relocation marks any of the bytes that base relocation `i` marks.
pub open spec fn is_alone(pe: &PeContext, i: int) -> bool {
    forall|k: int|
        0 <= k < pe.base_relocations@.len() && k != i ==> {
            let a = pe.base_relocations@[i].va;
            let b = (#[trigger] pe.base_relocations@[k]).va;
            a + width_of(pe.arch) <= b || b + width_of(pe.arch) <= a
        }
}

/// True when the field at `off` of section `sid` holds the number.
pub open spec fn holds_number(m: ObjectModel, sid: int, off: int, w: int, n: int) -> bool {
    &&& 0 <= off
    &&& off + w <= m.sections[sid].data.len()
    &&& forall|b: int|
        0 <= b < w ==> #[trigger] m.sections[sid].data[off + b] == field_bytes(n, w as nat)[b]
}

/// True when relocation `p` of the section of slot `j` installs the pointer that base
/// relocation `i` marks, at its place, by `name` and `addend`, which denote it. An addend
/// that is not zero is in the field.
pub open spec fn installs(
    m: ObjectModel,
    pe: &PeContext,
    slots: Seq<Slot>,
    i: int,
    j: int,
    value: u64,
    name: Seq<char>,
    addend: i64,
    p: int,
) -> bool {
    let off = pe.base_relocations@[i].va - slots[j].va;
    &&& is_pointer(pe, slots, i, j, value)
    &&& pe.symbols.stands_for(name, addend, value)
    &&& has_relocation(m, slots[j].sid as int, p, off, kind_of(pe.arch), name, addend as int)
    &&& addend != 0 && is_alone(pe, i) ==> holds_number(
        m,
        slots[j].sid as int,
        off,
        width_of(pe.arch),
        addend as int,
    )
}

/// True when the object installs the pointer `value` that base relocation `i` marks in slot
/// `j`.
pub open spec fn is_installed(
    m: ObjectModel,
    pe: &PeContext,
    slots: Seq<Slot>,
    i: int,
    j: int,
    value: u64,
) -> bool {
    exists|name: Seq<char>, addend: i64, p: int| #[trigger]
        installs(m, pe, slots, i, j, value, name, addend, p)
}

/// True when relocation `p` of section `sid` installs a pointer that one of the first `n`
/// base relocations marks.
pub open spec fn is_due(
    m: ObjectModel,
    pe: &PeContext,
    slots: Seq<Slot>,
    n: int,
    sid: int,
    p: int,
) -> bool {
    exists|i: int, j: int, value: u64, name: Seq<char>, addend: i64| #[trigger]
        installs(m, pe, slots, i, j, value, name, addend, p) && i < n && slots[j].sid == sid
}

/// True when the object installs the pointers that the first `n` base relocations mark, as
/// far as symbols stand for them, and nothing else.
pub open spec fn installs_all(m: ObjectModel, pe: &PeContext, slots: Seq<Slot>, n: int) -> bool {
    &&& forall|i: int, j: int, value: u64, name: Seq<char>, addend: i64|
        i < n && #[trigger] is_pointer(pe, slots, i, j, value)
            && #[trigger] pe.symbols.stands_for(name, addend, value) ==> is_installed(
            m,
            pe,
            slots,
            i,
            j,
            value,
        )
    &&& forall|sid: int, p: int|
        0 <= sid < m.sections.len() && 0 <= p < m.sections[sid].relocations.len()
            ==> #[trigger] is_due(m, pe, slots, n, sid, p)
}

proof fn lemma_slot_index(slots: Seq<Slot>, va: u64, w: int, i: int)
    requires
        0 <= i <= slots.len(),
        forall|k: int|
            0 <= k < i ==> !((#[trigger] slots[k]).va <= va && va + w <= slots[k].va
                + slots[k].size),
    ensures
        match slot_index(slots, va, w, i) {
            Some(j) => lies_in(slots, va, w, j),
            None => forall|j: int| !#[trigger] lies_in(slots, va, w, j),
        },
        forall|j: int, k: int| #[trigger]
            lies_in(slots, va, w, j) && #[trigger] lies_in(slots, va, w, k) ==> j == k,
    decreases slots.len() - i,
{
    if i < slots.len() && !(slots[i].va <= va && va + w <= slots[i].va + slots[i].size) {
        lemma_slot_index(slots, va, w, i + 1);
    }
}

proof fn lemma_value(pe: &PeContext, va: u64)
    ensures
        match pe.spec_data_at_va(va, width_of(pe.arch)) {
            Some(b) => forall|value: u64| #[trigger]
                holds_value(pe, va, value) <==> value == le_value(
                    b,
                    0,
                    width_of(pe.arch) as nat,
                ) as u64,
            None => forall|value: u64| !#[trigger] holds_value(pe, va, value),
        },
{
    let sections = pe.sections@;
    let w = width_of(pe.arch);
    assert forall|p: spec_fn(PeSection) -> bool| #[trigger]
        first_section(sections, p, 0) == first_section(sections, p, 0) implies is_found(
        sections,
        p,
        first_section(sections, p, 0),
    ) by {
        lemma_first_section(sections, p, 0);
    }
    match section_index_of_va(sections, va) {
        Some(k) => {
            assert(sections[k].spec_contains_va(va));
            assert forall|j: int| 0 <= j < k implies !((#[trigger] sections[j]).va <= va
                < sections[j].va + sections[j].virtual_size) by {
                assert(!sections[j].spec_contains_va(va));
            }
            assert(is_first_holding(sections, va, k));
            let off = va - sections[k].va;
            if off + w <= sections[k].data@.len() {
                let b = sections[k].data@.subrange(off, off + w);
                reveal_with_fuel(le_value, 9);
                assert(le_value(b, 0, w as nat) == le_value(sections[k].data@, off, w as nat));
                assert(0 <= le_value(b, 0, w as nat) <= u64::MAX);
                assert forall|value: u64| #[trigger]
                    holds_value(pe, va, value) <==> value == le_value(b, 0, w as nat) as u64 by {
                    if holds_value(pe, va, value) {
                        let h = choose|h: int| #[trigger]
                            is_first_holding(sections, va, h) && va - sections[h].va + w
                                <= sections[h].data@.len() && value == le_value(
                                sections[h].data@,
                                va - sections[h].va,
                                w as nat,
                            );
                        assert(h == k);
                    }
                }
            }
        },
        None => {
            assert forall|value: u64| !#[trigger] holds_value(pe, va, value) by {
                if holds_value(pe, va, value) {
                    let h = choose|h: int| #[trigger] is_first_holding(sections, va, h);
                    assert(!sections[h].spec_contains_va(va));
                }
            }
        },
    }
}

/// What is installed stays while symbols are added.
proof fn lemma_installs_over(
    a: ObjectModel,
    b: ObjectModel,
    pe: &PeContext,
    slots: Seq<Slot>,
    n: int,
)
    requires
        extends(a, b),
        a.sections == b.sections,
        installs_all(a, pe, slots, n),
    ensures
        installs_all(b, pe, slots, n),
{
    assert forall|i: int, j: int, value: u64, name: Seq<char>, addend: i64, p: int| #[trigger]
        installs(a, pe, slots, i, j, value, name, addend, p) implies installs(
        b,
        pe,
        slots,
        i,
        j,
        value,
        name,
        addend,
        p,
    ) by {
        let off = pe.base_relocations@[i].va - slots[j].va;
        lemma_relocation_stays(
            a,
            b,
            slots[j].sid as int,
            p,
            off,
            kind_of(pe.arch),
            name,
            addend as int,
        );
    }
    assert forall|i: int, j: int, value: u64, name: Seq<char>, addend: i64|
        i < n && #[trigger] is_pointer(pe, slots, i, j, value)
            && #[trigger] pe.symbols.stands_for(name, addend, value) implies is_installed(
        b,
        pe,
        slots,
        i,
        j,
        value,
    ) by {
        assert(is_installed(a, pe, slots, i, j, value));
        let (x, y, p) = choose|x: Seq<char>, y: i64, p: int| #[trigger]
            installs(a, pe, slots, i, j, value, x, y, p);
        assert(installs(b, pe, slots, i, j, value, x, y, p));
    }
    assert forall|sid: int, p: int|
        0 <= sid < b.sections.len() && 0 <= p
            < b.sections[sid].relocations.len() implies #[trigger] is_due(
        b,
        pe,
        slots,
        n,
        sid,
        p,
    ) by {
        assert(is_due(a, pe, slots, n, sid, p));
        let (i, j, value, x, y) = choose|i: int, j: int, value: u64, x: Seq<char>, y: i64| #[trigger]
            installs(a, pe, slots, i, j, value, x, y, p) && i < n && slots[j].sid == sid;
        assert(installs(b, pe, slots, i, j, value, x, y, p));
    }
}

/// A relocation more.
proof fn lemma_install(
    a: ObjectModel,
    pe: &PeContext,
    slots: Seq<Slot>,
    n: int,
    j: int,
    value: u64,
    name: Seq<char>,
    addend: i64,
    num: nat,
)
    requires
        installs_all(a, pe, slots, n),
        a.format == ObjectFormat::Coff,
        forall|i: int| 0 <= i < slots.len() ==> (#[trigger] slots[i]).sid < a.sections.len(),
        forall|i: int, k: int|
            0 <= i < k < slots.len() ==> (#[trigger] slots[i]).sid != (#[trigger] slots[k]).sid,
        is_pointer(pe, slots, n, j, value),
        pe.symbols.stands_for(name, addend, value),
        is_called(a, num, name),
        a.takes_relocation(
            slots[j].sid as nat,
            (pe.base_relocations@[n].va - slots[j].va) as u64,
            kind_of(pe.arch),
            addend as int,
        ),
    ensures
        ({
            let b = a.with_relocation(
                slots[j].sid as nat,
                (pe.base_relocations@[n].va - slots[j].va) as u64,
                num,
                kind_of(pe.arch),
                addend as int,
            );
            &&& installs_all(b, pe, slots, n + 1)
            &&& extends(a, b)
            &&& b.sections.len() == a.sections.len()
        }),
{
    let at = (pe.base_relocations@[n].va - slots[j].va) as u64;
    let sid = slots[j].sid as int;
    let w = width_of(pe.arch);
    let kind = kind_of(pe.arch);
    let b = a.with_relocation(sid as nat, at, num, kind, addend as int);
    lemma_le_bytes_len(addend as int % 0x1_0000_0000_0000_0000, 8);
    lemma_le_bytes_len(addend as int % 0x1_0000_0000, 4);
    assert(field_width(kind) == w);
    assert(field_bias(a.machine, kind) == 0);
    let p = a.sections[sid].relocations.len() as int;
    assert(b.sections[sid].relocations[p].offset == at);
    assert(is_called(b, num, name));
    assert(has_relocation(b, sid, p, at as int, kind, name, addend as int));
    if addend != 0 {
        let stored = field_bytes(addend as int, w as nat);
        assert(b.sections[sid].data == patched(a.sections[sid].data, at as int, stored));
        assert(holds_number(b, sid, at as int, w, addend as int));
    }
    assert(installs(b, pe, slots, n, j, value, name, addend, p));
    assert(extends(a, b));
    assert forall|i: int, h: int, v: u64, x: Seq<char>, y: i64, q: int| #[trigger]
        installs(a, pe, slots, i, h, v, x, y, q) && i < n implies installs(
        b,
        pe,
        slots,
        i,
        h,
        v,
        x,
        y,
        q,
    ) by {
        let off = pe.base_relocations@[i].va - slots[h].va;
        lemma_relocation_stays(a, b, slots[h].sid as int, q, off, kind, x, y as int);
        if y != 0 && is_alone(pe, i) {
            let t = slots[h].sid as int;
            assert(holds_number(a, t, off, w, y as int));
            if t == sid {
                assert(h == j);
                assert(pe.base_relocations@[n].va + w <= pe.base_relocations@[i].va
                    || pe.base_relocations@[i].va + w <= pe.base_relocations@[n].va);
                assert forall|z: int| 0 <= z < w implies #[trigger] b.sections[t].data[off + z]
                    == field_bytes(y as int, w as nat)[z] by {
                    assert(a.sections[t].data[off + z] == field_bytes(y as int, w as nat)[z]);
                }
            } else {
                assert(b.sections[t] == a.sections[t]);
                assert forall|z: int| 0 <= z < w implies #[trigger] b.sections[t].data[off + z]
                    == field_bytes(y as int, w as nat)[z] by {
                    assert(a.sections[t].data[off + z] == field_bytes(y as int, w as nat)[z]);
                }
            }
        }
    }
    assert forall|i: int, h: int, v: u64, x: Seq<char>, y: i64|
        i < n + 1 && #[trigger] is_pointer(pe, slots, i, h, v) && #[trigger] pe.symbols.stands_for(
            x,
            y,
            v,
        ) implies is_installed(b, pe, slots, i, h, v) by {
        if i < n {
            assert(is_installed(a, pe, slots, i, h, v));
            let (s, t, q) = choose|s: Seq<char>, t: i64, q: int| #[trigger]
                installs(a, pe, slots, i, h, v, s, t, q);
            assert(installs(b, pe, slots, i, h, v, s, t, q));
        } else {
            lemma_slot_index(slots, pe.base_relocations@[n].va, w, 0);
            lemma_value(pe, pe.base_relocations@[n].va);
            assert(h == j && v == value);
            assert(installs(b, pe, slots, i, h, v, name, addend, p));
        }
    }
    assert forall|t: int, q: int|
        0 <= t < b.sections.len() && 0 <= q
            < b.sections[t].relocations.len() implies #[trigger] is_due(
        b,
        pe,
        slots,
        n + 1,
        t,
        q,
    ) by {
        if t == sid && q == p {
            assert(installs(b, pe, slots, n, j, value, name, addend, q));
        } else {
            assert(is_due(a, pe, slots, n, t, q));
            let (i, h, v, x, y) = choose|i: int, h: int, v: u64, x: Seq<char>, y: i64| #[trigger]
                installs(a, pe, slots, i, h, v, x, y, q) && i < n && slots[h].sid == t;
            assert(installs(b, pe, slots, i, h, v, x, y, q));
        }
    }
}

/// Nothing more.
proof fn lemma_no_pointer(m: ObjectModel, pe: &PeContext, slots: Seq<Slot>, n: int)
    requires
        installs_all(m, pe, slots, n),
        forall|j: int, value: u64, name: Seq<char>, addend: i64| #[trigger]
            is_pointer(pe, slots, n, j, value) ==> !#[trigger] pe.symbols.stands_for(
                name,
                addend,
                value,
            ),
    ensures
        installs_all(m, pe, slots, n + 1),
{
    assert forall|sid: int, p: int|
        0 <= sid < m.sections.len() && 0 <= p
            < m.sections[sid].relocations.len() implies #[trigger] is_due(
        m,
        pe,
        slots,
        n + 1,
        sid,
        p,
    ) by {
        assert(is_due(m, pe, slots, n, sid, p));
        let (i, h, v, x, y) = choose|i: int, h: int, v: u64, x: Seq<char>, y: i64| #[trigger]
            installs(m, pe, slots, i, h, v, x, y, p) && i < n && slots[h].sid == sid;
        assert(installs(m, pe, slots, i, h, v, x, y, p) && i < n + 1);
    }
}

proof fn lemma_shared_relocs(
    l: LinkageModel,
    count: usize,
    pe: &PeContext,
    slots: Seq<Slot>,
    n: int,
)
    requires
        0 <= n <= pe.base_relocations@.len(),
        knows(l, as_is()),
        l.obj.format == ObjectFormat::Coff,
        forall|i: int| 0 <= i < slots.len() ==> (#[trigger] slots[i]).sid < l.obj.sections.len(),
        forall|i: int, k: int|
            0 <= i < k < slots.len() ==> (#[trigger] slots[i]).sid != (#[trigger] slots[k]).sid,
        installs_all(l.obj, pe, slots, n),
        with_shared_relocs(l, count, pe, slots, n) is Some,
        (with_shared_relocs(l, count, pe, slots, n)->0).0.obj.symbols.len() <= usize::MAX,
    ensures
        ({
            let end = (with_shared_relocs(l, count, pe, slots, n)->0).0;
            &&& installs_all(end.obj, pe, slots, pe.base_relocations@.len() as int)
            &&& extends(l.obj, end.obj)
        }),
    decreases pe.base_relocations@.len() - n,
{
    if n < pe.base_relocations@.len() {
        let br = pe.base_relocations@[n];
        let w = pointer_width(pe.arch);
        assert(w == width_of(pe.arch));
        assert(pointer_reloc(pe.arch) == kind_of(pe.arch));
        let stored = pe.spec_data_at_va(br.va, w as int);
        let slot = slot_index(slots, br.va, w as int, 0);
        lemma_slot_index(slots, br.va, w as int, 0);
        lemma_value(pe, br.va);
        if !marks_pointer(pe.arch, br.kind) || slot is None || stored is None {
            lemma_no_pointer(l.obj, pe, slots, n);
            lemma_shared_relocs(l, count, pe, slots, n + 1);
        } else {
            let value = le_value(stored->0, 0, w) as u64;
            pe.symbols.law_pointers_denote_their_address(value);
            assert(holds_value(pe, br.va, value));
            assert(is_pointer(pe, slots, n, slot->0, value));
            match pe.symbols.spec_resolve_data(value) {
                None => {
                    lemma_no_pointer(l.obj, pe, slots, n);
                    lemma_shared_relocs(l, count, pe, slots, n + 1);
                },
                Some((name, addend)) => {
                    let m = l.with_undef(name, name, SymbolKind::Data);
                    assert(as_is()(name) == name);
                    lemma_reference(l, as_is(), name, SymbolKind::Data);
                    let sid = slots[slot->0].sid as nat;
                    let at = (br.va - slots[slot->0].va) as u64;
                    let kind = pointer_reloc(pe.arch);
                    let num = l.undef_number(name) as nat;
                    let added = m.over(
                        m.obj.with_relocation(sid, at, num, kind, addend as int),
                    );
                    lemma_shared_more(added, count.wrapping_add(1), pe, slots, n + 1);
                    assert(extends(l.obj, m.obj));
                    lemma_installs_over(l.obj, m.obj, pe, slots, n);
                    lemma_install(m.obj, pe, slots, n, slot->0, value, name, addend, num);
                    lemma_knows_over(m, added, as_is());
                    lemma_shared_relocs(added, count.wrapping_add(1), pe, slots, n + 1);
                    lemma_extends_on(l.obj, m.obj, added.obj);
                    lemma_extends_on(
                        l.obj,
                        added.obj,
                        (with_shared_relocs(l, count, pe, slots, n)->0).0.obj,
                    );
                },
            }
        }
    }
}

/// Names are written as they are.
pub open spec fn as_is() -> spec_fn(Seq<char>) -> Seq<char> {
    |name: Seq<char>| name
}

proof fn lemma_shared_more(
    l: LinkageModel,
    count: usize,
    pe: &PeContext,
    slots: Seq<Slot>,
    n: int,
)
    requires
        with_shared_relocs(l, count, pe, slots, n) is Some,
    ensures
        l.obj.symbols.len() <= (with_shared_relocs(
            l,
            count,
            pe,
            slots,
            n,
        )->0).0.obj.symbols.len(),
    decreases pe.base_relocations@.len() - n,
{
    if 0 <= n < pe.base_relocations@.len() {
        let br = pe.base_relocations@[n];
        let w = pointer_width(pe.arch);
        let stored = pe.spec_data_at_va(br.va, w as int);
        let slot = slot_index(slots, br.va, w as int, 0);
        if !marks_pointer(pe.arch, br.kind) || slot is None || stored is None {
            lemma_shared_more(l, count, pe, slots, n + 1);
        } else {
            match pe.symbols.spec_resolve_data(le_value(stored->0, 0, w) as u64) {
                None => {
                    lemma_shared_more(l, count, pe, slots, n + 1);
                },
                Some((name, addend)) => {
                    let m = l.with_undef(name, name, SymbolKind::Data);
                    let sid = slots[slot->0].sid as nat;
                    let at = (br.va - slots[slot->0].va) as u64;
                    let added = m.over(
                        m.obj.with_relocation(
                            sid,
                            at,
                            l.undef_number(name) as nat,
                            pointer_reloc(pe.arch),
                            addend as int,
                        ),
                    );
                    lemma_shared_more(added, count.wrapping_add(1), pe, slots, n + 1);
                },
            }
        }
    }
}

proof fn lemma_shared_symbols(
    m: ObjectModel,
    keys: Seq<u64>,
    pe: &PeContext,
    slots: Seq<Slot>,
    i: int,
)
    ensures
        extends(m, with_shared_symbols(m, keys, pe, slots, i)),
        with_shared_symbols(m, keys, pe, slots, i).sections == m.sections,
    decreases keys.len() - i,
{
    if 0 <= i < keys.len() {
        let va = keys[i];
        let v = pe.symbols.variables@[va];
        if slot_index(slots, va, 1, 0) is Some && !super::emit::claimed(pe, va) {
            let slot = slots[slot_index(slots, va, 1, 0)->0];
            let next = m.with_symbol(
                symbol(
                    v.name@,
                    (va - slot.va) as u64,
                    0,
                    SymbolKind::Data,
                    v.is_public,
                    false,
                    Some(slot.sid),
                ),
            );
            lemma_shared_symbols(next, keys, pe, slots, i + 1);
            assert(extends(m, next));
            lemma_extends_on(m, next, with_shared_symbols(m, keys, pe, slots, i));
        } else {
            lemma_shared_symbols(m, keys, pe, slots, i + 1);
        }
    }
}

proof fn lemma_shared_object(pe: &PeContext)
    requires
        shared_object(pe) is Ok,
    ensures
        extends(shared_sections(pe).l.obj, (shared_object(pe)->Ok_0).0)
            || (shared_object(pe)->Ok_0).0.symbols.len() > usize::MAX,
        (shared_object(pe)->Ok_0).0.symbols.len() <= usize::MAX ==> installs_all(
            (shared_object(pe)->Ok_0).0,
            pe,
            shared_sections(pe).slots,
            pe.base_relocations@.len() as int,
        ),
{
    let s = shared_sections(pe);
    let keys = keys_between(pe.symbols.variables@.dom(), 0, u64::MAX);
    lemma_shared_sections(pe);
    let l = (with_shared_relocs(s.l, 0, pe, s.slots, 0)->0).0;
    lemma_shared_symbols(l.obj, keys, pe, s.slots, 0);
    let m = (shared_object(pe)->Ok_0).0;
    if m.symbols.len() <= usize::MAX {
        assert(installs_all(s.l.obj, pe, s.slots, 0));
        lemma_shared_relocs(s.l, 0, pe, s.slots, 0);
        lemma_extends_on(s.l.obj, l.obj, m);
        lemma_installs_over(l.obj, m, pe, s.slots, pe.base_relocations@.len() as int);
    }
}

/// The symbols at the starts of the data sections are those that pointers refer to: where
/// a pointer to `va` may refer to one of them, counted from the address `a`, the object has
/// that symbol at the start of the section that stands for the image's section at `a`.
pub proof fn law_start_symbols_stand_at_their_section(
    pe: &PeContext,
    name: Seq<char>,
    start: Seq<char>,
    a: u64,
    va: u64,
)
    requires
        shared_object(pe) is Ok,
        (shared_object(pe)->Ok_0).0.symbols.len() <= usize::MAX,
        is_of(pe.symbols, pe.sections@),
        is_shared(name, start),
        pe.symbols.starts_section(start, a, va),
    ensures
        exists|j: int, k: int| #[trigger]
            is_slot_of(
                (shared_object(pe)->Ok_0).0,
                shared_sections(pe).slots,
                j,
                pe.sections@,
                name,
                k,
                start,
            ) && pe.sections@[k].va == a,
{
    let s = shared_sections(pe);
    let m = (shared_object(pe)->Ok_0).0;
    lemma_shared_sections(pe);
    lemma_shared_object(pe);
    reveal_strlit("__delink_pe_rdata_start");
    reveal_strlit("__delink_pe_data_start");
    reveal_strlit("__delink_pe_bss_start");
    reveal_strlit("__delink_pe_idata_start");
    assert("__delink_pe_rdata_start"@.len() == 23 && "__delink_pe_data_start"@.len() == 22
        && "__delink_pe_bss_start"@.len() == 21 && "__delink_pe_idata_start"@.len() == 23);
    assert("__delink_pe_rdata_start"@[12] == 'r' && "__delink_pe_idata_start"@[12] == 'i');
    reveal_strlit(".rdata");
    reveal_strlit(".data");
    reveal_strlit(".bss");
    assert(".rdata"@.len() == 6 && ".data"@.len() == 5 && ".bss"@.len() == 4);
    let k = choose|k: int| #[trigger]
        is_first_called(pe.sections@, name, k) && pe.sections@[k].va == a;
    assert(is_first_called(pe.sections@, name, k) && pe.sections@[k].va == a);
    let j = choose|j: int| #[trigger]
        is_slot_of(s.l.obj, s.slots, j, pe.sections@, name, k, start);
    lemma_slot_stays(s.l.obj, m, s.slots, s.slots, j, pe.sections@, name, k, start);
}

/// The object for shared data installs the pointers of the image's data sections: each
/// that a base relocation marks and that a symbol stands for, at its place, by a symbol and
/// an addend that denote what it pointed to. It installs nothing else.
pub proof fn law_pointers_are_installed(pe: &PeContext)
    requires
        shared_object(pe) is Ok,
        (shared_object(pe)->Ok_0).0.symbols.len() <= usize::MAX,
    ensures
        ({
            let m = (shared_object(pe)->Ok_0).0;
            let slots = shared_sections(pe).slots;
            &&& has_slots(m, slots, pe.sections@)
            &&& installs_all(m, pe, slots, pe.base_relocations@.len() as int)
        }),
{
    let s = shared_sections(pe);
    let m = (shared_object(pe)->Ok_0).0;
    let x = pe.sections@;
    lemma_shared_sections(pe);
    lemma_shared_object(pe);
    assert forall|name: Seq<char>, start: Seq<char>, k: int| #[trigger]
        is_shared(name, start) && #[trigger] is_first_called(x, name, k) implies exists|j: int|
        #[trigger]
        is_slot_of(m, s.slots, j, x, name, k, start) by {
        let j = choose|j: int| #[trigger] is_slot_of(s.l.obj, s.slots, j, x, name, k, start);
        lemma_slot_stays(s.l.obj, m, s.slots, s.slots, j, x, name, k, start);
    }
    assert forall|j: int| 0 <= j < s.slots.len() implies #[trigger] is_slot(m, s.slots, j, x) by {
        assert(is_slot(s.l.obj, s.slots, j, x));
        let (name, start, k) = choose|name: Seq<char>, start: Seq<char>, k: int| #[trigger]
            is_shared(name, start) && #[trigger] is_slot_of(
                s.l.obj,
                s.slots,
                j,
                x,
                name,
                k,
                start,
            );
        lemma_slot_stays(s.l.obj, m, s.slots, s.slots, j, x, name, k, start);
    }
}

} // verus!
