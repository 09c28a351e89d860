//! What the object for shared data has at the starts of its sections.
use std::ops::Range;
use vstd::prelude::*;

use super::emit::{
    machine_of, shared_object, shared_sections, slot_index, with_shared_section,
    with_shared_symbols, written_name, SharedModel, Slot,
};
use super::cu::MachoVariable;
use super::image::{first_section, section_index, MachoContext, MachoSection};
use super::symbols::{
    section_range, MachoGlobalSymbols, SYM_BSS_START, SYM_CONST_START, SYM_DATA_START,
};
use crate::objfile::{
    mangled, symbol, Machine, ObjectFormat, ObjectModel, SectionKind, SymbolKind,
};
use crate::ordered::keys_between;
use crate::placing::{extends, lemma_extends_on};

verus! {

/// True when section `k` is the first called `name` in `segment`.
pub open spec fn is_first_called(
    sections: Seq<MachoSection>,
    segment: Seq<char>,
    name: Seq<char>,
    k: int,
) -> bool {
    &&& 0 <= k < sections.len()
    &&& sections[k].segment@ == segment && sections[k].name@ == name
    &&& forall|j: int|
        0 <= j < k ==> !((#[trigger] sections[j]).segment@ == segment && sections[j].name@ == name)
}

/// True when `r` begins where the first section called `name` in `segment` begins and is as
/// long, or is nothing where there is no such section. An end beyond the address space
/// wraps.
pub open spec fn is_range_of(
    sections: Seq<MachoSection>,
    segment: Seq<char>,
    name: Seq<char>,
    r: Option<Range<u64>>,
) -> bool {
    match r {
        Some(x) => exists|k: int| #[trigger]
            is_first_called(sections, segment, name, k) && x.start == sections[k].addr && x.end
                == (sections[k].addr + sections[k].size) % 0x1_0000_0000_0000_0000,
        None => forall|k: int| !#[trigger] is_first_called(sections, segment, name, k),
    }
}

/// True when the symbols know the ranges of the data sections.
pub open spec fn is_of(symbols: MachoGlobalSymbols, sections: Seq<MachoSection>) -> bool {
    &&& is_range_of(sections, "__TEXT"@, "__text"@, symbols.text_range)
    &&& is_range_of(sections, "__DATA"@, "__data"@, symbols.data_range)
    &&& is_range_of(sections, "__DATA"@, "__const"@, symbols.const_range)
    &&& is_range_of(sections, "__DATA"@, "__bss"@, symbols.bss_range)
}

/// True when `r` is the first section that `p` holds of.
spec fn is_found(
    sections: Seq<MachoSection>,
    p: spec_fn(MachoSection) -> bool,
    r: Option<int>,
) -> bool {
    match r {
        Some(k) => 0 <= k < sections.len() && p(sections[k]) && forall|j: int|
            0 <= j < k ==> !p(#[trigger] sections[j]),
        None => forall|j: int| 0 <= j < sections.len() ==> !p(#[trigger] sections[j]),
    }
}

proof fn lemma_first_section(
    sections: Seq<MachoSection>,
    p: spec_fn(MachoSection) -> bool,
    i: int,
)
    requires
        0 <= i <= sections.len(),
        forall|j: int| 0 <= j < i ==> !p(#[trigger] sections[j]),
    ensures
        is_found(sections, p, first_section(sections, p, i)),
    decreases sections.len() - i,
{
    if i < sections.len() && !p(sections[i]) {
        lemma_first_section(sections, p, i + 1);
    }
}

proof fn lemma_section_index(sections: Seq<MachoSection>, segment: Seq<char>, name: Seq<char>)
    ensures
        match section_index(sections, segment, name) {
            Some(k) => is_first_called(sections, segment, name, k),
            None => forall|k: int| !#[trigger] is_first_called(sections, segment, name, k),
        },
        forall|j: int, k: int| #[trigger]
            is_first_called(sections, segment, name, j) && #[trigger] is_first_called(
                sections,
                segment,
                name,
                k,
            ) ==> j == k,
{
    assert forall|p: spec_fn(MachoSection) -> bool| #[trigger]
        first_section(sections, p, 0) == first_section(sections, p, 0) implies is_found(
        sections,
        p,
        first_section(sections, p, 0),
    ) by {
        lemma_first_section(sections, p, 0);
    }
}

/// The range of a section is that of the first section of the name.
pub proof fn law_ranges_are_those_of_the_sections(
    sections: Seq<MachoSection>,
    segment: Seq<char>,
    name: Seq<char>,
)
    ensures
        is_range_of(sections, segment, name, section_range(sections, segment, name)),
{
    lemma_section_index(sections, segment, name);
    if let Some(k) = section_index(sections, segment, name) {
        assert(is_first_called(sections, segment, name, k));
    }
}

/// The data sections of an image and the symbols at their starts.
pub open spec fn is_shared(name: Seq<char>, start: Seq<char>) -> bool {
    ||| name == "__data"@ && start == "__delink_macho_data_start"@
    ||| name == "__const"@ && start == "__delink_macho_const_start"@
    ||| name == "__bss"@ && start == "__delink_macho_bss_start"@
}

/// True when symbol `s` is `start`, at the start of section `sid`.
pub open spec fn is_start(m: ObjectModel, s: int, start: Seq<char>, sid: nat) -> bool {
    &&& 0 <= s < m.symbols.len()
    &&& m.symbols[s].name == mangled(m.format, m.machine, start, SymbolKind::Data)
    &&& m.symbols[s].section == Some(sid)
    &&& m.symbols[s].value == 0
    &&& m.symbols[s].global
}

/// True when slot `j` is for section `k` of the image, which is the first called `name` in
/// `__DATA`: the object has a section of that name, and at its start the symbol `start`.
pub open spec fn is_slot_of(
    m: ObjectModel,
    slots: Seq<Slot>,
    j: int,
    sections: Seq<MachoSection>,
    name: Seq<char>,
    k: int,
    start: Seq<char>,
) -> bool {
    &&& 0 <= j < slots.len()
    &&& is_first_called(sections, "__DATA"@, name, k)
    &&& slots[j].addr == sections[k].addr
    &&& slots[j].size == sections[k].size
    &&& slots[j].sid < m.sections.len()
    &&& m.sections[slots[j].sid as int].name == name
    &&& exists|s: int| #[trigger] is_start(m, s, start, slots[j].sid as nat)
}

proof fn lemma_slot_stays(
    a: ObjectModel,
    b: ObjectModel,
    slots: Seq<Slot>,
    more: Seq<Slot>,
    j: int,
    sections: Seq<MachoSection>,
    name: Seq<char>,
    k: int,
    start: Seq<char>,
)
    requires
        extends(a, b),
        slots.len() <= more.len(),
        forall|i: int| 0 <= i < slots.len() ==> more[i] == #[trigger] slots[i],
        is_slot_of(a, slots, j, sections, name, k, start),
    ensures
        is_slot_of(b, more, j, sections, name, k, start),
{
    assert(more[j] == slots[j]);
    let sid = slots[j].sid as nat;
    assert(b.sections[sid as int].name == a.sections[sid as int].name);
    let s = choose|s: int| #[trigger] is_start(a, s, start, sid);
    assert(b.symbols[s] == a.symbols[s]);
    assert(is_start(b, s, start, sid));
}

/// What a section adds.
proof fn lemma_shared_section(
    s: SharedModel,
    ctx: &MachoContext,
    name: Seq<char>,
    kind: SectionKind,
    start: Seq<char>,
)
    requires
        s.obj.sections.len() <= 10,
    ensures
        ({
            let next = with_shared_section(s, ctx, name, kind, start);
            &&& extends(s.obj, next.obj)
            &&& s.slots.len() <= next.slots.len()
            &&& next.obj.sections.len() <= s.obj.sections.len() + 1
            &&& forall|i: int| 0 <= i < s.slots.len() ==> next.slots[i] == #[trigger] s.slots[i]
            &&& forall|k: int| #[trigger]
                is_first_called(ctx.sections@, "__DATA"@, name, k) ==> is_slot_of(
                    next.obj,
                    next.slots,
                    s.slots.len() as int,
                    ctx.sections@,
                    name,
                    k,
                    start,
                )
        }),
{
    lemma_section_index(ctx.sections@, "__DATA"@, name);
    let next = with_shared_section(s, ctx, name, kind, start);
    if let Some(k) = section_index(ctx.sections@, "__DATA"@, name) {
        let n = s.obj.symbols.len() as int;
        let sid = s.obj.sections.len() as nat;
        assert(is_start(next.obj, n, start, sid));
        assert(next.slots[s.slots.len() as int].sid == sid);
        assert(extends(s.obj, next.obj));
    } else {
        assert(extends(s.obj, s.obj));
    }
}

proof fn lemma_shared_symbols(
    m: ObjectModel,
    keys: Seq<u64>,
    variables: Map<u64, MachoVariable>,
    slots: Seq<Slot>,
    i: int,
)
    ensures
        extends(m, with_shared_symbols(m, keys, variables, slots, i)),
    decreases keys.len() - i,
{
    if 0 <= i < keys.len() {
        let addr = keys[i];
        let v = variables[addr];
        let next = match slot_index(slots, addr, 0) {
            Some(k) => m.with_symbol(
                symbol(
                    written_name(v.spec_symbol_name()),
                    (addr - slots[k].addr) as u64,
                    0,
                    SymbolKind::Data,
                    v.external,
                    false,
                    Some(slots[k].sid),
                ),
            ),
            None => m,
        };
        lemma_shared_symbols(next, keys, variables, slots, i + 1);
        assert(extends(m, next));
        lemma_extends_on(m, next, with_shared_symbols(m, keys, variables, slots, i));
    } else {
        assert(extends(m, m));
    }
}

/// The symbols at the starts of the data sections are those that pointers refer to: where
/// a pointer to `va` may refer to one of them, counted from the address `a`, the object has
/// that symbol at the start of the section that stands for the image's section at `a`.
pub proof fn law_start_symbols_stand_at_their_section(
    ctx: &MachoContext,
    name: Seq<char>,
    start: Seq<char>,
    a: u64,
    va: u64,
)
    requires
        shared_object(ctx) is Ok,
        is_of(ctx.symbols, ctx.sections@),
        is_shared(name, start),
        ctx.symbols.starts_section(start, a, va),
    ensures
        exists|j: int, k: int| #[trigger]
            is_slot_of(
                (shared_object(ctx)->Ok_0).0,
                shared_sections(ctx, machine_of(ctx.arch)->0).slots,
                j,
                ctx.sections@,
                name,
                k,
                start,
            ) && ctx.sections@[k].addr == a,
{
    let machine = machine_of(ctx.arch)->0;
    let m = (shared_object(ctx)->Ok_0).0;
    let x = ctx.sections@;
    let empty = SharedModel {
        obj: ObjectModel::empty(ObjectFormat::MachO, machine),
        slots: Seq::empty(),
    };
    let p = with_shared_section(empty, ctx, "__data"@, SectionKind::Data, SYM_DATA_START@);
    let q = with_shared_section(p, ctx, "__const"@, SectionKind::ReadOnlyData, SYM_CONST_START@);
    let r = with_shared_section(
        q,
        ctx,
        "__bss"@,
        SectionKind::UninitializedData,
        SYM_BSS_START@,
    );
    assert(r == shared_sections(ctx, machine));
    lemma_shared_section(empty, ctx, "__data"@, SectionKind::Data, SYM_DATA_START@);
    lemma_shared_section(p, ctx, "__const"@, SectionKind::ReadOnlyData, SYM_CONST_START@);
    lemma_shared_section(q, ctx, "__bss"@, SectionKind::UninitializedData, SYM_BSS_START@);
    let keys = keys_between(ctx.symbols.variables@.dom(), 0, u64::MAX);
    lemma_shared_symbols(r.obj, keys, ctx.symbols.variables@, r.slots, 0);
    lemma_extends_on(q.obj, r.obj, m);
    lemma_extends_on(p.obj, q.obj, m);
    reveal_strlit("__delink_macho_data_start");
    reveal_strlit("__delink_macho_const_start");
    reveal_strlit("__delink_macho_bss_start");
    reveal_strlit("__data");
    reveal_strlit("__const");
    reveal_strlit("__bss");
    assert("__delink_macho_data_start"@.len() == 25 && "__delink_macho_const_start"@.len() == 26
        && "__delink_macho_bss_start"@.len() == 24);
    assert("__data"@.len() == 6 && "__const"@.len() == 7 && "__bss"@.len() == 5);
    let k = choose|k: int| #[trigger]
        is_first_called(x, "__DATA"@, name, k) && x[k].addr == a;
    assert(is_first_called(x, "__DATA"@, name, k) && x[k].addr == a);
    if name == "__data"@ {
        lemma_slot_stays(p.obj, m, p.slots, r.slots, 0, x, name, k, start);
    } else if name == "__const"@ {
        let j = p.slots.len() as int;
        lemma_slot_stays(q.obj, m, q.slots, r.slots, j, x, name, k, start);
    } else {
        let j = q.slots.len() as int;
        lemma_slot_stays(r.obj, m, r.slots, r.slots, j, x, name, k, start);
    }
}

} // verus!
