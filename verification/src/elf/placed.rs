//! Where the object of a unit has the functions of the unit and what they refer to.
use vstd::prelude::*;

use super::binary::Binary;
use super::code::{
    prepared, Aarch64Recovery, Aarch64RelocKind, CodeModel, PreparedView,
};
use super::cu::{CompilationUnit, Function, FunctionView};
use super::emit::{
    dwarf_slice, dwarf_type, function_name, live_among, live_code, opened_unit, section_suffix,
    spec_live_functions, unit_object, with_dwarf_relocs, with_dwarf_section, with_function,
    with_functions, with_slot, with_slots, with_unit_dwarf, DwarfRelocView, EmitOptions, SlotModel,
    UnitModel,
};
use crate::arch::Arch;
use crate::growth::addressable;
use crate::image::elf_section;
use crate::linkage::LinkageModel;
use crate::objfile::{
    ObjectFormat, ObjectModel, RelocationType, SectionKind, SymbolKind,
};
use crate::ordered::{
    by_address, lemma_stable_sorted, lemma_stable_sorted_contains, lemma_stable_sorted_numbers,
};
use crate::placing::{
    extends, has_relocation, is_called, knows, lemma_called_stays, lemma_definition,
    lemma_extends_on, lemma_knows_over, lemma_reference, lemma_relocation_stays,
};

verus! {

broadcast use {
    vstd::std_specs::btree::group_btree_axioms,
    vstd::hash_map::group_hash_map_axioms,
};

/// Names are written as they are.
pub open spec fn as_is() -> spec_fn(Seq<char>) -> Seq<char> {
    |name: Seq<char>| name
}

/// True when the function takes up space inside a section at `base`.
pub open spec fn is_live(base: u64, size: u64, f: Function) -> bool {
    f.size > 0 && base <= f.addr && f.addr + f.size <= base + size
}

proof fn lemma_found(functions: Seq<Function>, base: u64, size: u64, n: int)
    requires
        0 <= n <= functions.len() <= usize::MAX,
    ensures
        ({
            let found = live_among(functions, base, size, n);
            &&& found.len() <= n
            &&& forall|i: int|
                0 <= i < found.len() ==> (#[trigger] found[i]).1 < n && is_live(
                    base,
                    size,
                    functions[found[i].1 as int],
                ) && found[i].0 == functions[found[i].1 as int].addr
            &&& forall|i: int, j: int|
                0 <= i < j < found.len() ==> (#[trigger] found[i]).1 < (#[trigger] found[j]).1
            &&& forall|k: int|
                0 <= k < n && is_live(base, size, #[trigger] functions[k]) ==> found.contains(
                    (functions[k].addr, k as usize),
                )
        }),
    decreases n,
{
    if n > 0 {
        lemma_found(functions, base, size, n - 1);
        let before = live_among(functions, base, size, n - 1);
        let found = live_among(functions, base, size, n);
        assert forall|k: int|
            0 <= k < n && is_live(base, size, #[trigger] functions[k]) implies found.contains(
            (functions[k].addr, k as usize),
        ) by {
            let e = (functions[k].addr, k as usize);
            if k < n - 1 {
                let i = choose|i: int| 0 <= i < before.len() && before[i] == e;
                assert(found[i] == e);
            } else {
                assert(found[before.len() as int] == e);
            }
        }
    }
}

/// The functions that go into an object are those that take up space inside `.text`, each
/// once.
pub proof fn law_live_functions_go_in_once(binary: Binary, cu: CompilationUnit)
    requires
        cu.functions@.len() <= usize::MAX,
        spec_live_functions(binary, cu) is Ok,
    ensures
        ({
            let live = spec_live_functions(binary, cu)->Ok_0;
            let text = binary.sections@[elf_section(binary.sections@, ".text"@)->0];
            &&& live.len() <= cu.functions@.len()
            &&& forall|i: int|
                0 <= i < live.len() ==> (#[trigger] live[i]).1 < cu.functions@.len() && is_live(
                    text.addr,
                    text.size,
                    cu.functions@[live[i].1 as int],
                )
            &&& forall|i: int, j: int|
                0 <= i < j < live.len() ==> (#[trigger] live[i]).1 != (#[trigger] live[j]).1
            &&& forall|k: int|
                0 <= k < cu.functions@.len() && is_live(
                    text.addr,
                    text.size,
                    #[trigger] cu.functions@[k],
                ) ==> live.contains((cu.functions@[k].addr, k as usize))
        }),
{
    let live = spec_live_functions(binary, cu)->Ok_0;
    let text = binary.sections@[elf_section(binary.sections@, ".text"@)->0];
    let n = cu.functions@.len() as int;
    let found = live_among(cu.functions@, text.addr, text.size, n);
    lemma_found(cu.functions@, text.addr, text.size, n);
    lemma_stable_sorted(found, by_address());
    lemma_stable_sorted_numbers(found);
    assert forall|i: int| 0 <= i < live.len() implies (#[trigger] live[i]).1
        < cu.functions@.len() && is_live(
        text.addr,
        text.size,
        cu.functions@[live[i].1 as int],
    ) && live[i].0 == cu.functions@[live[i].1 as int].addr by {
        lemma_stable_sorted_contains(found, by_address(), live[i]);
        assert(live.contains(live[i]));
        let k = choose|k: int| 0 <= k < found.len() && found[k] == live[i];
        assert(found[k] == live[i]);
    }
    assert forall|k: int|
        0 <= k < cu.functions@.len() && is_live(
            text.addr,
            text.size,
            #[trigger] cu.functions@[k],
        ) implies live.contains((cu.functions@[k].addr, k as usize)) by {
        lemma_stable_sorted_contains(found, by_address(), (cu.functions@[k].addr, k as usize));
    }
}

/// True when symbol `s` is that of a function: a global one where the function is visible
/// or all are.
pub open spec fn is_function(
    m: ObjectModel,
    opts: EmitOptions<'_>,
    f: FunctionView,
    s: int,
    section: nat,
    value: u64,
) -> bool {
    &&& 0 <= s < m.symbols.len()
    &&& m.symbols[s].name == function_name(*opts.symbols, f)
    &&& m.symbols[s].kind == SymbolKind::Text
    &&& m.symbols[s].size == f.size
    &&& m.symbols[s].section == Some(section)
    &&& m.symbols[s].value == value
    &&& m.symbols[s].global == (f.external || opts.promote_locals)
}

/// True when section `section` has the bytes at `value`.
pub open spec fn has_bytes(m: ObjectModel, section: nat, value: u64, bytes: Seq<u8>) -> bool {
    &&& section < m.sections.len()
    &&& value + bytes.len() <= m.sections[section as int].data.len()
    &&& m.sections[section as int].data.subrange(value as int, value + bytes.len()) == bytes
}

/// The section of function `i`: its own, or the one that all share.
pub open spec fn section_of(opts: EmitOptions<'_>, i: int) -> int {
    if opts.per_function_sections {
        i
    } else {
        0
    }
}

/// True when the slot is the place of the live function `i`: a symbol of the function stands
/// there, and so does its code.
spec fn is_slot(
    m: ObjectModel,
    opts: EmitOptions<'_>,
    f: FunctionView,
    code: CodeModel,
    slot: SlotModel,
    i: int,
) -> bool {
    &&& slot.section == section_of(opts, i)
    &&& slot.relocs == code.relocs
    &&& has_bytes(m, slot.section as nat, slot.offset, code.bytes)
    &&& exists|s: int| #[trigger] is_function(m, opts, f, s, slot.section as nat, slot.offset)
}

/// True when the first bytes of sections, and the symbols, stay.
spec fn keeps(a: ObjectModel, b: ObjectModel) -> bool {
    &&& extends(a, b)
    &&& forall|i: int|
        0 <= i < a.sections.len() ==> a.sections[i].data.len() <= (
        #[trigger] b.sections[i]).data.len()
    &&& forall|i: int, j: int|
        0 <= i < a.sections.len() && 0 <= j < a.sections[i].data.len()
            ==> #[trigger] b.sections[i].data[j] == a.sections[i].data[j]
}

proof fn lemma_keeps_on(a: ObjectModel, b: ObjectModel, c: ObjectModel)
    requires
        keeps(a, b),
        keeps(b, c),
    ensures
        keeps(a, c),
{
    lemma_extends_on(a, b, c);
    assert forall|i: int| 0 <= i < a.sections.len() implies a.sections[i].data.len() <= (
    #[trigger] c.sections[i]).data.len() by {
        assert(a.sections[i].data.len() <= b.sections[i].data.len());
    }
    assert forall|i: int, j: int|
        0 <= i < a.sections.len() && 0 <= j
            < a.sections[i].data.len() implies #[trigger] c.sections[i].data[j]
        == a.sections[i].data[j] by {
        assert(a.sections[i].data.len() <= b.sections[i].data.len());
        assert(b.sections[i].data[j] == a.sections[i].data[j]);
    }
}

proof fn lemma_slot_stays(
    a: ObjectModel,
    b: ObjectModel,
    opts: EmitOptions<'_>,
    f: FunctionView,
    code: CodeModel,
    slot: SlotModel,
    i: int,
)
    requires
        keeps(a, b),
        is_slot(a, opts, f, code, slot, i),
    ensures
        is_slot(b, opts, f, code, slot, i),
{
    let k = slot.section as int;
    assert(a.sections[k].data.len() <= b.sections[k].data.len());
    let was = a.sections[k].data.subrange(slot.offset as int, slot.offset + code.bytes.len());
    let is = b.sections[k].data.subrange(slot.offset as int, slot.offset + code.bytes.len());
    assert forall|j: int| 0 <= j < was.len() implies was[j] == is[j] by {
        assert(b.sections[k].data[slot.offset + j] == a.sections[k].data[slot.offset + j]);
    }
    assert(is =~= was);
    let s = choose|s: int| #[trigger]
        is_function(a, opts, f, s, slot.section as nat, slot.offset);
    assert(b.symbols[s] == a.symbols[s]);
    assert(is_function(b, opts, f, s, slot.section as nat, slot.offset));
}

/// What holds of a unit after `i` functions.
spec fn is_ready(u: UnitModel, opts: EmitOptions<'_>, i: int) -> bool {
    let sections = u.l.obj.sections;
    &&& knows(u.l, as_is())
    &&& u.l.obj.format == ObjectFormat::Elf
    &&& u.slots.len() == i
    &&& if opts.per_function_sections {
        sections.len() == i
    } else {
        sections.len() == 1 && sections[0].size == sections[0].data.len()
    }
    &&& forall|k: int|
        0 <= k < sections.len() ==> (#[trigger] sections[k]).relocations.len() == 0
}

proof fn lemma_function(
    u: UnitModel,
    opts: EmitOptions<'_>,
    f: FunctionView,
    code: CodeModel,
    i: int,
)
    requires
        is_ready(u, opts, i),
        0 <= i < usize::MAX,
        with_function(u, opts, f, code).l.obj.symbols.len() <= usize::MAX,
        addressable(with_function(u, opts, f, code).l.obj),
    ensures
        ({
            let v = with_function(u, opts, f, code);
            &&& is_ready(v, opts, i + 1)
            &&& keeps(u.l.obj, v.l.obj)
            &&& v.slots == u.slots.push(v.slots[i])
            &&& is_slot(v.l.obj, opts, f, code, v.slots[i], i)
        }),
{
    let name = function_name(*opts.symbols, f);
    let v = with_function(u, opts, f, code);
    let global = f.external || opts.promote_locals;
    let grouped = opts.comdat && opts.per_function_sections && global;
    let section = section_of(opts, i);
    let opened = if opts.per_function_sections {
        u.l.obj.with_section(""@, ".text."@ + section_suffix(name), SectionKind::Text)
    } else {
        u.l.obj
    };
    let placed = u.l.over(opened.with_data(section as nat, code.bytes, 4));
    let slot = v.slots[i];
    assert(slot.section == section);
    let data = placed.obj.sections[section].data;
    assert(v.l.obj.sections == placed.obj.sections);
    assert(data.len() <= u64::MAX) by {
        assert(v.l.obj.sections[section].data.len() <= u64::MAX);
    }
    assert(slot.offset + code.bytes.len() == data.len());
    assert(data.subrange(slot.offset as int, slot.offset + code.bytes.len()) =~= code.bytes);
    lemma_knows_over(u.l, placed, as_is());
    assert(as_is()(name) == name);
    lemma_definition(
        placed,
        as_is(),
        name,
        slot.offset,
        f.size,
        SymbolKind::Text,
        global,
        grouped,
        section as usize,
    );
    let named = placed.with_definition(
        name,
        name,
        slot.offset,
        f.size,
        SymbolKind::Text,
        global,
        grouped,
        section as usize,
    );
    lemma_knows_over(named, v.l, as_is());
    let s = u.l.obj.symbols.len() as int;
    assert(is_function(v.l.obj, opts, f, s, section as nat, slot.offset));
    assert forall|k: int, j: int|
        0 <= k < u.l.obj.sections.len() && 0 <= j
            < u.l.obj.sections[k].data.len() implies #[trigger] v.l.obj.sections[k].data[j]
        == u.l.obj.sections[k].data[j] by {}
}

/// True when the slots are the places of the live functions from `from` up to `to`.
spec fn are_slots(
    m: ObjectModel,
    binary: Binary,
    opts: EmitOptions<'_>,
    disassembles: bool,
    recs: Seq<Aarch64Recovery>,
    live: Seq<(u64, usize)>,
    slots: Seq<SlotModel>,
    from: int,
    to: int,
) -> bool {
    forall|k: int|
        from <= k < to ==> #[trigger] is_live_slot(
            m,
            binary,
            opts,
            disassembles,
            recs,
            live,
            slots,
            k,
        )
}

/// True when slot `k` is the place of the live function `k`.
spec fn is_live_slot(
    m: ObjectModel,
    binary: Binary,
    opts: EmitOptions<'_>,
    disassembles: bool,
    recs: Seq<Aarch64Recovery>,
    live: Seq<(u64, usize)>,
    slots: Seq<SlotModel>,
    k: int,
) -> bool {
    &&& live_code(binary, opts, disassembles, recs, live, k) is Ok
    &&& is_slot(
        m,
        opts,
        opts.cu.functions@[live[k].1 as int]@,
        live_code(binary, opts, disassembles, recs, live, k)->Ok_0,
        slots[k],
        k,
    )
}

proof fn lemma_functions(
    u: UnitModel,
    binary: Binary,
    opts: EmitOptions<'_>,
    disassembles: bool,
    recs: Seq<Aarch64Recovery>,
    live: Seq<(u64, usize)>,
    i: int,
)
    requires
        is_ready(u, opts, i),
        0 <= i <= live.len() < usize::MAX,
        with_functions(u, binary, opts, disassembles, recs, live, i) is Ok,
        with_functions(u, binary, opts, disassembles, recs, live, i)->Ok_0.l.obj.symbols.len()
            <= usize::MAX,
        addressable(with_functions(u, binary, opts, disassembles, recs, live, i)->Ok_0.l.obj),
    ensures
        ({
            let v = with_functions(u, binary, opts, disassembles, recs, live, i)->Ok_0;
            &&& is_ready(v, opts, live.len() as int)
            &&& keeps(u.l.obj, v.l.obj)
            &&& forall|k: int| 0 <= k < i ==> v.slots[k] == #[trigger] u.slots[k]
            &&& are_slots(
                v.l.obj,
                binary,
                opts,
                disassembles,
                recs,
                live,
                v.slots,
                i,
                live.len() as int,
            )
        }),
    decreases live.len() - i,
{
    if i < live.len() {
        let f = opts.cu.functions@[live[i].1 as int];
        let code = live_code(binary, opts, disassembles, recs, live, i)->Ok_0;
        let next = with_function(u, opts, f@, code);
        let v = with_functions(u, binary, opts, disassembles, recs, live, i)->Ok_0;
        lemma_unit_grows(next, binary, opts, disassembles, recs, live, i + 1);
        assert(addressable(next.l.obj)) by {
            assert forall|k: int| 0 <= k < next.l.obj.sections.len() implies (
            #[trigger] next.l.obj.sections[k]).data.len() <= u64::MAX by {
                assert(v.l.obj.sections[k].data.len() <= u64::MAX);
            }
        }
        lemma_function(u, opts, f@, code, i);
        lemma_functions(next, binary, opts, disassembles, recs, live, i + 1);
        lemma_keeps_on(u.l.obj, next.l.obj, v.l.obj);
        assert(v.slots[i] == next.slots[i]);
        lemma_slot_stays(next.l.obj, v.l.obj, opts, f@, code, next.slots[i], i);
        assert forall|k: int| 0 <= k < i implies v.slots[k] == #[trigger] u.slots[k] by {
            assert(next.slots[k] == u.slots[k]);
            assert(v.slots[k] == next.slots[k]);
        }
        assert(live_code(binary, opts, disassembles, recs, live, i) is Ok);
        assert(is_live_slot(v.l.obj, binary, opts, disassembles, recs, live, v.slots, i));
    } else {
        assert(keeps(u.l.obj, u.l.obj));
    }
}

proof fn lemma_unit_grows(
    u: UnitModel,
    binary: Binary,
    opts: EmitOptions<'_>,
    disassembles: bool,
    recs: Seq<Aarch64Recovery>,
    live: Seq<(u64, usize)>,
    i: int,
)
    requires
        with_functions(u, binary, opts, disassembles, recs, live, i) is Ok,
        u.l.obj.sections.len() + (live.len() - i) <= usize::MAX,
        i <= live.len(),
        !opts.per_function_sections ==> u.l.obj.sections.len() > 0,
    ensures
        ({
            let v = with_functions(u, binary, opts, disassembles, recs, live, i)->Ok_0;
            &&& u.l.obj.symbols.len() <= v.l.obj.symbols.len()
            &&& u.l.obj.sections.len() <= v.l.obj.sections.len()
            &&& forall|k: int|
                0 <= k < u.l.obj.sections.len() ==> u.l.obj.sections[k].data.len() <= (
                #[trigger] v.l.obj.sections[k]).data.len()
        }),
    decreases live.len() - i,
{
    if 0 <= i < live.len() {
        let f = opts.cu.functions@[live[i].1 as int];
        let code = live_code(binary, opts, disassembles, recs, live, i)->Ok_0;
        let next = with_function(u, opts, f@, code);
        lemma_unit_grows(next, binary, opts, disassembles, recs, live, i + 1);
        let v = with_functions(u, binary, opts, disassembles, recs, live, i)->Ok_0;
        assert forall|k: int| 0 <= k < u.l.obj.sections.len() implies u.l.obj.sections[k].data.len()
            <= (#[trigger] v.l.obj.sections[k]).data.len() by {
            assert(u.l.obj.sections[k].data.len() <= next.l.obj.sections[k].data.len());
        }
    }
}

/// True when relocation `p` of the slot's section is relocation `k` of the slot.
pub open spec fn is_placed(m: ObjectModel, slot: SlotModel, k: int, p: int) -> bool {
    let r = slot.relocs[k];
    &&& 0 <= k < slot.relocs.len()
    &&& has_relocation(
        m,
        slot.section as int,
        p,
        (slot.offset + r.offset) % 0x1_0000_0000_0000_0000,
        RelocationType::Elf(r.r_type),
        r.target,
        r.addend as int,
    )
}

/// True when relocation `p` of section `sec` is one of the first `n` slots.
spec fn is_of_slots(m: ObjectModel, slots: Seq<SlotModel>, n: int, sec: int, p: int) -> bool {
    exists|j: int, k: int| #[trigger]
        is_placed(m, slots[j], k, p) && 0 <= j < n && slots[j].section == sec
}

/// How many relocations the first `n` slots put into section `sec`.
pub open spec fn count_in(slots: Seq<SlotModel>, n: int, sec: int) -> nat
    decreases n,
{
    if n <= 0 {
        0
    } else {
        count_in(slots, n - 1, sec) + (if slots[n - 1].section == sec {
            slots[n - 1].relocs.len()
        } else {
            0
        })
    }
}

/// With the relocations of a slot.
proof fn lemma_slot(l: LinkageModel, slot: SlotModel, i: int, first: int)
    requires
        0 <= i <= slot.relocs.len(),
        knows(l, as_is()),
        l.obj.format == ObjectFormat::Elf,
        slot.section < l.obj.sections.len(),
        first + i == l.obj.sections[slot.section as int].relocations.len(),
        forall|k: int| 0 <= k < i ==> is_placed(l.obj, slot, k, #[trigger] at(first, k)),
        with_slot(l, slot, i).obj.symbols.len() <= usize::MAX,
    ensures
        ({
            let end = with_slot(l, slot, i);
            &&& knows(end, as_is())
            &&& keeps(l.obj, end.obj)
            &&& end.obj.sections.len() == l.obj.sections.len()
            &&& end.obj.sections[slot.section as int].relocations.len() == first
                + slot.relocs.len()
            &&& forall|k: int|
                0 <= k < slot.relocs.len() ==> is_placed(
                    end.obj,
                    slot,
                    k,
                    #[trigger] at(first, k),
                )
            &&& forall|k: int|
                0 <= k < l.obj.sections.len() && k != slot.section
                    ==> #[trigger] end.obj.sections[k] == l.obj.sections[k]
            &&& forall|k: int|
                0 <= k < l.obj.sections.len() ==> (#[trigger] end.obj.sections[k]).data
                    == l.obj.sections[k].data
        }),
    decreases slot.relocs.len() - i,
{
    if i < slot.relocs.len() {
        let r = slot.relocs[i];
        let m = l.with_reference(r.target, r.target, SymbolKind::Text);
        assert(as_is()(r.target) == r.target);
        lemma_reference(l, as_is(), r.target, SymbolKind::Text);
        let place = slot.offset.wrapping_add(r.offset);
        let n = l.number(r.target) as nat;
        let kind = RelocationType::Elf(r.r_type);
        let added = m.over(
            m.obj.with_relocation(slot.section as nat, place, n, kind, r.addend as int),
        );
        lemma_slot_symbols(added, slot, i + 1);
        lemma_knows_over(m, added, as_is());
        assert(is_called(added.obj, n, r.target));
        assert(keeps(l.obj, added.obj));
        assert forall|k: int| 0 <= k < i + 1 implies is_placed(
            added.obj,
            slot,
            k,
            #[trigger] at(first, k),
        ) by {
            if k < i {
                let q = slot.relocs[k];
                lemma_relocation_stays(
                    l.obj,
                    added.obj,
                    slot.section as int,
                    at(first, k),
                    (slot.offset + q.offset) % 0x1_0000_0000_0000_0000,
                    RelocationType::Elf(q.r_type),
                    q.target,
                    q.addend as int,
                );
            } else {
                assert(place == (slot.offset + r.offset) % 0x1_0000_0000_0000_0000);
            }
        }
        lemma_slot(added, slot, i + 1, first);
        lemma_keeps_on(l.obj, added.obj, with_slot(l, slot, i).obj);
    }
}

/// `k` behind `first`.
pub open spec fn at(first: int, k: int) -> int {
    first + k
}

proof fn lemma_slot_symbols(l: LinkageModel, slot: SlotModel, i: int)
    ensures
        l.obj.symbols.len() <= with_slot(l, slot, i).obj.symbols.len(),
    decreases slot.relocs.len() - i,
{
    if 0 <= i < slot.relocs.len() {
        let r = slot.relocs[i];
        let m = l.with_reference(r.target, r.target, SymbolKind::Text);
        lemma_slot_symbols(
            m.over(
                m.obj.with_relocation(
                    slot.section as nat,
                    slot.offset.wrapping_add(r.offset),
                    l.number(r.target) as nat,
                    RelocationType::Elf(r.r_type),
                    r.addend as int,
                ),
            ),
            slot,
            i + 1,
        );
    }
}

proof fn lemma_slots_symbols(l: LinkageModel, slots: Seq<SlotModel>, i: int)
    ensures
        l.obj.symbols.len() <= with_slots(l, slots, i).obj.symbols.len(),
    decreases slots.len() - i,
{
    if 0 <= i < slots.len() {
        lemma_slot_symbols(l, slots[i], 0);
        lemma_slots_symbols(with_slot(l, slots[i], 0), slots, i + 1);
    }
}

/// True when the relocations of the slot are in its section, one behind the other.
pub open spec fn has_all(m: ObjectModel, slot: SlotModel) -> bool {
    exists|first: int| #[trigger] has_from(m, slot, first)
}

/// True when the relocations of the slot are in its section from number `first` on.
pub open spec fn has_from(m: ObjectModel, slot: SlotModel, first: int) -> bool {
    forall|k: int| 0 <= k < slot.relocs.len() ==> is_placed(m, slot, k, #[trigger] at(first, k))
}

/// True when the first `n` slots have their relocations and the sections no others.
spec fn attached(m: ObjectModel, slots: Seq<SlotModel>, n: int) -> bool {
    &&& forall|j: int| 0 <= j < n ==> has_all(m, #[trigger] slots[j])
    &&& forall|sec: int, p: int|
        0 <= sec < m.sections.len() && 0 <= p < m.sections[sec].relocations.len()
            ==> #[trigger] is_of_slots(m, slots, n, sec, p)
    &&& forall|sec: int|
        0 <= sec < m.sections.len() ==> (#[trigger] m.sections[sec]).relocations.len()
            == count_in(slots, n, sec)
}

proof fn lemma_all_stay(a: ObjectModel, b: ObjectModel, slot: SlotModel)
    requires
        extends(a, b),
        has_all(a, slot),
    ensures
        has_all(b, slot),
{
    let first = choose|first: int| #[trigger] has_from(a, slot, first);
    assert forall|k: int| 0 <= k < slot.relocs.len() implies is_placed(
        b,
        slot,
        k,
        #[trigger] at(first, k),
    ) by {
        lemma_placed_stays(a, b, slot, k, at(first, k));
    }
    assert(has_from(b, slot, first));
}

proof fn lemma_placed_stays(a: ObjectModel, b: ObjectModel, slot: SlotModel, k: int, p: int)
    requires
        extends(a, b),
        is_placed(a, slot, k, p),
    ensures
        is_placed(b, slot, k, p),
{
    let q = slot.relocs[k];
    lemma_relocation_stays(
        a,
        b,
        slot.section as int,
        p,
        (slot.offset + q.offset) % 0x1_0000_0000_0000_0000,
        RelocationType::Elf(q.r_type),
        q.target,
        q.addend as int,
    );
}

proof fn lemma_slots(l: LinkageModel, slots: Seq<SlotModel>, n: int)
    requires
        0 <= n <= slots.len(),
        knows(l, as_is()),
        l.obj.format == ObjectFormat::Elf,
        forall|k: int|
            0 <= k < slots.len() ==> (#[trigger] slots[k]).section < l.obj.sections.len(),
        attached(l.obj, slots, n),
        with_slots(l, slots, n).obj.symbols.len() <= usize::MAX,
    ensures
        ({
            let end = with_slots(l, slots, n);
            &&& keeps(l.obj, end.obj)
            &&& attached(end.obj, slots, slots.len() as int)
            &&& end.obj.sections.len() == l.obj.sections.len()
        }),
    decreases slots.len() - n,
{
    if n < slots.len() {
        let slot = slots[n];
        let sec = slot.section as int;
        let first = l.obj.sections[sec].relocations.len() as int;
        let next = with_slot(l, slot, 0);
        lemma_slots_symbols(next, slots, n + 1);
        lemma_slot(l, slot, 0, first);
        assert(has_from(next.obj, slot, first));
        assert forall|j: int| 0 <= j < n + 1 implies has_all(next.obj, #[trigger] slots[j]) by {
            if j < n {
                lemma_all_stay(l.obj, next.obj, slots[j]);
            }
        }
        assert forall|t: int| 0 <= t < next.obj.sections.len() implies (
        #[trigger] next.obj.sections[t]).relocations.len() == count_in(slots, n + 1, t) by {
            assert(l.obj.sections[t].relocations.len() == count_in(slots, n, t));
        }
        assert forall|t: int, p: int|
            0 <= t < next.obj.sections.len() && 0 <= p
                < next.obj.sections[t].relocations.len() implies #[trigger] is_of_slots(
            next.obj,
            slots,
            n + 1,
            t,
            p,
        ) by {
            if t == sec && p >= first {
                let k = p - first;
                assert(at(first, k) == p);
                assert(is_placed(next.obj, slots[n], k, p));
            } else {
                assert(is_of_slots(l.obj, slots, n, t, p));
                let (j, k) = choose|j: int, k: int| #[trigger]
                    is_placed(l.obj, slots[j], k, p) && 0 <= j < n && slots[j].section == t;
                lemma_placed_stays(l.obj, next.obj, slots[j], k, p);
            }
        }
        lemma_slots(next, slots, n + 1);
        lemma_keeps_on(l.obj, next.obj, with_slots(l, slots, n).obj);
    } else {
        assert(keeps(l.obj, l.obj));
    }
}

/// True when `b` has the sections of `a` as they are, and its symbols.
pub open spec fn is_behind(a: ObjectModel, b: ObjectModel) -> bool {
    &&& a.format == b.format
    &&& a.machine == b.machine
    &&& a.symbols.len() <= b.symbols.len()
    &&& forall|i: int| 0 <= i < a.symbols.len() ==> #[trigger] b.symbols[i] == a.symbols[i]
    &&& a.sections.len() <= b.sections.len()
    &&& forall|i: int| 0 <= i < a.sections.len() ==> #[trigger] b.sections[i] == a.sections[i]
}

/// What is behind twice is behind.
pub proof fn lemma_behind_on(a: ObjectModel, b: ObjectModel, c: ObjectModel)
    requires
        is_behind(a, b),
        is_behind(b, c),
    ensures
        is_behind(a, c),
{
    assert forall|i: int| 0 <= i < a.symbols.len() implies #[trigger] c.symbols[i]
        == a.symbols[i] by {
        assert(b.symbols[i] == a.symbols[i]);
    }
    assert forall|i: int| 0 <= i < a.sections.len() implies #[trigger] c.sections[i]
        == a.sections[i] by {
        assert(b.sections[i] == a.sections[i]);
    }
}

/// Relocations of DWARF information leave other sections alone.
pub proof fn lemma_dwarf_relocs(
    base: ObjectModel,
    l: LinkageModel,
    section: usize,
    relocs: Seq<DwarfRelocView>,
    i: int,
)
    requires
        0 <= i,
        is_behind(base, l.obj),
        base.sections.len() <= section < l.obj.sections.len(),
    ensures
        is_behind(base, with_dwarf_relocs(l, section, relocs, i).obj),
        with_dwarf_relocs(l, section, relocs, i).obj.sections.len() == l.obj.sections.len(),
    decreases relocs.len() - i,
{
    if i < relocs.len() {
        let r = relocs[i];
        let m = l.with_reference(r.symbol, r.symbol, SymbolKind::Text);
        let added = m.over(
            m.obj.with_relocation(
                section as nat,
                r.offset,
                l.number(r.symbol) as nat,
                RelocationType::Elf(dwarf_type(r.wide)),
                r.addend as int,
            ),
        );
        assert(is_behind(base, added.obj)) by {
            assert forall|k: int| 0 <= k < base.symbols.len() implies #[trigger] added.obj.symbols[k]
                == base.symbols[k] by {
                assert(l.obj.symbols[k] == base.symbols[k]);
            }
            assert forall|k: int|
                0 <= k < base.sections.len() implies #[trigger] added.obj.sections[k]
                == base.sections[k] by {
                assert(l.obj.sections[k] == base.sections[k]);
            }
        }
        lemma_dwarf_relocs(base, added, section, relocs, i + 1);
    }
}

proof fn lemma_dwarf_section(l: LinkageModel, name: Seq<char>, data: Option<Seq<u8>>)
    ensures
        is_behind(l.obj, with_dwarf_section(l, name, data).obj),
        with_dwarf_section(l, name, data).obj.sections.len() == l.obj.sections.len() + (
        if data is Some {
            1int
        } else {
            0
        }),
{
}

proof fn lemma_dwarf(
    l: LinkageModel,
    binary: Binary,
    cu: CompilationUnit,
    info: Seq<DwarfRelocView>,
    line: Seq<DwarfRelocView>,
)
    requires
        l.obj.sections.len() + 3 <= usize::MAX,
    ensures
        is_behind(l.obj, with_unit_dwarf(l, binary, cu, info, line).obj),
{
    let info_data = dwarf_slice(binary, ".debug_info"@, cu.debug_info_range);
    let abbrev_data = dwarf_slice(binary, ".debug_abbrev"@, cu.debug_abbrev_range);
    let line_data = match cu.debug_line_range {
        Some(r) => dwarf_slice(binary, ".debug_line"@, r),
        None => None,
    };
    let a = with_dwarf_section(l, ".debug_info"@, info_data);
    let b = with_dwarf_section(a, ".debug_abbrev"@, abbrev_data);
    let c = with_dwarf_section(b, ".debug_line"@, line_data);
    lemma_dwarf_section(l, ".debug_info"@, info_data);
    lemma_dwarf_section(a, ".debug_abbrev"@, abbrev_data);
    lemma_dwarf_section(b, ".debug_line"@, line_data);
    lemma_behind_on(l.obj, a.obj, b.obj);
    lemma_behind_on(l.obj, b.obj, c.obj);
    if binary.arch == Arch::Aarch64 {
        let d = if info_data is Some && abbrev_data is Some {
            lemma_dwarf_relocs(l.obj, c, l.obj.sections.len() as usize, info, 0);
            with_dwarf_relocs(c, l.obj.sections.len() as usize, info, 0)
        } else {
            c
        };
        if line_data is Some {
            lemma_dwarf_relocs(l.obj, d, b.obj.sections.len() as usize, line, 0);
        }
    }
}

/// True when the object has the code of a function at a symbol of the function, and from
/// relocation `first` of the section on the relocations of the code: each at its offset
/// from the symbol, against the symbol of the name that it refers to, with its type and
/// addend.
pub open spec fn has_function(
    m: ObjectModel,
    opts: EmitOptions<'_>,
    f: FunctionView,
    code: CodeModel,
    s: int,
    first: int,
) -> bool {
    let x = m.symbols[s];
    &&& x.section is Some
    &&& is_function(m, opts, f, s, x.section->0, x.value)
    &&& has_bytes(m, x.section->0, x.value, code.bytes)
    &&& forall|k: int|
        0 <= k < code.relocs.len() ==> has_relocation(
            m,
            x.section->0 as int,
            #[trigger] at(first, k),
            (x.value + code.relocs[k].offset) % 0x1_0000_0000_0000_0000,
            RelocationType::Elf(code.relocs[k].r_type),
            code.relocs[k].target,
            code.relocs[k].addend as int,
        )
}

/// True when the object has the live function `i` in its section.
pub open spec fn has_live(
    m: ObjectModel,
    binary: Binary,
    opts: EmitOptions<'_>,
    disassembles: bool,
    recs: Seq<Aarch64Recovery>,
    live: Seq<(u64, usize)>,
    i: int,
) -> bool {
    &&& live_code(binary, opts, disassembles, recs, live, i) is Ok
    &&& exists|s: int, first: int| #[trigger]
        has_function(
            m,
            opts,
            opts.cu.functions@[live[i].1 as int]@,
            live_code(binary, opts, disassembles, recs, live, i)->Ok_0,
            s,
            first,
        ) && m.symbols[s].section == Some(section_of(opts, i) as nat)
}

/// True when relocation `p` of section `sec` is one of the live function `i`.
pub open spec fn belongs_to(
    m: ObjectModel,
    binary: Binary,
    opts: EmitOptions<'_>,
    disassembles: bool,
    recs: Seq<Aarch64Recovery>,
    live: Seq<(u64, usize)>,
    sec: int,
    p: int,
    i: int,
) -> bool {
    &&& 0 <= i < live.len()
    &&& section_of(opts, i) == sec
    &&& live_code(binary, opts, disassembles, recs, live, i) is Ok
    &&& exists|s: int, k: int| #[trigger]
        is_reloc_of(
            m,
            opts,
            opts.cu.functions@[live[i].1 as int]@,
            live_code(binary, opts, disassembles, recs, live, i)->Ok_0,
            s,
            k,
            sec,
            p,
        )
}

/// True when relocation `p` of section `sec` is relocation `k` of the code of a function
/// that symbol `s` stands for.
pub open spec fn is_reloc_of(
    m: ObjectModel,
    opts: EmitOptions<'_>,
    f: FunctionView,
    code: CodeModel,
    s: int,
    k: int,
    sec: int,
    p: int,
) -> bool {
    &&& is_function(m, opts, f, s, sec as nat, m.symbols[s].value)
    &&& 0 <= k < code.relocs.len()
    &&& has_relocation(
        m,
        sec,
        p,
        (m.symbols[s].value + code.relocs[k].offset) % 0x1_0000_0000_0000_0000,
        RelocationType::Elf(code.relocs[k].r_type),
        code.relocs[k].target,
        code.relocs[k].addend as int,
    )
}

/// True when relocation `p` of section `sec` is one of a live function.
pub open spec fn is_owned(
    m: ObjectModel,
    binary: Binary,
    opts: EmitOptions<'_>,
    disassembles: bool,
    recs: Seq<Aarch64Recovery>,
    live: Seq<(u64, usize)>,
    sec: int,
    p: int,
) -> bool {
    exists|i: int| #[trigger]
        belongs_to(m, binary, opts, disassembles, recs, live, sec, p, i)
}

/// The number of relocations of the live functions from `i` on that are in section `sec`.
pub open spec fn relocation_count(
    binary: Binary,
    opts: EmitOptions<'_>,
    disassembles: bool,
    recs: Seq<Aarch64Recovery>,
    live: Seq<(u64, usize)>,
    n: int,
    sec: int,
) -> nat
    decreases n,
{
    if n <= 0 {
        0
    } else {
        relocation_count(binary, opts, disassembles, recs, live, n - 1, sec) + (if section_of(
            opts,
            n - 1,
        ) == sec {
            live_code(binary, opts, disassembles, recs, live, n - 1)->Ok_0.relocs.len()
        } else {
            0
        })
    }
}

proof fn lemma_same_count(
    m: ObjectModel,
    binary: Binary,
    opts: EmitOptions<'_>,
    disassembles: bool,
    recs: Seq<Aarch64Recovery>,
    live: Seq<(u64, usize)>,
    slots: Seq<SlotModel>,
    n: int,
    sec: int,
)
    requires
        0 <= n <= live.len(),
        are_slots(m, binary, opts, disassembles, recs, live, slots, 0, live.len() as int),
    ensures
        count_in(slots, n, sec) == relocation_count(
            binary,
            opts,
            disassembles,
            recs,
            live,
            n,
            sec,
        ),
    decreases n,
{
    if n > 0 {
        lemma_same_count(m, binary, opts, disassembles, recs, live, slots, n - 1, sec);
        assert(is_live_slot(m, binary, opts, disassembles, recs, live, slots, n - 1));
    }
}

/// The object of a unit has, for each live function, a symbol of the function's name, the
/// function's code where the symbol says, and in it the relocations of the code: each at its
/// offset from the symbol, against the symbol of the name that it refers to, with its type
/// and addend. The sections of code have no others.
pub proof fn law_relocations_lie_in_their_function(
    binary: Binary,
    opts: EmitOptions<'_>,
    disassembles: bool,
    recs: Seq<Aarch64Recovery>,
    info: Seq<DwarfRelocView>,
    line: Seq<DwarfRelocView>,
)
    requires
        opts.cu.functions@.len() + 4 <= usize::MAX,
        unit_object(binary, opts, disassembles, recs, info, line) is Ok,
        addressable((unit_object(binary, opts, disassembles, recs, info, line)->Ok_0).0),
        (unit_object(binary, opts, disassembles, recs, info, line)->Ok_0).0.symbols.len()
            <= usize::MAX,
    ensures
        ({
            let m = (unit_object(binary, opts, disassembles, recs, info, line)->Ok_0).0;
            let live = spec_live_functions(binary, *opts.cu)->Ok_0;
            let codes = if opts.per_function_sections {
                live.len() as int
            } else {
                1
            };
            &&& codes <= m.sections.len()
            &&& forall|i: int|
                0 <= i < live.len() ==> #[trigger] has_live(
                    m,
                    binary,
                    opts,
                    disassembles,
                    recs,
                    live,
                    i,
                )
            &&& forall|sec: int, p: int|
                0 <= sec < codes && 0 <= p < m.sections[sec].relocations.len()
                    ==> #[trigger] is_owned(
                    m,
                    binary,
                    opts,
                    disassembles,
                    recs,
                    live,
                    sec,
                    p,
                )
            &&& forall|sec: int|
                0 <= sec < codes ==> (#[trigger] m.sections[sec]).relocations.len()
                    == relocation_count(
                    binary,
                    opts,
                    disassembles,
                    recs,
                    live,
                    live.len() as int,
                    sec,
                )
        }),
{
    let m = (unit_object(binary, opts, disassembles, recs, info, line)->Ok_0).0;
    let live = spec_live_functions(binary, *opts.cu)->Ok_0;
    law_live_functions_go_in_once(binary, *opts.cu);
    let start = opened_unit(binary.arch, opts.per_function_sections);
    let u = with_functions(start, binary, opts, disassembles, recs, live, 0)->Ok_0;
    let done = with_slots(u.l, u.slots, 0);
    lemma_unit_grows(start, binary, opts, disassembles, recs, live, 0);
    lemma_slots_symbols(u.l, u.slots, 0);
    lemma_unit_sections(start, binary, opts, disassembles, recs, live, 0);
    lemma_slots_sections(u.l, u.slots, 0);
    assert(done.obj.sections.len() + 3 <= usize::MAX);
    assert(is_behind(done.obj, m)) by {
        if opts.dwarf {
            lemma_dwarf(done, binary, *opts.cu, info, line);
        }
    }
    assert(addressable(u.l.obj)) by {
        assert forall|k: int| 0 <= k < u.l.obj.sections.len() implies (
        #[trigger] u.l.obj.sections[k]).data.len() <= u64::MAX by {
            assert(m.sections[k].data.len() <= u64::MAX);
            assert(done.obj.sections[k].data.len() == u.l.obj.sections[k].data.len());
        }
    }
    assert(u.l.obj.symbols.len() <= usize::MAX);
    assert(is_ready(start, opts, 0));
    lemma_functions(start, binary, opts, disassembles, recs, live, 0);
    let codes = if opts.per_function_sections {
        live.len() as int
    } else {
        1
    };
    assert forall|k: int| 0 <= k < u.slots.len() implies (#[trigger] u.slots[k]).section
        < u.l.obj.sections.len() by {
        assert(is_live_slot(u.l.obj, binary, opts, disassembles, recs, live, u.slots, k));
    }
    assert forall|sec: int| 0 <= sec < u.l.obj.sections.len() implies (
    #[trigger] u.l.obj.sections[sec]).relocations.len() == count_in(u.slots, 0, sec) by {}
    assert(attached(u.l.obj, u.slots, 0));
    lemma_slots(u.l, u.slots, 0);
    assert(extends(done.obj, m)) by {
        assert forall|i: int, j: int|
            0 <= i < done.obj.sections.len() && 0 <= j
                < done.obj.sections[i].relocations.len() implies #[trigger] m.sections[i].relocations[j]
            == done.obj.sections[i].relocations[j] by {
            assert(m.sections[i] == done.obj.sections[i]);
        }
    }
    assert(keeps(done.obj, m)) by {
        assert forall|i: int, j: int|
            0 <= i < done.obj.sections.len() && 0 <= j
                < done.obj.sections[i].data.len() implies #[trigger] m.sections[i].data[j]
            == done.obj.sections[i].data[j] by {
            assert(m.sections[i] == done.obj.sections[i]);
        }
    }
    lemma_keeps_on(u.l.obj, done.obj, m);
    assert forall|i: int| 0 <= i < live.len() implies #[trigger] has_live(
        m,
        binary,
        opts,
        disassembles,
        recs,
        live,
        i,
    ) by {
        let f = opts.cu.functions@[live[i].1 as int]@;
        let code = live_code(binary, opts, disassembles, recs, live, i)->Ok_0;
        let slot = u.slots[i];
        assert(is_live_slot(u.l.obj, binary, opts, disassembles, recs, live, u.slots, i));
        lemma_slot_stays(u.l.obj, m, opts, f, code, slot, i);
        let s = choose|s: int| #[trigger]
            is_function(m, opts, f, s, slot.section as nat, slot.offset);
        assert(has_all(done.obj, slot));
        lemma_all_stay(done.obj, m, slot);
        let first = choose|first: int| #[trigger] has_from(m, slot, first);
        assert forall|k: int| 0 <= k < code.relocs.len() implies has_relocation(
            m,
            slot.section as int,
            #[trigger] at(first, k),
            (slot.offset + code.relocs[k].offset) % 0x1_0000_0000_0000_0000,
            RelocationType::Elf(code.relocs[k].r_type),
            code.relocs[k].target,
            code.relocs[k].addend as int,
        ) by {
            assert(is_placed(m, slot, k, at(first, k)));
        }
        assert(has_function(m, opts, f, code, s, first));
    }
    assert forall|sec: int, p: int|
        0 <= sec < codes && 0 <= p < m.sections[sec].relocations.len() implies #[trigger] is_owned(
        m,
        binary,
        opts,
        disassembles,
        recs,
        live,
        sec,
        p,
    ) by {
        assert(m.sections[sec] == done.obj.sections[sec]);
        assert(is_of_slots(done.obj, u.slots, u.slots.len() as int, sec, p));
        let (j, k) = choose|j: int, k: int| #[trigger]
            is_placed(done.obj, u.slots[j], k, p) && 0 <= j < u.slots.len() && u.slots[j].section
                == sec;
        let f = opts.cu.functions@[live[j].1 as int]@;
        let code = live_code(binary, opts, disassembles, recs, live, j)->Ok_0;
        assert(is_live_slot(u.l.obj, binary, opts, disassembles, recs, live, u.slots, j));
        lemma_slot_stays(u.l.obj, m, opts, f, code, u.slots[j], j);
        lemma_placed_stays(done.obj, m, u.slots[j], k, p);
        let s = choose|s: int| #[trigger]
            is_function(m, opts, f, s, u.slots[j].section as nat, u.slots[j].offset);
        assert(is_reloc_of(m, opts, f, code, s, k, sec, p));
        assert(belongs_to(m, binary, opts, disassembles, recs, live, sec, p, j));
    }
    assert forall|sec: int| 0 <= sec < codes implies (
    #[trigger] m.sections[sec]).relocations.len() == relocation_count(
        binary,
        opts,
        disassembles,
        recs,
        live,
        live.len() as int,
        sec,
    ) by {
        assert(m.sections[sec] == done.obj.sections[sec]);
        lemma_same_count(
            u.l.obj,
            binary,
            opts,
            disassembles,
            recs,
            live,
            u.slots,
            live.len() as int,
            sec,
        );
    }
}

proof fn lemma_unit_sections(
    u: UnitModel,
    binary: Binary,
    opts: EmitOptions<'_>,
    disassembles: bool,
    recs: Seq<Aarch64Recovery>,
    live: Seq<(u64, usize)>,
    i: int,
)
    requires
        0 <= i <= live.len(),
        with_functions(u, binary, opts, disassembles, recs, live, i) is Ok,
        u.l.obj.sections.len() + (live.len() - i) <= usize::MAX,
        !opts.per_function_sections ==> u.l.obj.sections.len() > 0,
        forall|k: int|
            0 <= k < u.slots.len() ==> (#[trigger] u.slots[k]).section < u.l.obj.sections.len(),
    ensures
        ({
            let v = with_functions(u, binary, opts, disassembles, recs, live, i)->Ok_0;
            &&& v.l.obj.sections.len() <= u.l.obj.sections.len() + (live.len() - i)
            &&& v.l.obj.format == u.l.obj.format
            &&& forall|k: int|
                0 <= k < v.slots.len() ==> (#[trigger] v.slots[k]).section
                    < v.l.obj.sections.len()
        }),
    decreases live.len() - i,
{
    if i < live.len() {
        let f = opts.cu.functions@[live[i].1 as int];
        let code = live_code(binary, opts, disassembles, recs, live, i)->Ok_0;
        let next = with_function(u, opts, f@, code);
        assert forall|k: int| 0 <= k < next.slots.len() implies (
        #[trigger] next.slots[k]).section < next.l.obj.sections.len() by {
            if k < u.slots.len() {
                assert(next.slots[k] == u.slots[k]);
            }
        }
        lemma_unit_sections(next, binary, opts, disassembles, recs, live, i + 1);
    }
}

proof fn lemma_slot_sections(l: LinkageModel, slot: SlotModel, i: int)
    requires
        slot.section < l.obj.sections.len(),
        l.obj.format == ObjectFormat::Elf,
    ensures
        ({
            let end = with_slot(l, slot, i).obj;
            &&& end.format == ObjectFormat::Elf
            &&& end.sections.len() == l.obj.sections.len()
            &&& forall|k: int|
                0 <= k < l.obj.sections.len() ==> (#[trigger] end.sections[k]).data.len()
                    == l.obj.sections[k].data.len()
        }),
    decreases slot.relocs.len() - i,
{
    if 0 <= i < slot.relocs.len() {
        let r = slot.relocs[i];
        let m = l.with_reference(r.target, r.target, SymbolKind::Text);
        let added = m.over(
            m.obj.with_relocation(
                slot.section as nat,
                slot.offset.wrapping_add(r.offset),
                l.number(r.target) as nat,
                RelocationType::Elf(r.r_type),
                r.addend as int,
            ),
        );
        lemma_slot_sections(added, slot, i + 1);
        assert forall|k: int| 0 <= k < l.obj.sections.len() implies (
        #[trigger] with_slot(l, slot, i).obj.sections[k]).data.len()
            == l.obj.sections[k].data.len() by {
            assert(added.obj.sections[k].data.len() == l.obj.sections[k].data.len());
        }
    }
}

proof fn lemma_slots_sections(l: LinkageModel, slots: Seq<SlotModel>, i: int)
    requires
        l.obj.format == ObjectFormat::Elf,
        forall|k: int|
            0 <= k < slots.len() ==> (#[trigger] slots[k]).section < l.obj.sections.len(),
    ensures
        ({
            let end = with_slots(l, slots, i).obj;
            &&& end.sections.len() == l.obj.sections.len()
            &&& forall|k: int|
                0 <= k < l.obj.sections.len() ==> (#[trigger] end.sections[k]).data.len()
                    == l.obj.sections[k].data.len()
        }),
    decreases slots.len() - i,
{
    if 0 <= i < slots.len() {
        let next = with_slot(l, slots[i], 0);
        lemma_slot_sections(l, slots[i], 0);
        lemma_slots_sections(next, slots, i + 1);
        assert forall|k: int| 0 <= k < l.obj.sections.len() implies (
        #[trigger] with_slots(l, slots, i).obj.sections[k]).data.len()
            == l.obj.sections[k].data.len() by {
            assert(next.obj.sections[k].data.len() == l.obj.sections[k].data.len());
        }
    }
}

} // verus!
