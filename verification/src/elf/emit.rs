//! One relocatable ELF object for each compilation unit.
use std::ops::Range;
use vstd::prelude::*;

use super::binary::Binary;
use super::code::{
    accumulated, no_stats, prepare_function, prepared, prepared_views, Aarch64Recovery, CodeModel,
    EmitError, EmitStats, FunctionCode, PreparedReloc, PreparedView,
};
use super::cu::{CompilationUnit, Function, FunctionView};
use super::reltypes::{R_AARCH64_ABS32, R_AARCH64_ABS64};
use super::symbols::{exported, DataResolutionView, DataSource, GlobalSymbols};
use crate::arch::Arch;
use crate::arm::decode::Disassembler;
use crate::arm::recover::Context;
use crate::growth::{
    addressable, grows, holds_function, is_code_symbol, lemma_addressable, lemma_function_stays,
    lemma_grows_by_data, lemma_grows_by_reference, lemma_grows_by_relocation,
    lemma_grows_by_section, lemma_grows_on,
};
use crate::image::elf_section;
use crate::linkage::{Linkage, LinkageModel};
use crate::objfile::{
    written, Machine, ObjectFormat, ObjectModel, RelocationType, SectionKind, SymbolKind,
};
use crate::ordered::{
    by_address, lemma_stable_sorted, lemma_stable_sorted_contains, sort_by_address, stable_sorted,
};
use crate::ranges::slice_view;
use crate::text::{digits, ends_with, has_suffix, hex, joined, owned, str_eq, to_chars};

verus! {

broadcast use {
    vstd::std_specs::btree::group_btree_axioms,
    vstd::hash_map::group_hash_map_axioms,
};

/// What to make of a compilation unit.
pub struct EmitOptions<'a> {
    pub cu: &'a CompilationUnit,
    pub symbols: &'a GlobalSymbols,
    /// Make visible functions weak and put each in a group of its own, so that
    /// the linker keeps one of several with the same name.
    pub comdat: bool,
    /// Take the unit's DWARF information along.
    pub dwarf: bool,
    /// Give each function a section of its own.
    pub per_function_sections: bool,
    /// Make static functions visible. Where the boundaries of units are not known
    /// for certain, a function may be in another object than its callers; names
    /// are unique, so that is safe.
    pub promote_locals: bool,
}

/// A relocation of DWARF information.
#[derive(Debug)]
pub struct DwarfReloc {
    /// Eight bytes wide, or else four.
    pub wide: bool,
    pub offset: u64,
    pub symbol: String,
    pub addend: i64,
}

/// A relocation of DWARF information, with its symbol as text.
pub ghost struct DwarfRelocView {
    pub wide: bool,
    pub offset: u64,
    pub symbol: Seq<char>,
    pub addend: i64,
}

impl View for DwarfReloc {
    type V = DwarfRelocView;

    open spec fn view(&self) -> DwarfRelocView {
        DwarfRelocView {
            wide: self.wide,
            offset: self.offset,
            symbol: self.symbol@,
            addend: self.addend,
        }
    }
}

/// Relocations of DWARF information, with their symbols as text.
pub open spec fn dwarf_views(v: Seq<DwarfReloc>) -> Seq<DwarfRelocView> {
    v.map_values(|r: DwarfReloc| r@)
}

/// The machine that objects of an image are for.
pub open spec fn machine_of(arch: Arch) -> Machine {
    match arch {
        Arch::Aarch64 => Machine::Aarch64,
        Arch::Arm => Machine::Arm,
    }
}

/// The machine that objects of an image are for.
pub fn object_machine(arch: Arch) -> (m: Machine)
    ensures
        m == machine_of(arch),
{
    match arch {
        Arch::Aarch64 => Machine::Aarch64,
        Arch::Arm => Machine::Arm,
    }
}

/// An object for an ELF image under construction.
pub open spec fn is_elf(m: ObjectModel, arch: Arch) -> bool {
    m.format == ObjectFormat::Elf && m.machine == machine_of(arch)
}

/// `c` where it may stand in the name of a section, else `_`.
pub open spec fn section_char(c: char) -> char {
    if 'a' <= c <= 'z' || 'A' <= c <= 'Z' || '0' <= c <= '9' || c == '_' || c == '.' || c == '$'
        || c == '@' {
        c
    } else {
        '_'
    }
}

/// A symbol's name as the end of a section's name.
pub open spec fn section_suffix(name: Seq<char>) -> Seq<char> {
    if name.len() == 0 {
        seq!['x']
    } else {
        name.map_values(|c: char| section_char(c))
    }
}

/// Makes a symbol's name safe as the end of a section's name. Some tools do not
/// take other characters.
pub fn sanitize_section_suffix(name: &str) -> (r: String)
    ensures
        r@ == section_suffix(name@),
{
    let v = to_chars(name);
    let mut r = String::new();
    if v.len() == 0 {
        r.push('x');
        assert(r@ =~= seq!['x']);
        return r;
    }
    let ghost goal = name@.map_values(|c: char| section_char(c));
    let mut i: usize = 0;
    while i < v.len()
        invariant
            i <= v@.len(),
            v@ == name@,
            goal == name@.map_values(|c: char| section_char(c)),
            r@ == goal.subrange(0, i as int),
        decreases v@.len() - i,
    {
        let c = v[i];
        if ('a' <= c && c <= 'z') || ('A' <= c && c <= 'Z') || ('0' <= c && c <= '9') || c == '_'
            || c == '.' || c == '$' || c == '@' {
            r.push(c);
        } else {
            r.push('_');
        }
        i = i + 1;
        assert(r@ =~= goal.subrange(0, i as int));
    }
    assert(goal.subrange(0, goal.len() as int) =~= goal);
    r
}

/// Name of a function in its object: what the tables of the image call it, or else
/// its own name. One that has none gets its address.
pub open spec fn function_name(symbols: GlobalSymbols, f: FunctionView) -> Seq<char> {
    let raw = if symbols.functions@.contains_key(f.addr) {
        symbols.functions@[f.addr]@.export_name()
    } else {
        exported(f.name, f.linkage_name)
    };
    if raw.len() == 0 || raw == "<anon>"@ {
        "__delink_sub_"@ + digits(f.addr as nat, 16)
    } else {
        raw
    }
}

/// An object calls a function what the others refer to it by: where the tables have
/// a name for its address, a pointer to its start resolves to that name.
pub proof fn law_references_meet_definitions(symbols: GlobalSymbols, f: FunctionView)
    requires
        symbols.functions@.contains_key(f.addr),
        symbols.functions@[f.addr].size > 0,
        symbols.functions@[f.addr]@.export_name().len() > 0,
        symbols.functions@[f.addr]@.export_name() != "<anon>"@,
        !symbols.variables@.contains_key(f.addr),
    ensures
        symbols.spec_resolve_data(f.addr) == Some(
            DataResolutionView {
                symbol: function_name(symbols, f),
                addend: 0,
                source: DataSource::Function,
            },
        ),
{
    symbols.law_start_resolves_to_itself(f.addr);
}

fn name_function(symbols: &GlobalSymbols, f: &Function) -> (r: String)
    ensures
        r@ == function_name(*symbols, f@),
{
    let raw: &str = match symbols.functions.get(&f.addr) {
        Some(g) => g.export_name(),
        None => match &f.linkage_name {
            Some(n) => n.as_str(),
            None => f.name.as_str(),
        },
    };
    if raw.unicode_len() == 0 || str_eq(raw, "<anon>") {
        joined("__delink_sub_", hex(f.addr).as_str())
    } else {
        owned(raw)
    }
}

/// The code of a function in a section of the object.
#[verifier::ext_equal]
pub ghost struct SlotModel {
    pub section: usize,
    pub offset: u64,
    pub relocs: Seq<PreparedView>,
}

/// The object of a unit, as far as it is built.
#[verifier::ext_equal]
pub ghost struct UnitModel {
    pub l: LinkageModel,
    pub slots: Seq<SlotModel>,
    pub stats: EmitStats,
}

/// With a function: its code in a section of its own or behind that of the others,
/// its symbol, and its group.
pub open spec fn with_function(
    u: UnitModel,
    opts: EmitOptions<'_>,
    f: FunctionView,
    code: CodeModel,
) -> UnitModel {
    let name = function_name(*opts.symbols, f);
    let global = f.external || opts.promote_locals;
    let grouped = opts.comdat && opts.per_function_sections && global;
    let section = if opts.per_function_sections {
        u.l.obj.sections.len() as usize
    } else {
        0
    };
    let opened = if opts.per_function_sections {
        u.l.obj.with_section(""@, ".text."@ + section_suffix(name), SectionKind::Text)
    } else {
        u.l.obj
    };
    let offset = if opts.per_function_sections {
        0
    } else {
        u.l.obj.append_offset(0, 4) as u64
    };
    let placed = u.l.over(opened.with_data(section as nat, code.bytes, 4));
    let named = placed.with_definition(
        name,
        name,
        offset,
        f.size,
        SymbolKind::Text,
        global,
        grouped,
        section,
    );
    UnitModel {
        l: if grouped {
            named.over(named.obj.with_comdat(u.l.obj.symbols.len(), section as nat))
        } else {
            named
        },
        slots: u.slots.push(SlotModel { section, offset, relocs: code.relocs }),
        stats: EmitStats {
            text_bytes: u.stats.text_bytes.wrapping_add(f.size),
            ..accumulated(u.stats, code.stats)
        },
    }
}

struct FunctionSlot {
    section: usize,
    /// Where the function's bytes begin in the section.
    offset: u64,
    relocs: Vec<PreparedReloc>,
}

impl View for FunctionSlot {
    type V = SlotModel;

    closed spec fn view(&self) -> SlotModel {
        SlotModel {
            section: self.section,
            offset: self.offset,
            relocs: prepared_views(self.relocs@),
        }
    }
}

spec fn slot_views(v: Seq<FunctionSlot>) -> Seq<SlotModel> {
    v.map_values(|s: FunctionSlot| s@)
}

struct Unit {
    l: Linkage,
    slots: Vec<FunctionSlot>,
    stats: EmitStats,
}

impl View for Unit {
    type V = UnitModel;

    closed spec fn view(&self) -> UnitModel {
        UnitModel { l: self.l@, slots: slot_views(self.slots@), stats: self.stats }
    }
}

/// Slots are in sections of the object, and have the addends of their
/// architecture.
spec fn slots_fit(slots: Seq<SlotModel>, m: ObjectModel, arch: Arch) -> bool {
    &&& forall|i: int| 0 <= i < slots.len() ==> (#[trigger] slots[i]).section < m.sections.len()
    &&& arch == Arch::Arm ==> forall|i: int, j: int|
        0 <= i < slots.len() && 0 <= j < slots[i].relocs.len() ==> (
        #[trigger] slots[i].relocs[j]).addend == 0
}

/// What holds of a unit under construction.
spec fn unit_wf(u: Unit, arch: Arch, per_function_sections: bool) -> bool {
    &&& u.l.wf()
    &&& is_elf(u.l@.obj, arch)
    &&& slots_fit(u@.slots, u.l@.obj, arch)
    &&& !per_function_sections ==> u.l@.obj.sections.len() > 0 && u.l@.obj.sections[0].kind
        == SectionKind::Text
}

/// ARM code has its addends in the fields.
proof fn lemma_arm_addends(
    cx: Context,
    disassembles: bool,
    rec: Option<Aarch64Recovery>,
    code: CodeModel,
)
    requires
        prepared(Arch::Arm, cx, disassembles, rec) == Ok::<CodeModel, EmitError>(code),
    ensures
        forall|j: int| 0 <= j < code.relocs.len() ==> (#[trigger] code.relocs[j]).addend == 0,
{
}

fn add_function(
    u: &mut Unit,
    opts: &EmitOptions<'_>,
    f: &Function,
    code: FunctionCode,
    Ghost(arch): Ghost<Arch>,
)
    requires
        unit_wf(*old(u), arch, opts.per_function_sections),
        arch == Arch::Arm ==> forall|j: int|
            0 <= j < code@.relocs.len() ==> (#[trigger] code@.relocs[j]).addend == 0,
    ensures
        unit_wf(*final(u), arch, opts.per_function_sections),
        final(u)@ == with_function(old(u)@, *opts, f@, code@),
{
    let ghost before = *u;
    let ghost slots = u.slots@;
    let name = name_function(opts.symbols, f);
    let global = f.external || opts.promote_locals;
    let grouped = opts.comdat && opts.per_function_sections && global;
    proof {
        u.l.obj.lemma_wf();
    }
    let (section, offset): (usize, u64) = if opts.per_function_sections {
        let suffix = sanitize_section_suffix(name.as_str());
        let section_name = joined(".text.", suffix.as_str());
        let s = u.l.obj.add_section("", section_name.as_str(), SectionKind::Text);
        u.l.obj.append_data(s, code.bytes.as_slice(), 4);
        (s, 0)
    } else {
        let off = u.l.obj.append_data(0, code.bytes.as_slice(), 4);
        (0, off)
    };
    let sym = u.l.define(
        name.as_str(),
        name.as_str(),
        offset,
        f.size,
        SymbolKind::Text,
        global,
        grouped,
        section,
    );
    if grouped {
        u.l.obj.add_comdat(sym, section);
    }
    let mut stats = u.stats;
    stats.accumulate(&code.stats);
    stats.text_bytes = u.stats.text_bytes.wrapping_add(f.size);
    u.stats = stats;
    let ghost relocs = code@.relocs;
    u.slots.push(FunctionSlot { section, offset, relocs: code.relocs });
    proof {
        assert(slot_views(u.slots@) =~= slot_views(slots).push(
            SlotModel { section, offset, relocs },
        ));
        assert(u@ =~= with_function(before@, *opts, f@, code@));
        assert(slots_fit(u@.slots, u.l@.obj, arch)) by {
            assert forall|i: int| 0 <= i < u@.slots.len() implies (#[trigger] u@.slots[i]).section
                < u.l@.obj.sections.len() by {
                if i < before@.slots.len() {
                    assert(u@.slots[i] == before@.slots[i]);
                }
            }
            if arch == Arch::Arm {
                assert forall|i: int, j: int|
                    0 <= i < u@.slots.len() && 0 <= j < u@.slots[i].relocs.len() implies (
                #[trigger] u@.slots[i].relocs[j]).addend == 0 by {
                    if i < before@.slots.len() {
                        assert(u@.slots[i] == before@.slots[i]);
                        assert(before@.slots[i].relocs[j].addend == 0);
                    } else {
                        assert(code@.relocs[j].addend == 0);
                    }
                }
            }
        }
    }
}

/// With the relocations of a slot from `i` on.
pub open spec fn with_slot(l: LinkageModel, slot: SlotModel, i: int) -> LinkageModel
    decreases slot.relocs.len() - i,
{
    if i < 0 || i >= slot.relocs.len() {
        l
    } else {
        let r = slot.relocs[i];
        let m = l.with_reference(r.target, r.target, SymbolKind::Text);
        with_slot(
            m.over(
                m.obj.with_relocation(
                    slot.section as nat,
                    slot.offset.wrapping_add(r.offset),
                    l.number(r.target) as nat,
                    RelocationType::Elf(r.r_type),
                    r.addend as int,
                ),
            ),
            slot,
            i + 1,
        )
    }
}

/// With the relocations of the slots from `i` on.
pub open spec fn with_slots(l: LinkageModel, slots: Seq<SlotModel>, i: int) -> LinkageModel
    decreases slots.len() - i,
{
    if i < 0 || i >= slots.len() {
        l
    } else {
        with_slots(with_slot(l, slots[i], 0), slots, i + 1)
    }
}

/// Number of relocations of the first `n` slots, modulo the range of `usize`.
pub open spec fn reloc_count(slots: Seq<SlotModel>, n: int) -> usize
    decreases n,
{
    if n <= 0 {
        0
    } else {
        reloc_count(slots, n - 1).wrapping_add(slots[n - 1].relocs.len() as usize)
    }
}

fn attach_slot(l: &mut Linkage, slot: &FunctionSlot, Ghost(arch): Ghost<Arch>)
    requires
        old(l).wf(),
        is_elf(old(l)@.obj, arch),
        slot.section < old(l)@.obj.sections.len(),
        arch == Arch::Arm ==> forall|j: int|
            0 <= j < slot@.relocs.len() ==> (#[trigger] slot@.relocs[j]).addend == 0,
    ensures
        final(l).wf(),
        is_elf(final(l)@.obj, arch),
        final(l)@.obj.sections.len() == old(l)@.obj.sections.len(),
        final(l)@ == with_slot(old(l)@, slot@, 0),
{
    let mut i: usize = 0;
    while i < slot.relocs.len()
        invariant
            l.wf(),
            is_elf(l@.obj, arch),
            slot.section < l@.obj.sections.len(),
            l@.obj.sections.len() == old(l)@.obj.sections.len(),
            arch == Arch::Arm ==> forall|j: int|
                0 <= j < slot@.relocs.len() ==> (#[trigger] slot@.relocs[j]).addend == 0,
            i <= slot.relocs@.len(),
            with_slot(old(l)@, slot@, 0) == with_slot(l@, slot@, i as int),
        decreases slot.relocs@.len() - i,
    {
        let r = &slot.relocs[i];
        assert(slot@.relocs[i as int] == r@);
        let sym = l.reference(r.target.as_str(), r.target.as_str(), SymbolKind::Text);
        let offset: u64 = slot.offset.wrapping_add(r.offset);
        l.obj.add_relocation(slot.section, offset, sym, r.addend, RelocationType::Elf(r.r_type));
        i = i + 1;
    }
}

fn attach_slots(l: &mut Linkage, slots: &Vec<FunctionSlot>, Ghost(arch): Ghost<Arch>) -> (count:
    usize)
    requires
        old(l).wf(),
        is_elf(old(l)@.obj, arch),
        slots_fit(slot_views(slots@), old(l)@.obj, arch),
    ensures
        final(l).wf(),
        is_elf(final(l)@.obj, arch),
        final(l)@ == with_slots(old(l)@, slot_views(slots@), 0),
        count == reloc_count(slot_views(slots@), slots@.len() as int),
{
    let ghost views = slot_views(slots@);
    let mut count: usize = 0;
    let mut i: usize = 0;
    while i < slots.len()
        invariant
            l.wf(),
            is_elf(l@.obj, arch),
            views == slot_views(slots@),
            slots_fit(views, l@.obj, arch),
            i <= slots@.len(),
            with_slots(old(l)@, views, 0) == with_slots(l@, views, i as int),
            count == reloc_count(views, i as int),
        decreases slots@.len() - i,
    {
        let slot = &slots[i];
        assert(views[i as int] == slot@);
        proof {
            if arch == Arch::Arm {
                assert forall|j: int| 0 <= j < slot@.relocs.len() implies (
                #[trigger] slot@.relocs[j]).addend == 0 by {
                    assert(views[i as int].relocs[j].addend == 0);
                }
            }
        }
        attach_slot(l, slot, Ghost(arch));
        count = count.wrapping_add(slot.relocs.len());
        i = i + 1;
    }
    count
}

/// The functions among the first `n` that take up space inside `.text`, with
/// their addresses and positions.
pub open spec fn live_among(functions: Seq<Function>, base: u64, size: u64, n: int) -> Seq<
    (u64, usize),
>
    decreases n,
{
    if n <= 0 {
        Seq::empty()
    } else {
        let before = live_among(functions, base, size, n - 1);
        let f = functions[n - 1];
        if f.size > 0 && base <= f.addr && f.addr + f.size <= base + size {
            before.push((f.addr, (n - 1) as usize))
        } else {
            before
        }
    }
}

/// The functions of a unit that take up space inside `.text`, by address, or why
/// there are none.
pub open spec fn spec_live_functions(binary: Binary, cu: CompilationUnit) -> Result<
    Seq<(u64, usize)>,
    EmitError,
> {
    if cu.functions@.len() == 0 {
        Err(EmitError::NoFunctions)
    } else {
        match elf_section(binary.sections@, ".text"@) {
            None => Err(EmitError::NoText),
            Some(k) => {
                let text = binary.sections@[k];
                if text.data is None {
                    Err(EmitError::UnreadableSection)
                } else {
                    let live = stable_sorted(
                        live_among(
                            cu.functions@,
                            text.addr,
                            text.size,
                            cu.functions@.len() as int,
                        ),
                        by_address(),
                    );
                    if live.len() == 0 {
                        Err(EmitError::NoLiveFunctions)
                    } else {
                        Ok(live)
                    }
                }
            },
        }
    }
}

proof fn lemma_live_among(functions: Seq<Function>, base: u64, size: u64, n: int)
    requires
        0 <= n <= functions.len() <= usize::MAX,
    ensures
        forall|i: int|
            0 <= i < live_among(functions, base, size, n).len() ==> {
                let e = #[trigger] live_among(functions, base, size, n)[i];
                let f = functions[e.1 as int];
                e.1 < n && e.0 == f.addr && f.size > 0 && base <= f.addr && f.addr + f.size <= base
                    + size
            },
    decreases n,
{
    if n > 0 {
        lemma_live_among(functions, base, size, n - 1);
        let before = live_among(functions, base, size, n - 1);
        assert forall|i: int| 0 <= i < live_among(functions, base, size, n).len() implies {
            let e = #[trigger] live_among(functions, base, size, n)[i];
            let f = functions[e.1 as int];
            e.1 < n && e.0 == f.addr && f.size > 0 && base <= f.addr && f.addr + f.size <= base
                + size
        } by {
            if i < before.len() {
                assert(live_among(functions, base, size, n)[i] == before[i]);
            }
        }
    }
}

/// The functions of an object keep the order that they have in the image, and all of
/// them take up space in its `.text`.
pub proof fn law_functions_keep_their_order(binary: Binary, cu: CompilationUnit)
    requires
        cu.functions@.len() <= usize::MAX,
        spec_live_functions(binary, cu) is Ok,
    ensures
        ({
            let live = spec_live_functions(binary, cu)->Ok_0;
            let text = binary.sections@[elf_section(binary.sections@, ".text"@)->0];
            &&& forall|i: int, j: int|
                0 <= i < j < live.len() ==> (#[trigger] live[i]).0 <= (#[trigger] live[j]).0
            &&& forall|i: int|
                0 <= i < live.len() ==> {
                    let e = #[trigger] live[i];
                    let f = cu.functions@[e.1 as int];
                    e.1 < cu.functions@.len() && e.0 == f.addr && f.size > 0 && text.addr <= f.addr
                        && f.addr + f.size <= text.addr + text.size
                }
        }),
{
    let live = spec_live_functions(binary, cu)->Ok_0;
    let text = binary.sections@[elf_section(binary.sections@, ".text"@)->0];
    let found = live_among(cu.functions@, text.addr, text.size, cu.functions@.len() as int);
    lemma_live_among(cu.functions@, text.addr, text.size, cu.functions@.len() as int);
    lemma_stable_sorted(found, by_address());
    assert forall|i: int, j: int| 0 <= i < j < live.len() implies (#[trigger] live[i]).0 <= (
    #[trigger] live[j]).0 by {
        assert(by_address()(live[i], live[j]));
    }
    assert forall|i: int| 0 <= i < live.len() implies {
        let e = #[trigger] live[i];
        let f = cu.functions@[e.1 as int];
        e.1 < cu.functions@.len() && e.0 == f.addr && f.size > 0 && text.addr <= f.addr && f.addr
            + f.size <= text.addr + text.size
    } by {
        lemma_stable_sorted_contains(found, by_address(), live[i]);
        assert(live.contains(live[i]));
        let k = choose|k: int| 0 <= k < found.len() && found[k] == live[i];
        assert(found[k] == live[i]);
    }
}

/// Finds the functions of a unit that go into its object: address and position of
/// each, in the order in which they go. On AArch64 what recovery finds in each of
/// them is handed to [`emit_cu`] in the same order.
pub fn live_functions(binary: &Binary, cu: &CompilationUnit) -> (r: Result<
    Vec<(u64, usize)>,
    EmitError,
>)
    ensures
        match r {
            Ok(v) => spec_live_functions(*binary, *cu) == Ok::<Seq<(u64, usize)>, EmitError>(v@)
                && forall|i: int|
                0 <= i < v@.len() ==> (#[trigger] v@[i]).1 < cu.functions@.len(),
            Err(e) => spec_live_functions(*binary, *cu) == Err::<Seq<(u64, usize)>, EmitError>(e),
        },
{
    if cu.functions.len() == 0 {
        return Err(EmitError::NoFunctions);
    }
    let text = match binary.section(".text") {
        Some(s) => s,
        None => return Err(EmitError::NoText),
    };
    if text.data.is_none() {
        return Err(EmitError::UnreadableSection);
    }
    let mut live: Vec<(u64, usize)> = Vec::new();
    let mut i: usize = 0;
    while i < cu.functions.len()
        invariant
            i <= cu.functions@.len(),
            live@ == live_among(cu.functions@, text.addr, text.size, i as int),
            forall|k: int| 0 <= k < live@.len() ==> (#[trigger] live@[k]).1 < i,
        decreases cu.functions@.len() - i,
    {
        let f = &cu.functions[i];
        if f.size > 0 && f.addr >= text.addr && f.addr as u128 + f.size as u128 <= text.addr as u128
            + text.size as u128 {
            live.push((f.addr, i));
        }
        i = i + 1;
    }
    let ghost unsorted = live@;
    sort_by_address(&mut live);
    proof {
        assert forall|k: int| 0 <= k < live@.len() implies (#[trigger] live@[k]).1
            < cu.functions@.len() by {
            lemma_stable_sorted_contains(unsorted, by_address(), live@[k]);
            assert(live@.contains(live@[k]));
            let j = choose|j: int| 0 <= j < unsorted.len() && unsorted[j] == live@[k];
            assert(unsorted[j].1 < cu.functions@.len());
        }
    }
    if live.len() == 0 {
        return Err(EmitError::NoLiveFunctions);
    }
    Ok(live)
}

/// What recovery found in the live function `i`, if it is known.
pub open spec fn recovery_at(recs: Seq<Aarch64Recovery>, i: int) -> Option<Aarch64Recovery> {
    if 0 <= i < recs.len() {
        Some(recs[i])
    } else {
        None
    }
}

/// With the live functions from `i` on, or why one of them does not go.
pub open spec fn with_functions(
    u: UnitModel,
    binary: Binary,
    opts: EmitOptions<'_>,
    disassembles: bool,
    recs: Seq<Aarch64Recovery>,
    live: Seq<(u64, usize)>,
    i: int,
) -> Result<UnitModel, EmitError>
    decreases live.len() - i,
{
    if i < 0 || i >= live.len() {
        Ok(u)
    } else {
        let f = opts.cu.functions@[live[i].1 as int];
        let text = binary.sections@[elf_section(binary.sections@, ".text"@)->0];
        let cx = Context {
            symbols: *opts.symbols,
            base: text.addr,
            bytes: text.data->0@,
            fn_addr: f.addr,
            fn_size: f.size,
        };
        match prepared(binary.arch, cx, disassembles, recovery_at(recs, i)) {
            Err(e) => Err(e),
            Ok(code) => with_functions(
                with_function(u, opts, f@, code),
                binary,
                opts,
                disassembles,
                recs,
                live,
                i + 1,
            ),
        }
    }
}

/// AArch64 code needs no disassembler.
proof fn lemma_no_disassembler(
    u: UnitModel,
    binary: Binary,
    opts: EmitOptions<'_>,
    recs: Seq<Aarch64Recovery>,
    live: Seq<(u64, usize)>,
    i: int,
)
    requires
        binary.arch == Arch::Aarch64,
    ensures
        with_functions(u, binary, opts, false, recs, live, i) == with_functions(
            u,
            binary,
            opts,
            true,
            recs,
            live,
            i,
        ),
    decreases live.len() - i,
{
    if 0 <= i < live.len() {
        let f = opts.cu.functions@[live[i].1 as int];
        let text = binary.sections@[elf_section(binary.sections@, ".text"@)->0];
        let cx = Context {
            symbols: *opts.symbols,
            base: text.addr,
            bytes: text.data->0@,
            fn_addr: f.addr,
            fn_size: f.size,
        };
        if let Ok(code) = prepared(binary.arch, cx, true, recovery_at(recs, i)) {
            lemma_no_disassembler(
                with_function(u, opts, f@, code),
                binary,
                opts,
                recs,
                live,
                i + 1,
            );
        }
    }
}

/// An object with nothing in it, or with an empty `.text` section where functions
/// have none of their own.
pub open spec fn opened_unit(arch: Arch, per_function_sections: bool) -> UnitModel {
    let empty = LinkageModel::empty(ObjectFormat::Elf, machine_of(arch));
    UnitModel {
        l: if per_function_sections {
            empty
        } else {
            empty.over(empty.obj.with_section(""@, ".text"@, SectionKind::Text))
        },
        slots: Seq::empty(),
        stats: no_stats(),
    }
}

/// The bytes of a range of the section that `name` stands for, where it is not
/// empty and lies in the section.
pub open spec fn dwarf_slice(binary: Binary, name: Seq<char>, range: Range<usize>) -> Option<Seq<u8>> {
    match binary.spec_section_data(name) {
        Some(d) => if range.start < range.end && range.end <= d.len() {
            Some(d.subrange(range.start as int, range.end as int))
        } else {
            None
        },
        None => None,
    }
}

fn dwarf_section_slice<'a>(binary: &'a Binary, name: &str, range: &Range<usize>) -> (r: Option<
    &'a [u8],
>)
    ensures
        slice_view(r) == dwarf_slice(*binary, name@, *range),
{
    match binary.section_data(name) {
        Some(d) => {
            let n: usize = d.len();
            if range.start < range.end && range.end <= n {
                Some(vstd::slice::slice_subrange(d, range.start, range.end))
            } else {
                None
            }
        },
        None => None,
    }
}

/// With a section of DWARF information, where there is any.
pub open spec fn with_dwarf_section(l: LinkageModel, name: Seq<char>, data: Option<Seq<u8>>) -> LinkageModel {
    match data {
        Some(d) => l.over(
            l.obj.with_section(""@, name, SectionKind::Debug).with_data(
                l.obj.sections.len(),
                d,
                1,
            ),
        ),
        None => l,
    }
}

fn add_dwarf_section(l: &mut Linkage, name: &str, data: Option<&[u8]>, Ghost(arch): Ghost<Arch>) -> (r:
    Option<usize>)
    requires
        old(l).wf(),
        is_elf(old(l)@.obj, arch),
    ensures
        final(l).wf(),
        is_elf(final(l)@.obj, arch),
        final(l)@ == with_dwarf_section(old(l)@, name@, slice_view(data)),
        match r {
            Some(s) => data is Some && s == old(l)@.obj.sections.len(),
            None => data is None,
        },
        final(l)@.obj.sections.len() == old(l)@.obj.sections.len() + (if data is Some {
            1int
        } else {
            0
        }),
{
    match data {
        Some(d) => {
            let s = l.obj.add_section("", name, SectionKind::Debug);
            l.obj.append_data(s, d, 1);
            Some(s)
        },
        None => None,
    }
}

/// The relocation type for DWARF information.
pub open spec fn dwarf_type(wide: bool) -> u32 {
    if wide {
        R_AARCH64_ABS64
    } else {
        R_AARCH64_ABS32
    }
}

/// With the relocations of DWARF information from `i` on.
pub open spec fn with_dwarf_relocs(
    l: LinkageModel,
    section: usize,
    relocs: Seq<DwarfRelocView>,
    i: int,
) -> LinkageModel
    decreases relocs.len() - i,
{
    if i < 0 || i >= relocs.len() {
        l
    } else {
        let r = relocs[i];
        let m = l.with_reference(r.symbol, r.symbol, SymbolKind::Text);
        with_dwarf_relocs(
            m.over(
                m.obj.with_relocation(
                    section as nat,
                    r.offset,
                    l.number(r.symbol) as nat,
                    RelocationType::Elf(dwarf_type(r.wide)),
                    r.addend as int,
                ),
            ),
            section,
            relocs,
            i + 1,
        )
    }
}

/// Adds the relocations of a section of DWARF information.
pub fn attach_dwarf_relocs(l: &mut Linkage, section: usize, relocs: &Vec<DwarfReloc>)
    requires
        old(l).wf(),
        is_elf(old(l)@.obj, Arch::Aarch64),
        section < old(l)@.obj.sections.len(),
    ensures
        final(l).wf(),
        is_elf(final(l)@.obj, Arch::Aarch64),
        final(l)@.obj.sections.len() == old(l)@.obj.sections.len(),
        final(l)@ == with_dwarf_relocs(old(l)@, section, dwarf_views(relocs@), 0),
{
    let ghost views = dwarf_views(relocs@);
    let mut i: usize = 0;
    while i < relocs.len()
        invariant
            l.wf(),
            is_elf(l@.obj, Arch::Aarch64),
            section < l@.obj.sections.len(),
            l@.obj.sections.len() == old(l)@.obj.sections.len(),
            views == dwarf_views(relocs@),
            i <= relocs@.len(),
            with_dwarf_relocs(old(l)@, section, views, 0) == with_dwarf_relocs(
                l@,
                section,
                views,
                i as int,
            ),
        decreases relocs@.len() - i,
    {
        let r = &relocs[i];
        assert(views[i as int] == r@);
        let sym = l.reference(r.symbol.as_str(), r.symbol.as_str(), SymbolKind::Text);
        let kind: u32 = if r.wide {
            R_AARCH64_ABS64
        } else {
            R_AARCH64_ABS32
        };
        l.obj.add_relocation(section, r.offset, sym, r.addend, RelocationType::Elf(kind));
        i = i + 1;
    }
}

/// With the DWARF information of a unit. On AArch64 it is relocated by `info` and
/// `line`; elsewhere it is taken along as it is.
pub open spec fn with_unit_dwarf(
    l: LinkageModel,
    binary: Binary,
    cu: CompilationUnit,
    info: Seq<DwarfRelocView>,
    line: Seq<DwarfRelocView>,
) -> LinkageModel {
    let info_data = dwarf_slice(binary, ".debug_info"@, cu.debug_info_range);
    let abbrev_data = dwarf_slice(binary, ".debug_abbrev"@, cu.debug_abbrev_range);
    let line_data = match cu.debug_line_range {
        Some(r) => dwarf_slice(binary, ".debug_line"@, r),
        None => None,
    };
    let a = with_dwarf_section(l, ".debug_info"@, info_data);
    let b = with_dwarf_section(a, ".debug_abbrev"@, abbrev_data);
    let c = with_dwarf_section(b, ".debug_line"@, line_data);
    if binary.arch != Arch::Aarch64 {
        c
    } else {
        let d = if info_data is Some && abbrev_data is Some {
            with_dwarf_relocs(c, l.obj.sections.len() as usize, info, 0)
        } else {
            c
        };
        if line_data is Some {
            with_dwarf_relocs(d, b.obj.sections.len() as usize, line, 0)
        } else {
            d
        }
    }
}

fn emit_cu_dwarf(
    l: &mut Linkage,
    binary: &Binary,
    cu: &CompilationUnit,
    info: &Vec<DwarfReloc>,
    line: &Vec<DwarfReloc>,
)
    requires
        old(l).wf(),
        is_elf(old(l)@.obj, binary.arch),
    ensures
        final(l).wf(),
        final(l)@ == with_unit_dwarf(
            old(l)@,
            *binary,
            *cu,
            dwarf_views(info@),
            dwarf_views(line@),
        ),
{
    let info_data = dwarf_section_slice(binary, ".debug_info", &cu.debug_info_range);
    let abbrev_data = dwarf_section_slice(binary, ".debug_abbrev", &cu.debug_abbrev_range);
    let line_data = match &cu.debug_line_range {
        Some(r) => dwarf_section_slice(binary, ".debug_line", r),
        None => None,
    };
    let info_section = add_dwarf_section(l, ".debug_info", info_data, Ghost(binary.arch));
    let abbrev_section = add_dwarf_section(l, ".debug_abbrev", abbrev_data, Ghost(binary.arch));
    let line_section = add_dwarf_section(l, ".debug_line", line_data, Ghost(binary.arch));
    if binary.arch != Arch::Aarch64 {
        return ;
    }
    if let Some(s) = info_section {
        if abbrev_section.is_some() {
            attach_dwarf_relocs(l, s, info);
        }
    }
    if let Some(s) = line_section {
        attach_dwarf_relocs(l, s, line);
    }
}

/// Length of a range; none where it ends before it starts.
pub open spec fn range_len(r: Range<usize>) -> usize {
    if r.start <= r.end {
        (r.end - r.start) as usize
    } else {
        0
    }
}

/// Bytes of DWARF information for a unit.
pub open spec fn dwarf_size(cu: CompilationUnit) -> u64 {
    range_len(cu.debug_info_range).wrapping_add(range_len(cu.debug_abbrev_range)).wrapping_add(
        match cu.debug_line_range {
            Some(r) => range_len(r),
            None => 0,
        },
    ) as u64
}

fn length(r: &Range<usize>) -> (n: usize)
    ensures
        n == range_len(*r),
{
    if r.start <= r.end {
        r.end - r.start
    } else {
        0
    }
}

/// The object of a unit and what went into it, or why there is none.
pub open spec fn unit_object(
    binary: Binary,
    opts: EmitOptions<'_>,
    disassembles: bool,
    recs: Seq<Aarch64Recovery>,
    info: Seq<DwarfRelocView>,
    line: Seq<DwarfRelocView>,
) -> Result<(ObjectModel, EmitStats), EmitError> {
    match spec_live_functions(binary, *opts.cu) {
        Err(e) => Err(e),
        Ok(live) => match with_functions(
            opened_unit(binary.arch, opts.per_function_sections),
            binary,
            opts,
            disassembles,
            recs,
            live,
            0,
        ) {
            Err(e) => Err(e),
            Ok(u) => {
                let attached = with_slots(u.l, u.slots, 0);
                let l = if opts.dwarf {
                    with_unit_dwarf(attached, binary, *opts.cu, info, line)
                } else {
                    attached
                };
                Ok(
                    (
                        l.obj,
                        EmitStats {
                            local_symbols: l.local.len() as usize,
                            undef_symbols: l.undef.len() as usize,
                            relocations: reloc_count(u.slots, u.slots.len() as int),
                            ranges_coalesced: if opts.cu.ranges@.len() > 1 {
                                opts.cu.ranges@.len() as usize
                            } else {
                                1
                            },
                            dwarf_bytes: dwarf_size(*opts.cu),
                            ..u.stats
                        },
                    ),
                )
            },
        },
    }
}

/// What holds of the object of a unit before its function `i` is added.
spec fn takes_function(u: UnitModel, opts: EmitOptions<'_>, i: int) -> bool {
    let sections = u.l.obj.sections;
    &&& u.l.obj.format == ObjectFormat::Elf
    &&& if opts.per_function_sections {
        sections.len() == i
    } else {
        sections.len() == 1 && sections[0].size == sections[0].data.len()
    }
    &&& forall|k: int| 0 <= k < u.slots.len() ==> (#[trigger] u.slots[k]).section < sections.len()
}

proof fn lemma_with_function(
    u: UnitModel,
    opts: EmitOptions<'_>,
    f: FunctionView,
    code: CodeModel,
    i: int,
)
    requires
        takes_function(u, opts, i),
        0 <= i < usize::MAX,
    ensures
        takes_function(with_function(u, opts, f, code), opts, i + 1),
        grows(u.l.obj, with_function(u, opts, f, code).l.obj),
        addressable(with_function(u, opts, f, code).l.obj) ==> holds_function(
            with_function(u, opts, f, code).l.obj,
            function_name(*opts.symbols, f),
            f.size,
            code.bytes,
        ),
{
    let name = function_name(*opts.symbols, f);
    let v = with_function(u, opts, f, code);
    let section = if opts.per_function_sections {
        u.l.obj.sections.len()
    } else {
        0
    };
    let opened = if opts.per_function_sections {
        lemma_grows_by_section(u.l.obj, ""@, ".text."@ + section_suffix(name), SectionKind::Text);
        u.l.obj.with_section(""@, ".text."@ + section_suffix(name), SectionKind::Text)
    } else {
        u.l.obj
    };
    let placed = opened.with_data(section, code.bytes, 4);
    lemma_grows_by_data(opened, section, code.bytes, 4);
    lemma_grows_on(u.l.obj, opened, placed);
    assert(grows(placed, v.l.obj));
    lemma_grows_on(u.l.obj, placed, v.l.obj);
    let s = u.l.obj.symbols.len() as int;
    let x = v.l.obj.symbols[s];
    let data = v.l.obj.sections[section as int].data;
    if addressable(v.l.obj) {
        assert(v.l.obj.sections[section as int].data.len() <= u64::MAX);
        assert(x.value + code.bytes.len() == data.len());
        assert(data.subrange(x.value as int, x.value + code.bytes.len()) =~= code.bytes);
        assert(is_code_symbol(v.l.obj, x, name, f.size, code.bytes.len()));
    }
}

/// The code of the live function `i`.
pub open spec fn live_code(
    binary: Binary,
    opts: EmitOptions<'_>,
    disassembles: bool,
    recs: Seq<Aarch64Recovery>,
    live: Seq<(u64, usize)>,
    i: int,
) -> Result<CodeModel, EmitError> {
    let f = opts.cu.functions@[live[i].1 as int];
    let text = binary.sections@[elf_section(binary.sections@, ".text"@)->0];
    let cx = Context {
        symbols: *opts.symbols,
        base: text.addr,
        bytes: text.data->0@,
        fn_addr: f.addr,
        fn_size: f.size,
    };
    prepared(binary.arch, cx, disassembles, recovery_at(recs, i))
}

/// True when the object holds the live function `i`.
pub open spec fn holds_live(
    m: ObjectModel,
    binary: Binary,
    opts: EmitOptions<'_>,
    disassembles: bool,
    recs: Seq<Aarch64Recovery>,
    live: Seq<(u64, usize)>,
    i: int,
) -> bool {
    let f = opts.cu.functions@[live[i].1 as int];
    match live_code(binary, opts, disassembles, recs, live, i) {
        Ok(code) => holds_function(m, function_name(*opts.symbols, f@), f.size, code.bytes),
        Err(_) => false,
    }
}

proof fn lemma_with_functions(
    u: UnitModel,
    binary: Binary,
    opts: EmitOptions<'_>,
    disassembles: bool,
    recs: Seq<Aarch64Recovery>,
    live: Seq<(u64, usize)>,
    i: int,
)
    requires
        takes_function(u, opts, i),
        0 <= i <= live.len() < usize::MAX,
        with_functions(u, binary, opts, disassembles, recs, live, i) is Ok,
    ensures
        ({
            let v = with_functions(u, binary, opts, disassembles, recs, live, i)->Ok_0;
            &&& takes_function(v, opts, live.len() as int)
            &&& grows(u.l.obj, v.l.obj)
            &&& addressable(v.l.obj) ==> forall|k: int|
                i <= k < live.len() ==> #[trigger] holds_live(
                    v.l.obj,
                    binary,
                    opts,
                    disassembles,
                    recs,
                    live,
                    k,
                )
        }),
    decreases live.len() - i,
{
    if i < live.len() {
        let f = opts.cu.functions@[live[i].1 as int];
        let code = live_code(binary, opts, disassembles, recs, live, i)->Ok_0;
        let next = with_function(u, opts, f@, code);
        lemma_with_function(u, opts, f@, code, i);
        lemma_with_functions(next, binary, opts, disassembles, recs, live, i + 1);
        let v = with_functions(u, binary, opts, disassembles, recs, live, i)->Ok_0;
        lemma_grows_on(u.l.obj, next.l.obj, v.l.obj);
        if addressable(v.l.obj) {
            lemma_addressable(next.l.obj, v.l.obj);
            lemma_function_stays(
                next.l.obj,
                v.l.obj,
                function_name(*opts.symbols, f@),
                f.size,
                code.bytes,
            );
            assert(holds_live(v.l.obj, binary, opts, disassembles, recs, live, i));
        }
    }
}

proof fn lemma_with_slot(l: LinkageModel, slot: SlotModel, i: int)
    requires
        0 <= i,
        l.obj.format == ObjectFormat::Elf,
        slot.section < l.obj.sections.len(),
    ensures
        grows(l.obj, with_slot(l, slot, i).obj),
        with_slot(l, slot, i).obj.sections.len() == l.obj.sections.len(),
    decreases slot.relocs.len() - i,
{
    if i < slot.relocs.len() {
        let r = slot.relocs[i];
        let m = l.with_reference(r.target, r.target, SymbolKind::Text);
        lemma_grows_by_reference(l, r.target, r.target, SymbolKind::Text);
        let at = slot.offset.wrapping_add(r.offset);
        let n = l.number(r.target) as nat;
        let kind = RelocationType::Elf(r.r_type);
        let added = m.obj.with_relocation(slot.section as nat, at, n, kind, r.addend as int);
        lemma_grows_by_relocation(m.obj, slot.section as nat, at, n, kind, r.addend as int);
        lemma_grows_on(l.obj, m.obj, added);
        lemma_with_slot(m.over(added), slot, i + 1);
        lemma_grows_on(l.obj, added, with_slot(l, slot, i).obj);
    }
}

proof fn lemma_with_slots(l: LinkageModel, slots: Seq<SlotModel>, i: int)
    requires
        0 <= i,
        l.obj.format == ObjectFormat::Elf,
        forall|k: int| 0 <= k < slots.len() ==> (#[trigger] slots[k]).section
            < l.obj.sections.len(),
    ensures
        grows(l.obj, with_slots(l, slots, i).obj),
        with_slots(l, slots, i).obj.sections.len() == l.obj.sections.len(),
    decreases slots.len() - i,
{
    if i < slots.len() {
        let next = with_slot(l, slots[i], 0);
        lemma_with_slot(l, slots[i], 0);
        lemma_with_slots(next, slots, i + 1);
        lemma_grows_on(l.obj, next.obj, with_slots(l, slots, i).obj);
    }
}

proof fn lemma_with_dwarf_relocs(
    l: LinkageModel,
    section: usize,
    relocs: Seq<DwarfRelocView>,
    i: int,
)
    requires
        0 <= i,
        l.obj.format == ObjectFormat::Elf,
        section < l.obj.sections.len(),
    ensures
        grows(l.obj, with_dwarf_relocs(l, section, relocs, i).obj),
        with_dwarf_relocs(l, section, relocs, i).obj.sections.len() == l.obj.sections.len(),
    decreases relocs.len() - i,
{
    if i < relocs.len() {
        let r = relocs[i];
        let m = l.with_reference(r.symbol, r.symbol, SymbolKind::Text);
        lemma_grows_by_reference(l, r.symbol, r.symbol, SymbolKind::Text);
        let n = l.number(r.symbol) as nat;
        let kind = RelocationType::Elf(dwarf_type(r.wide));
        let added = m.obj.with_relocation(section as nat, r.offset, n, kind, r.addend as int);
        lemma_grows_by_relocation(m.obj, section as nat, r.offset, n, kind, r.addend as int);
        lemma_grows_on(l.obj, m.obj, added);
        lemma_with_dwarf_relocs(m.over(added), section, relocs, i + 1);
        lemma_grows_on(l.obj, added, with_dwarf_relocs(l, section, relocs, i).obj);
    }
}

proof fn lemma_with_dwarf_section(l: LinkageModel, name: Seq<char>, data: Option<Seq<u8>>)
    ensures
        grows(l.obj, with_dwarf_section(l, name, data).obj),
        with_dwarf_section(l, name, data).obj.sections.len() == l.obj.sections.len() + (
        if data is Some {
            1int
        } else {
            0
        }),
{
    if let Some(bytes) = data {
        let opened = l.obj.with_section(""@, name, SectionKind::Debug);
        lemma_grows_by_section(l.obj, ""@, name, SectionKind::Debug);
        lemma_grows_by_data(opened, l.obj.sections.len(), bytes, 1);
        lemma_grows_on(l.obj, opened, opened.with_data(l.obj.sections.len(), bytes, 1));
    }
}

proof fn lemma_with_unit_dwarf(
    l: LinkageModel,
    binary: Binary,
    cu: CompilationUnit,
    info: Seq<DwarfRelocView>,
    line: Seq<DwarfRelocView>,
)
    requires
        l.obj.format == ObjectFormat::Elf,
        l.obj.sections.len() + 3 <= usize::MAX,
    ensures
        grows(l.obj, with_unit_dwarf(l, binary, cu, info, line).obj),
{
    let info_data = dwarf_slice(binary, ".debug_info"@, cu.debug_info_range);
    let abbrev_data = dwarf_slice(binary, ".debug_abbrev"@, cu.debug_abbrev_range);
    let line_data = match cu.debug_line_range {
        Some(r) => dwarf_slice(binary, ".debug_line"@, r),
        None => None,
    };
    let a = with_dwarf_section(l, ".debug_info"@, info_data);
    let b = with_dwarf_section(a, ".debug_abbrev"@, abbrev_data);
    let c = with_dwarf_section(b, ".debug_line"@, line_data);
    lemma_with_dwarf_section(l, ".debug_info"@, info_data);
    lemma_with_dwarf_section(a, ".debug_abbrev"@, abbrev_data);
    lemma_with_dwarf_section(b, ".debug_line"@, line_data);
    lemma_grows_on(l.obj, a.obj, b.obj);
    lemma_grows_on(l.obj, b.obj, c.obj);
    if binary.arch == Arch::Aarch64 {
        let d = if info_data is Some && abbrev_data is Some {
            lemma_with_dwarf_relocs(c, l.obj.sections.len() as usize, info, 0);
            with_dwarf_relocs(c, l.obj.sections.len() as usize, info, 0)
        } else {
            c
        };
        lemma_grows_on(l.obj, c.obj, d.obj);
        if line_data is Some {
            let e = with_dwarf_relocs(d, b.obj.sections.len() as usize, line, 0);
            lemma_with_dwarf_relocs(d, b.obj.sections.len() as usize, line, 0);
            lemma_grows_on(l.obj, d.obj, e.obj);
        }
    }
}

proof fn lemma_live_count(functions: Seq<Function>, base: u64, size: u64, n: int)
    requires
        0 <= n,
    ensures
        live_among(functions, base, size, n).len() <= n,
    decreases n,
{
    if n > 0 {
        lemma_live_count(functions, base, size, n - 1);
    }
}

/// The object of a unit holds the code of each live function, relocated as it was
/// prepared, under a symbol with the function's name and size.
pub proof fn law_functions_are_defined(
    binary: Binary,
    opts: EmitOptions<'_>,
    disassembles: bool,
    recs: Seq<Aarch64Recovery>,
    info: Seq<DwarfRelocView>,
    line: Seq<DwarfRelocView>,
)
    requires
        opts.cu.functions@.len() + 4 <= usize::MAX,
        unit_object(binary, opts, disassembles, recs, info, line) is Ok,
        addressable(unit_object(binary, opts, disassembles, recs, info, line)->Ok_0.0),
    ensures
        ({
            let m = unit_object(binary, opts, disassembles, recs, info, line)->Ok_0.0;
            let live = spec_live_functions(binary, *opts.cu)->Ok_0;
            forall|i: int|
                0 <= i < live.len() ==> #[trigger] holds_live(
                    m,
                    binary,
                    opts,
                    disassembles,
                    recs,
                    live,
                    i,
                )
        }),
{
    let m = unit_object(binary, opts, disassembles, recs, info, line)->Ok_0.0;
    let live = spec_live_functions(binary, *opts.cu)->Ok_0;
    let text = binary.sections@[elf_section(binary.sections@, ".text"@)->0];
    let n = opts.cu.functions@.len() as int;
    lemma_live_count(opts.cu.functions@, text.addr, text.size, n);
    lemma_stable_sorted(
        live_among(opts.cu.functions@, text.addr, text.size, n),
        by_address(),
    );
    let start = opened_unit(binary.arch, opts.per_function_sections);
    lemma_with_functions(start, binary, opts, disassembles, recs, live, 0);
    let u = with_functions(start, binary, opts, disassembles, recs, live, 0)->Ok_0;
    let attached = with_slots(u.l, u.slots, 0);
    lemma_with_slots(u.l, u.slots, 0);
    if opts.dwarf {
        lemma_with_unit_dwarf(attached, binary, *opts.cu, info, line);
        lemma_grows_on(u.l.obj, attached.obj, m);
    }
    lemma_addressable(u.l.obj, m);
    assert forall|i: int| 0 <= i < live.len() implies #[trigger] holds_live(
        m,
        binary,
        opts,
        disassembles,
        recs,
        live,
        i,
    ) by {
        assert(holds_live(u.l.obj, binary, opts, disassembles, recs, live, i));
        let f = opts.cu.functions@[live[i].1 as int];
        lemma_function_stays(
            u.l.obj,
            m,
            function_name(*opts.symbols, f@),
            f.size,
            live_code(binary, opts, disassembles, recs, live, i)->Ok_0.bytes,
        );
    }
}

/// The file that a built object becomes, or why there is none.
pub open spec fn unit_file<S>(built: Result<(ObjectModel, S), EmitError>) -> Result<
    (Seq<u8>, S),
    EmitError,
> {
    match built {
        Err(e) => Err(e),
        Ok((m, stats)) => match written(m) {
            Ok(file) => Ok((file, stats)),
            Err(e) => Err(EmitError::Write(e)),
        },
    }
}

/// A file and what went into it, with the file as bytes.
pub open spec fn emitted<S>(r: Result<(Vec<u8>, S), EmitError>) -> Result<
    (Seq<u8>, S),
    EmitError,
> {
    match r {
        Ok((file, stats)) => Ok((file@, stats)),
        Err(e) => Err(e),
    }
}

/// Builds one relocatable object for a compilation unit, with `d` to disassemble
/// ARM code.
///
/// On AArch64, `recs` holds what recovery found in each of the
/// [`live_functions`], and `info` and `line` the relocations of the unit's DWARF
/// information.
pub fn emit_cu_with(
    binary: &Binary,
    opts: &EmitOptions<'_>,
    d: Option<&Disassembler>,
    recs: &Vec<Aarch64Recovery>,
    info: &Vec<DwarfReloc>,
    line: &Vec<DwarfReloc>,
) -> (r: Result<(Vec<u8>, EmitStats), EmitError>)
    ensures
        emitted(r) == unit_file(
            unit_object(*binary, *opts, d is Some, recs@, dwarf_views(info@), dwarf_views(line@)),
        ),
{
    let live = match live_functions(binary, opts.cu) {
        Ok(v) => v,
        Err(e) => return Err(e),
    };
    let text = match binary.section(".text") {
        Some(s) => s,
        None => return Err(EmitError::NoText),
    };
    let text_data: &[u8] = match &text.data {
        Some(d) => d.as_slice(),
        None => return Err(EmitError::UnreadableSection),
    };
    let mut u = Unit {
        l: Linkage::new(ObjectFormat::Elf, object_machine(binary.arch)),
        slots: Vec::new(),
        stats: EmitStats::default(),
    };
    if !opts.per_function_sections {
        u.l.obj.add_text_section();
    }
    assert(u@ =~= opened_unit(binary.arch, opts.per_function_sections));
    let ghost start = u@;
    let mut i: usize = 0;
    while i < live.len()
        invariant
            unit_wf(u, binary.arch, opts.per_function_sections),
            start == opened_unit(binary.arch, opts.per_function_sections),
            spec_live_functions(*binary, *opts.cu) == Ok::<Seq<(u64, usize)>, EmitError>(live@),
            forall|k: int| 0 <= k < live@.len() ==> (#[trigger] live@[k]).1
                < opts.cu.functions@.len(),
            elf_section(binary.sections@, ".text"@) is Some,
            *text == binary.sections@[elf_section(binary.sections@, ".text"@)->0],
            text.data is Some && text_data@ == text.data->0@,
            i <= live@.len(),
            with_functions(start, *binary, *opts, d is Some, recs@, live@, 0) == with_functions(
                u@,
                *binary,
                *opts,
                d is Some,
                recs@,
                live@,
                i as int,
            ),
        decreases live@.len() - i,
    {
        let f = &opts.cu.functions[live[i].1];
        let rec: Option<&Aarch64Recovery> = if i < recs.len() {
            Some(&recs[i])
        } else {
            None
        };
        let ghost cx = Context {
            symbols: *opts.symbols,
            base: text.addr,
            bytes: text_data@,
            fn_addr: f.addr,
            fn_size: f.size,
        };
        match prepare_function(
            binary.arch,
            f.addr,
            f.size,
            text.addr,
            text_data,
            opts.symbols,
            d,
            rec,
        ) {
            Ok(code) => {
                proof {
                    if binary.arch == Arch::Arm {
                        lemma_arm_addends(cx, d is Some, recovery_at(recs@, i as int), code@);
                    }
                }
                add_function(&mut u, opts, f, code, Ghost(binary.arch));
            },
            Err(e) => return Err(e),
        }
        i = i + 1;
    }
    let ghost placed = u@;
    let relocations = attach_slots(&mut u.l, &u.slots, Ghost(binary.arch));
    if opts.dwarf {
        emit_cu_dwarf(&mut u.l, binary, opts.cu, info, line);
    }
    let mut stats = u.stats;
    stats.local_symbols = u.l.local.len();
    stats.undef_symbols = u.l.undef.len();
    stats.relocations = relocations;
    stats.ranges_coalesced = if opts.cu.ranges.len() > 1 {
        opts.cu.ranges.len()
    } else {
        1
    };
    let line_len: usize = match &opts.cu.debug_line_range {
        Some(r) => length(r),
        None => 0,
    };
    stats.dwarf_bytes = length(&opts.cu.debug_info_range).wrapping_add(
        length(&opts.cu.debug_abbrev_range),
    ).wrapping_add(line_len) as u64;
    match u.l.obj.write() {
        Ok(file) => Ok((file, stats)),
        Err(e) => Err(EmitError::Write(e)),
    }
}

/// Sets up a disassembler where the image is for ARM, and does what
/// [`emit_cu_with`] does.
pub fn emit_cu(
    binary: &Binary,
    opts: &EmitOptions<'_>,
    recs: &Vec<Aarch64Recovery>,
    info: &Vec<DwarfReloc>,
    line: &Vec<DwarfReloc>,
) -> (r: Result<(Vec<u8>, EmitStats), EmitError>)
    ensures
        emitted(r) == unit_file(
            unit_object(*binary, *opts, true, recs@, dwarf_views(info@), dwarf_views(line@)),
        ) || binary.arch == Arch::Arm && emitted(r) == unit_file(
            unit_object(*binary, *opts, false, recs@, dwarf_views(info@), dwarf_views(line@)),
        ),
{
    match binary.arch {
        Arch::Aarch64 => {
            let r = emit_cu_with(binary, opts, None, recs, info, line);
            proof {
                if let Ok(live) = spec_live_functions(*binary, *opts.cu) {
                    lemma_no_disassembler(
                        opened_unit(binary.arch, opts.per_function_sections),
                        *binary,
                        *opts,
                        recs@,
                        live,
                        0,
                    );
                }
            }
            r
        },
        Arch::Arm => match Disassembler::new() {
            Ok(d) => emit_cu_with(binary, opts, Some(&d), recs, info, line),
            Err(_) => emit_cu_with(binary, opts, None, recs, info, line),
        },
    }
}

/// Index, from `i` on, of the first unit whose name ends in `needle`.
pub open spec fn unit_ending(units: Seq<CompilationUnit>, needle: Seq<char>, i: int) -> Option<int>
    decreases units.len() - i,
{
    if i < 0 || i >= units.len() {
        None
    } else if has_suffix(units[i].name@, needle) {
        Some(i)
    } else {
        unit_ending(units, needle, i + 1)
    }
}

/// Finds the first unit whose name ends in `needle`.
pub fn find_cu<'a>(units: &'a [CompilationUnit], needle: &str) -> (r: Option<&'a CompilationUnit>)
    ensures
        match unit_ending(units@, needle@, 0) {
            Some(i) => 0 <= i < units@.len() && r == Some(&units@[i]),
            None => r is None,
        },
{
    let n: usize = units.len();
    let mut i: usize = 0;
    while i < n
        invariant
            i <= n,
            n == units@.len(),
            unit_ending(units@, needle@, 0) == unit_ending(units@, needle@, i as int),
        decreases n - i,
    {
        if ends_with(units[i].name.as_str(), needle) {
            return Some(&units[i]);
        }
        i = i + 1;
    }
    None
}

} // verus!
