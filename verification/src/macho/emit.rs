//! Mach-O objects for the compilation units of a Mach-O image, and one more for
//! the data they share.
use std::collections::BTreeMap;
use vstd::prelude::*;

use super::cu::{MachoCompilationUnit, MachoFunction, MachoVariable};
use super::image::{find_section, section_index, MachoArch, MachoContext, MachoSection};
use super::symbols::{SYM_BSS_START, SYM_CONST_START, SYM_DATA_START};
use crate::bytes::{copy_range, patched, zero_fill, zeros};
use crate::growth::{
    addressable, defines_datum, defines_function, grows, is_code_symbol, is_data_symbol,
    keeps_sizes, lemma_addressable, lemma_datum_stays, lemma_function_stays, lemma_grows_by_data,
    lemma_grows_by_reference, lemma_grows_by_relocation, lemma_grows_by_symbol, lemma_grows_on,
    lemma_keeps_sizes_on,
};
use crate::linkage::{Linkage, LinkageModel};
use crate::objfile::{
    symbol, written, Machine, ObjectFormat, ObjectModel, RelocationType, SectionKind, SymbolKind,
    WriteError,
};
use crate::ordered::{
    by_address, keys_between, keys_in_range, lemma_keys_between, sort_by_address, stable_sorted,
};
use crate::text::{
    decimal4, digits, file_stem, joined, owned, safe_file_name, spec_file_stem, spec_safe_file_name,
    zero_padded,
};
use crate::x86::{
    fields_within, law_relocations_are_resolved, recover, recovered, resolved_by, RecoveredReloc,
    RecoveryOutput, RelocView, SymbolResolver,
};

verus! {

broadcast use {
    vstd::std_specs::hash::group_hash_axioms,
    vstd::std_specs::btree::group_btree_axioms,
    vstd::hash_map::group_hash_map_axioms,
};

/// What went into an object.
#[derive(Debug, Clone, Copy, PartialEq, Eq, Structural)]
pub struct EmitStats {
    pub text_bytes: u64,
    pub local_symbols: usize,
    pub undef_symbols: usize,
    pub relocations: usize,
    pub unresolved_calls: usize,
    pub instructions: usize,
}

/// Nothing emitted yet.
pub open spec fn no_stats() -> EmitStats {
    EmitStats {
        text_bytes: 0,
        local_symbols: 0,
        undef_symbols: 0,
        relocations: 0,
        unresolved_calls: 0,
        instructions: 0,
    }
}

impl Default for EmitStats {
    fn default() -> (s: Self)
        ensures
            s == no_stats(),
    {
        EmitStats {
            text_bytes: 0,
            local_symbols: 0,
            undef_symbols: 0,
            relocations: 0,
            unresolved_calls: 0,
            instructions: 0,
        }
    }
}

/// What went into the object for shared data.
#[derive(Debug, Clone, Copy, PartialEq, Eq, Structural)]
pub struct SharedDataStats {
    pub data_bytes: u64,
    pub const_bytes: u64,
    pub bss_bytes: u64,
}

impl Default for SharedDataStats {
    fn default() -> (s: Self)
        ensures
            s == (SharedDataStats { data_bytes: 0, const_bytes: 0, bss_bytes: 0 }),
    {
        SharedDataStats { data_bytes: 0, const_bytes: 0, bss_bytes: 0 }
    }
}

/// Why a compilation unit did not become an object.
#[derive(Debug, Clone, Copy, PartialEq, Eq, Structural)]
pub enum EmitError {
    /// The image has no `__TEXT,__text` section.
    NoText,
    /// The unit has no function in `__text`.
    NoFunctions,
    /// Objects for this architecture cannot be built.
    Arch(MachoArch),
    /// A relocation does not fit the section it patches.
    Relocation,
    /// The object cannot be laid out as a file.
    Write(WriteError),
}

/// What one compilation unit came to.
#[derive(Debug)]
pub struct CuOutcome {
    pub cu_name: String,
    pub file: String,
    /// What went into the object, or why there is none.
    pub result: Result<EmitStats, String>,
}

/// The machine that objects of an image are for.
pub open spec fn machine_of(arch: MachoArch) -> Option<Machine> {
    match arch {
        MachoArch::X86 => Some(Machine::I386),
        MachoArch::X86_64 => Some(Machine::X86_64),
        MachoArch::PPC | MachoArch::PPC64 => None,
    }
}

fn arch_machine(arch: MachoArch) -> (m: Option<Machine>)
    ensures
        m == machine_of(arch),
{
    match arch {
        MachoArch::X86 => Some(Machine::I386),
        MachoArch::X86_64 => Some(Machine::X86_64),
        MachoArch::PPC | MachoArch::PPC64 => None,
    }
}

/// The name that a symbol is written under: an empty one is replaced.
pub open spec fn written_name(name: Seq<char>) -> Seq<char> {
    if name.len() == 0 {
        "<invalid>"@
    } else {
        name
    }
}

/// The name that a symbol is written under.
pub fn sanitize_symbol_name(name: &str) -> (r: String)
    ensures
        r@ == written_name(name@),
{
    if name.is_empty() {
        owned("<invalid>")
    } else {
        owned(name)
    }
}

/// The code with the fields of the relocations from `i` on set to zero.
pub open spec fn cleared_from(code: Seq<u8>, relocs: Seq<RelocView>, i: int) -> Seq<u8>
    decreases relocs.len() - i,
{
    if i < 0 || i >= relocs.len() {
        code
    } else {
        cleared_from(patched(code, relocs[i].offset as int, zeros(4)), relocs, i + 1)
    }
}

fn clear_fields(code: &mut Vec<u8>, out: &RecoveryOutput)
    requires
        fields_within(out.relocs@, old(code)@.len()),
    ensures
        final(code)@ == cleared_from(old(code)@, out@.relocs, 0),
        final(code)@.len() == old(code)@.len(),
{
    let mut i: usize = 0;
    while i < out.relocs.len()
        invariant
            i <= out.relocs@.len(),
            code@.len() == old(code)@.len(),
            fields_within(out.relocs@, code@.len()),
            cleared_from(old(code)@, out@.relocs, 0) == cleared_from(
                code@,
                out@.relocs,
                i as int,
            ),
        decreases out.relocs@.len() - i,
    {
        assert(out@.relocs[i as int] == out.relocs@[i as int]@);
        assert(code@.len() == code.len());
        zero_fill(code, out.relocs[i].offset as usize, 4);
        i = i + 1;
    }
}

/// An object for the image, with the section that is being filled.
pub open spec fn filling(m: ObjectModel, sid: usize) -> bool {
    &&& m.format == ObjectFormat::MachO
    &&& m.machine == Machine::I386 || m.machine == Machine::X86_64
    &&& sid < m.sections.len()
    &&& m.sections[sid as int].kind != SectionKind::UninitializedData
}

/// With the relocations from `i` on, or none where one does not fit its section.
pub open spec fn with_relocs(
    l: LinkageModel,
    relocs: Seq<RelocView>,
    base: u64,
    sid: usize,
    i: int,
) -> Option<LinkageModel>
    decreases relocs.len() - i,
{
    if i < 0 || i >= relocs.len() {
        Some(l)
    } else {
        let r = relocs[i];
        let m = l.with_reference(r.target, written_name(r.target), SymbolKind::Unknown);
        let at = (base + r.offset) as u64;
        if m.obj.takes_relocation(sid as nat, at, RelocationType::MachOBranch, r.addend as int) {
            with_relocs(
                m.over(
                    m.obj.with_relocation(
                        sid as nat,
                        at,
                        l.number(r.target) as nat,
                        RelocationType::MachOBranch,
                        r.addend as int,
                    ),
                ),
                relocs,
                base,
                sid,
                i + 1,
            )
        } else {
            None
        }
    }
}

/// Relocations with addends that fit 32 bits.
pub open spec fn small_addends(relocs: Seq<RecoveredReloc>) -> bool {
    forall|i: int| 0 <= i < relocs.len() ==> 0 <= (#[trigger] relocs[i]).addend <= u32::MAX
}

fn add_relocs(
    l: &mut Linkage,
    out: &RecoveryOutput,
    base: u64,
    sid: usize,
    n: usize,
) -> (added: bool)
    requires
        old(l).wf(),
        filling(old(l)@.obj, sid),
        fields_within(out.relocs@, n as nat),
        small_addends(out.relocs@),
        base + n <= usize::MAX,
    ensures
        final(l).wf(),
        added == (with_relocs(old(l)@, out@.relocs, base, sid, 0) is Some),
        added ==> with_relocs(old(l)@, out@.relocs, base, sid, 0) == Some(final(l)@),
        filling(final(l)@.obj, sid),
{
    let mut i: usize = 0;
    while i < out.relocs.len()
        invariant
            l.wf(),
            filling(l@.obj, sid),
            fields_within(out.relocs@, n as nat),
            small_addends(out.relocs@),
            base + n <= usize::MAX,
            i <= out.relocs@.len(),
            with_relocs(old(l)@, out@.relocs, base, sid, 0) == with_relocs(
                l@,
                out@.relocs,
                base,
                sid,
                i as int,
            ),
        decreases out.relocs@.len() - i,
    {
        let r = &out.relocs[i];
        assert(out@.relocs[i as int] == r@);
        let spelling = sanitize_symbol_name(r.target.as_str());
        let sym = l.reference(r.target.as_str(), spelling.as_str(), SymbolKind::Unknown);
        let added = l.obj.add_relocation(
            sid,
            base + r.offset,
            sym,
            r.addend,
            RelocationType::MachOBranch,
        );
        if !added {
            return false;
        }
        i = i + 1;
    }
    true
}

/// The keys of the `size` addresses from `addr` on, in ascending order.
pub open spec fn keys_in(keys: Set<u64>, addr: u64, size: u64) -> Seq<u64> {
    if size == 0 {
        Seq::empty()
    } else if addr + size - 1 > u64::MAX {
        keys_between(keys, addr, u64::MAX)
    } else {
        keys_between(keys, addr, (addr + size - 1) as u64)
    }
}

/// With a label for each datum, from `i` on, inside a function at `addr` whose
/// code begins at `base`.
pub open spec fn with_labels(
    l: LinkageModel,
    keys: Seq<u64>,
    variables: Map<u64, MachoVariable>,
    addr: u64,
    base: u64,
    sid: usize,
    i: int,
) -> LinkageModel
    decreases keys.len() - i,
{
    if i < 0 || i >= keys.len() {
        l
    } else {
        let k = keys[i];
        let v = variables[k];
        let name = v.spec_symbol_name();
        with_labels(
            if k == addr {
                l
            } else {
                l.with_definition(
                    name,
                    written_name(name),
                    (base + (k - addr)) as u64,
                    0,
                    SymbolKind::Label,
                    v.external,
                    false,
                    sid,
                )
            },
            keys,
            variables,
            addr,
            base,
            sid,
            i + 1,
        )
    }
}

fn add_labels(
    l: &mut Linkage,
    variables: &BTreeMap<u64, MachoVariable>,
    addr: u64,
    size: u64,
    base: u64,
    sid: usize,
)
    requires
        old(l).wf(),
        size > 0,
        filling(old(l)@.obj, sid),
        base + size <= usize::MAX,
    ensures
        final(l).wf(),
        final(l)@ == with_labels(
            old(l)@,
            keys_in(variables@.dom(), addr, size),
            variables@,
            addr,
            base,
            sid,
            0,
        ),
        filling(final(l)@.obj, sid),
{
    let hi: u64 = addr.saturating_add(size - 1);
    let keys = keys_in_range(variables, addr, hi);
    proof {
        lemma_keys_between(variables@.dom(), addr, hi);
        assert forall|j: int| 0 <= j < keys@.len() implies variables@.dom().contains(
            #[trigger] keys@[j],
        ) && addr <= keys@[j] < addr + size by {
            assert(keys_between(variables@.dom(), addr, hi).contains(keys@[j]));
        }
    }
    let mut i: usize = 0;
    while i < keys.len()
        invariant
            l.wf(),
            filling(l@.obj, sid),
            base + size <= usize::MAX,
            i <= keys@.len(),
            forall|j: int|
                0 <= j < keys@.len() ==> variables@.dom().contains(#[trigger] keys@[j]) && addr
                    <= keys@[j] < addr + size,
            with_labels(old(l)@, keys@, variables@, addr, base, sid, 0) == with_labels(
                l@,
                keys@,
                variables@,
                addr,
                base,
                sid,
                i as int,
            ),
        decreases keys@.len() - i,
    {
        let k = keys[i];
        if k != addr {
            if let Some(v) = variables.get(&k) {
                let spelling = sanitize_symbol_name(v.symbol_name());
                let value: u64 = base + (k - addr);
                l.define(
                    v.symbol_name(),
                    spelling.as_str(),
                    value,
                    0,
                    SymbolKind::Label,
                    v.external,
                    false,
                    sid,
                );
            }
        }
        i = i + 1;
    }
}

/// The object of a unit, as far as it is built.
pub ghost struct UnitModel {
    pub l: LinkageModel,
    pub stats: EmitStats,
}

/// The object once the code of a function and the symbols in it are added to
/// section `sid`.
pub open spec fn function_placed(
    l: LinkageModel,
    code: Seq<u8>,
    f: MachoFunction,
    variables: Map<u64, MachoVariable>,
    base: u64,
    sid: usize,
) -> LinkageModel {
    let placed = l.over(l.obj.with_data(sid as nat, code, 4));
    let name = f.spec_symbol_name();
    let named = placed.with_definition(
        name,
        written_name(name),
        base,
        f.size,
        SymbolKind::Text,
        f.external,
        false,
        sid,
    );
    with_labels(
        named,
        keys_in(variables.dom(), f.addr, f.size),
        variables,
        f.addr,
        base,
        sid,
        0,
    )
}

/// What a function adds to the object of its unit. One that ends beyond the
/// section's data is left out.
pub open spec fn with_function(
    u: UnitModel,
    ctx: &MachoContext,
    text: MachoSection,
    f: MachoFunction,
    sid: usize,
) -> Option<UnitModel> {
    let start = f.addr - text.addr;
    if start + f.size > text.data@.len() {
        Some(u)
    } else {
        let code = text.data@.subrange(start, start + f.size);
        let out = recovered(code, f.addr, f.size, &ctx.symbols);
        let cleared = cleared_from(code, out.relocs, 0);
        let base = u.l.obj.append_offset(sid as nat, 4) as u64;
        let placed = function_placed(u.l, cleared, f, ctx.symbols.variables@, base, sid);
        match with_relocs(placed, out.relocs, base, sid, 0) {
            None => None,
            Some(l) => Some(
                UnitModel {
                    l,
                    stats: EmitStats {
                        text_bytes: u.stats.text_bytes.wrapping_add(f.size),
                        relocations: u.stats.relocations.wrapping_add(out.relocs.len() as usize),
                        unresolved_calls: u.stats.unresolved_calls.wrapping_add(
                            out.diag.calls_unresolved,
                        ),
                        instructions: u.stats.instructions.wrapping_add(out.diag.instructions),
                        ..u.stats
                    },
                },
            ),
        }
    }
}

fn emit_function(
    l: &mut Linkage,
    stats: &mut EmitStats,
    ctx: &MachoContext,
    text: &MachoSection,
    f: &MachoFunction,
    sid: usize,
) -> (added: bool)
    requires
        old(l).wf(),
        filling(old(l)@.obj, sid),
        text.spec_contains_addr(f.addr),
        f.size > 0,
    ensures
        final(l).wf(),
        filling(final(l)@.obj, sid),
        ({
            let next = with_function(
                UnitModel { l: old(l)@, stats: *old(stats) },
                ctx,
                *text,
                *f,
                sid,
            );
            &&& added == (next is Some)
            &&& added ==> next == Some(UnitModel { l: final(l)@, stats: *final(stats) })
        }),
{
    let start: u64 = f.addr - text.addr;
    let n: usize = text.data.len();
    if start > n as u64 || f.size > n as u64 - start {
        return true;
    }
    let size: usize = f.size as usize;
    let mut code = copy_range(text.data.as_slice(), start as usize, start as usize + size);
    let ghost original = code@;
    let out = recover(code.as_slice(), f.addr, f.size, &ctx.symbols);
    proof {
        law_relocations_are_resolved(original, f.addr, f.size, &ctx.symbols);
        assert forall|i: int| 0 <= i < out.relocs@.len() implies 0 <= (
        #[trigger] out.relocs@[i]).addend <= u32::MAX by {
            let r = out@.relocs[i];
            assert(r == out.relocs@[i]@);
            assert(resolved_by(r, &ctx.symbols));
            let va = choose|va: u32| #[trigger]
                ctx.symbols.code_symbol(va as u64) == Some((r.target, r.addend));
            ctx.symbols.lemma_addends(va);
        }
    }
    clear_fields(&mut code, &out);
    let base = l.obj.append_data(sid, code.as_slice(), 4);
    let spelling = sanitize_symbol_name(f.symbol_name());
    l.define(
        f.symbol_name(),
        spelling.as_str(),
        base,
        f.size,
        SymbolKind::Text,
        f.external,
        false,
        sid,
    );
    add_labels(l, &ctx.symbols.variables, f.addr, f.size, base, sid);
    assert(l@ == function_placed(
        old(l)@,
        code@,
        *f,
        ctx.symbols.variables@,
        base,
        sid,
    ));
    if !add_relocs(l, &out, base, sid, size) {
        return false;
    }
    assert(out@.relocs.len() == out.relocs@.len());
    stats.text_bytes = stats.text_bytes.wrapping_add(f.size);
    stats.relocations = stats.relocations.wrapping_add(out.relocs.len());
    stats.unresolved_calls = stats.unresolved_calls.wrapping_add(out.diag.calls_unresolved);
    stats.instructions = stats.instructions.wrapping_add(out.diag.instructions);
    true
}

/// The functions among the first `n` that take up space in `text`, with their
/// addresses and positions.
pub open spec fn live_among(functions: Seq<MachoFunction>, text: MachoSection, n: int) -> Seq<
    (u64, usize),
>
    decreases n,
{
    if n <= 0 {
        Seq::empty()
    } else {
        let before = live_among(functions, text, n - 1);
        let f = functions[n - 1];
        if f.size > 0 && text.spec_contains_addr(f.addr) {
            before.push((f.addr, (n - 1) as usize))
        } else {
            before
        }
    }
}

/// The functions of a unit that take up space in `text`, by address.
pub open spec fn live_functions(cu: &MachoCompilationUnit, text: MachoSection) -> Seq<
    (u64, usize),
> {
    stable_sorted(
        live_among(cu.functions@, text, cu.functions@.len() as int),
        by_address(),
    )
}

/// The positions are those of functions in `text`.
pub open spec fn live_wf(
    live: Seq<(u64, usize)>,
    functions: Seq<MachoFunction>,
    text: MachoSection,
) -> bool {
    forall|i: int|
        0 <= i < live.len() ==> (#[trigger] live[i]).1 < functions.len()
            && text.spec_contains_addr(functions[live[i].1 as int].addr)
            && functions[live[i].1 as int].size > 0
}

fn find_live(cu: &MachoCompilationUnit, text: &MachoSection) -> (live: Vec<(u64, usize)>)
    ensures
        live@ == live_functions(cu, *text),
        live_wf(live@, cu.functions@, *text),
{
    let mut live: Vec<(u64, usize)> = Vec::new();
    let mut i: usize = 0;
    while i < cu.functions.len()
        invariant
            i <= cu.functions@.len(),
            live@ == live_among(cu.functions@, *text, i as int),
            live_wf(live@, cu.functions@, *text),
        decreases cu.functions@.len() - i,
    {
        let f = &cu.functions[i];
        if f.size > 0 && text.contains_addr(f.addr) {
            live.push((f.addr, i));
        }
        i = i + 1;
    }
    let ghost unsorted = live@;
    sort_by_address(&mut live);
    proof {
        assert forall|k: int| 0 <= k < live@.len() implies (#[trigger] live@[k]).1
            < cu.functions@.len() && text.spec_contains_addr(
            cu.functions@[live@[k].1 as int].addr,
        ) && cu.functions@[live@[k].1 as int].size > 0 by {
            crate::ordered::lemma_stable_sorted_contains(unsorted, by_address(), live@[k]);
            assert(live@.contains(live@[k]));
            let j = choose|j: int| 0 <= j < unsorted.len() && unsorted[j] == live@[k];
            assert(unsorted[j].1 < cu.functions@.len());
        }
    }
    live
}

/// What the functions from `i` on add to the object of their unit.
pub open spec fn with_functions(
    u: UnitModel,
    ctx: &MachoContext,
    cu: &MachoCompilationUnit,
    text: MachoSection,
    live: Seq<(u64, usize)>,
    sid: usize,
    i: int,
) -> Option<UnitModel>
    decreases live.len() - i,
{
    if i < 0 || i >= live.len() {
        Some(u)
    } else {
        match with_function(u, ctx, text, cu.functions@[live[i].1 as int], sid) {
            None => None,
            Some(v) => with_functions(v, ctx, cu, text, live, sid, i + 1),
        }
    }
}

/// The object of a compilation unit and what went into it: the code of its
/// functions in one `__TEXT,__text` section.
pub open spec fn unit_object(ctx: &MachoContext, cu: &MachoCompilationUnit) -> Result<
    (ObjectModel, EmitStats),
    EmitError,
> {
    match section_index(ctx.sections@, "__TEXT"@, "__text"@) {
        None => Err(EmitError::NoText),
        Some(k) => {
            let text = ctx.sections@[k];
            let live = live_functions(cu, text);
            if live.len() == 0 {
                Err(EmitError::NoFunctions)
            } else {
                match machine_of(ctx.arch) {
                    None => Err(EmitError::Arch(ctx.arch)),
                    Some(machine) => {
                        let empty = LinkageModel::empty(ObjectFormat::MachO, machine);
                        let opened = empty.over(
                            empty.obj.with_section("__TEXT"@, "__text"@, SectionKind::Text),
                        );
                        match with_functions(
                            UnitModel { l: opened, stats: no_stats() },
                            ctx,
                            cu,
                            text,
                            live,
                            0,
                            0,
                        ) {
                            None => Err(EmitError::Relocation),
                            Some(u) => Ok(
                                (
                                    u.l.obj,
                                    EmitStats {
                                        local_symbols: u.l.local.len() as usize,
                                        undef_symbols: u.l.undef.len() as usize,
                                        ..u.stats
                                    },
                                ),
                            ),
                        }
                    },
                }
            }
        },
    }
}

/// What holds of the object of a unit before a function is added.
spec fn takes_function(u: UnitModel) -> bool {
    &&& u.l.obj.sections.len() == 1
    &&& u.l.obj.sections[0].size == u.l.obj.sections[0].data.len()
}

proof fn lemma_with_labels(
    l: LinkageModel,
    keys: Seq<u64>,
    variables: Map<u64, MachoVariable>,
    addr: u64,
    base: u64,
    sid: usize,
    i: int,
)
    requires
        0 <= i,
    ensures
        grows(l.obj, with_labels(l, keys, variables, addr, base, sid, i).obj),
        with_labels(l, keys, variables, addr, base, sid, i).obj.sections == l.obj.sections,
    decreases keys.len() - i,
{
    if i < keys.len() {
        let k = keys[i];
        let v = variables[k];
        let next = if k == addr {
            l
        } else {
            l.with_definition(
                v.spec_symbol_name(),
                written_name(v.spec_symbol_name()),
                (base + (k - addr)) as u64,
                0,
                SymbolKind::Label,
                v.external,
                false,
                sid,
            )
        };
        lemma_with_labels(next, keys, variables, addr, base, sid, i + 1);
        assert(grows(l.obj, next.obj));
        lemma_grows_on(
            l.obj,
            next.obj,
            with_labels(l, keys, variables, addr, base, sid, i).obj,
        );
    }
}

proof fn lemma_with_relocs(
    l: LinkageModel,
    relocs: Seq<RelocView>,
    base: u64,
    sid: usize,
    i: int,
)
    requires
        0 <= i,
        sid < l.obj.sections.len(),
        with_relocs(l, relocs, base, sid, i) is Some,
    ensures
        grows(l.obj, with_relocs(l, relocs, base, sid, i)->0.obj),
        keeps_sizes(l.obj, with_relocs(l, relocs, base, sid, i)->0.obj),
    decreases relocs.len() - i,
{
    if i < relocs.len() {
        let r = relocs[i];
        let kind = RelocationType::MachOBranch;
        let m = l.with_reference(r.target, written_name(r.target), SymbolKind::Unknown);
        lemma_grows_by_reference(l, r.target, written_name(r.target), SymbolKind::Unknown);
        let at = (base + r.offset) as u64;
        let n = l.number(r.target) as nat;
        let added = m.obj.with_relocation(sid as nat, at, n, kind, r.addend as int);
        lemma_grows_by_relocation(m.obj, sid as nat, at, n, kind, r.addend as int);
        lemma_grows_on(l.obj, m.obj, added);
        assert(keeps_sizes(l.obj, added));
        lemma_with_relocs(m.over(added), relocs, base, sid, i + 1);
        let end = with_relocs(l, relocs, base, sid, i)->0;
        lemma_grows_on(l.obj, added, end.obj);
        lemma_keeps_sizes_on(l.obj, added, end.obj);
    }
}

/// True when the bytes of a function lie in the section's data.
pub open spec fn is_whole(text: MachoSection, f: MachoFunction) -> bool {
    f.addr - text.addr + f.size <= text.data@.len()
}

/// The code of a function as it goes into an object, with its relocated fields set to
/// zero.
pub open spec fn cleared_code(ctx: &MachoContext, text: MachoSection, f: MachoFunction) -> Seq<u8> {
    let start = f.addr - text.addr;
    let code = text.data@.subrange(start, start + f.size);
    cleared_from(code, recovered(code, f.addr, f.size, &ctx.symbols).relocs, 0)
}

/// True when the object has a symbol for the function, and room for its code there.
pub open spec fn defines_live(
    m: ObjectModel,
    ctx: &MachoContext,
    text: MachoSection,
    f: MachoFunction,
) -> bool {
    defines_function(
        m,
        written_name(f.spec_symbol_name()),
        f.size,
        cleared_code(ctx, text, f).len(),
    )
}

proof fn lemma_with_function(
    u: UnitModel,
    ctx: &MachoContext,
    text: MachoSection,
    f: MachoFunction,
)
    requires
        takes_function(u),
        with_function(u, ctx, text, f, 0) is Some,
    ensures
        ({
            let v = with_function(u, ctx, text, f, 0)->0;
            &&& takes_function(v)
            &&& grows(u.l.obj, v.l.obj)
            &&& addressable(v.l.obj) && is_whole(text, f) ==> defines_live(v.l.obj, ctx, text, f)
        }),
{
    if is_whole(text, f) {
        let start = f.addr - text.addr;
        let code = text.data@.subrange(start, start + f.size);
        let out = recovered(code, f.addr, f.size, &ctx.symbols);
        let cleared = cleared_code(ctx, text, f);
        let base = u.l.obj.append_offset(0, 4) as u64;
        let variables = ctx.symbols.variables@;
        let name = f.spec_symbol_name();
        let filled = u.l.over(u.l.obj.with_data(0, cleared, 4));
        lemma_grows_by_data(u.l.obj, 0, cleared, 4);
        let named = filled.with_definition(
            name,
            written_name(name),
            base,
            f.size,
            SymbolKind::Text,
            f.external,
            false,
            0,
        );
        assert(grows(filled.obj, named.obj));
        lemma_grows_on(u.l.obj, filled.obj, named.obj);
        let keys = keys_in(variables.dom(), f.addr, f.size);
        let placed = function_placed(u.l, cleared, f, variables, base, 0);
        lemma_with_labels(named, keys, variables, f.addr, base, 0, 0);
        lemma_grows_on(u.l.obj, named.obj, placed.obj);
        let v = with_function(u, ctx, text, f, 0)->0;
        lemma_with_relocs(placed, out.relocs, base, 0, 0);
        lemma_grows_on(named.obj, placed.obj, v.l.obj);
        lemma_grows_on(u.l.obj, named.obj, v.l.obj);
        assert(v.l.obj.sections[0].size == placed.obj.sections[0].size);
        if addressable(v.l.obj) {
            let x = named.obj.symbols[u.l.obj.symbols.len() as int];
            assert(v.l.obj.sections[0].data.len() <= u64::MAX);
            assert(x.value + cleared.len() == named.obj.sections[0].data.len());
            assert(is_code_symbol(
                named.obj,
                x,
                written_name(name),
                f.size,
                cleared.len(),
            ));
            lemma_function_stays(named.obj, v.l.obj, written_name(name), f.size, cleared);
        }
    }
}

proof fn lemma_with_functions(
    u: UnitModel,
    ctx: &MachoContext,
    cu: &MachoCompilationUnit,
    text: MachoSection,
    live: Seq<(u64, usize)>,
    i: int,
)
    requires
        takes_function(u),
        0 <= i <= live.len(),
        with_functions(u, ctx, cu, text, live, 0, i) is Some,
    ensures
        ({
            let v = with_functions(u, ctx, cu, text, live, 0, i)->0;
            &&& grows(u.l.obj, v.l.obj)
            &&& addressable(v.l.obj) ==> forall|k: int|
                i <= k < live.len() && is_whole(text, cu.functions@[(#[trigger] live[k]).1 as int])
                    ==> defines_live(v.l.obj, ctx, text, cu.functions@[live[k].1 as int])
        }),
    decreases live.len() - i,
{
    if i < live.len() {
        let f = cu.functions@[live[i].1 as int];
        let next = with_function(u, ctx, text, f, 0)->0;
        lemma_with_function(u, ctx, text, f);
        lemma_with_functions(next, ctx, cu, text, live, i + 1);
        let v = with_functions(u, ctx, cu, text, live, 0, i)->0;
        lemma_grows_on(u.l.obj, next.l.obj, v.l.obj);
        if addressable(v.l.obj) {
            lemma_addressable(next.l.obj, v.l.obj);
            lemma_function_stays(
                next.l.obj,
                v.l.obj,
                written_name(f.spec_symbol_name()),
                f.size,
                cleared_code(ctx, text, f),
            );
        }
    }
}

/// The object of a unit has, for each live function whose bytes lie in the section's
/// data, a symbol with the function's name and size and room for its code there.
pub proof fn law_functions_are_defined(ctx: &MachoContext, cu: &MachoCompilationUnit)
    requires
        unit_object(ctx, cu) is Ok,
        addressable(unit_object(ctx, cu)->Ok_0.0),
    ensures
        ({
            let m = unit_object(ctx, cu)->Ok_0.0;
            let text = ctx.sections@[section_index(ctx.sections@, "__TEXT"@, "__text"@)->0];
            let live = live_functions(cu, text);
            forall|i: int|
                0 <= i < live.len() && is_whole(text, cu.functions@[(#[trigger] live[i]).1 as int])
                    ==> defines_live(m, ctx, text, cu.functions@[live[i].1 as int])
        }),
{
    let text = ctx.sections@[section_index(ctx.sections@, "__TEXT"@, "__text"@)->0];
    let live = live_functions(cu, text);
    let empty = LinkageModel::empty(ObjectFormat::MachO, machine_of(ctx.arch)->0);
    let opened = empty.over(empty.obj.with_section("__TEXT"@, "__text"@, SectionKind::Text));
    lemma_with_functions(UnitModel { l: opened, stats: no_stats() }, ctx, cu, text, live, 0);
}

/// The file that a built object becomes, or why there is none.
pub open spec fn unit_file<S>(built: Result<(ObjectModel, S), EmitError>) -> Result<
    (Seq<u8>, S),
    EmitError,
> {
    match built {
        Err(e) => Err(e),
        Ok((m, stats)) => match written(m) {
            Ok(file) => Ok((file, stats)),
            Err(e) => Err(EmitError::Write(e)),
        },
    }
}

/// A file and what went into it, with the file as bytes.
pub open spec fn emitted<S>(r: Result<(Vec<u8>, S), EmitError>) -> Result<
    (Seq<u8>, S),
    EmitError,
> {
    match r {
        Ok((file, stats)) => Ok((file@, stats)),
        Err(e) => Err(e),
    }
}

/// Builds one Mach-O object for a compilation unit.
pub fn emit_macho_cu(ctx: &MachoContext, cu: &MachoCompilationUnit) -> (r: Result<
    (Vec<u8>, EmitStats),
    EmitError,
>)
    ensures
        emitted(r) == unit_file(unit_object(ctx, cu)),
{
    let text = match ctx.text_section() {
        Some(s) => s,
        None => return Err(EmitError::NoText),
    };
    let live = find_live(cu, text);
    if live.len() == 0 {
        return Err(EmitError::NoFunctions);
    }
    let machine = match arch_machine(ctx.arch) {
        Some(m) => m,
        None => return Err(EmitError::Arch(ctx.arch)),
    };
    let mut l = Linkage::new(ObjectFormat::MachO, machine);
    let mut stats = EmitStats::default();
    let sid = l.obj.add_section("__TEXT", "__text", SectionKind::Text);
    let ghost start = UnitModel { l: l@, stats };
    let mut i: usize = 0;
    while i < live.len()
        invariant
            l.wf(),
            filling(l@.obj, sid),
            live_wf(live@, cu.functions@, *text),
            i <= live@.len(),
            with_functions(start, ctx, cu, *text, live@, sid, 0) == with_functions(
                UnitModel { l: l@, stats },
                ctx,
                cu,
                *text,
                live@,
                sid,
                i as int,
            ),
            unit_object(ctx, cu) == (match with_functions(
                start,
                ctx,
                cu,
                *text,
                live@,
                sid,
                0,
            ) {
                None => Err::<(ObjectModel, EmitStats), EmitError>(EmitError::Relocation),
                Some(u) => Ok(
                    (
                        u.l.obj,
                        EmitStats {
                            local_symbols: u.l.local.len() as usize,
                            undef_symbols: u.l.undef.len() as usize,
                            ..u.stats
                        },
                    ),
                ),
            }),
        decreases live@.len() - i,
    {
        if !emit_function(&mut l, &mut stats, ctx, text, &cu.functions[live[i].1], sid) {
            return Err(EmitError::Relocation);
        }
        i = i + 1;
    }
    stats.local_symbols = l.local.len();
    stats.undef_symbols = l.undef.len();
    match l.obj.write() {
        Ok(file) => Ok((file, stats)),
        Err(e) => Err(EmitError::Write(e)),
    }
}

/// A section of the shared object, and the addresses it stands for.
#[derive(Debug, Clone, Copy, PartialEq, Eq, Structural)]
pub struct Slot {
    pub sid: usize,
    pub addr: u64,
    pub size: u64,
}

/// The object for shared data, as far as it is built.
#[verifier::ext_equal]
pub ghost struct SharedModel {
    pub obj: ObjectModel,
    pub slots: Seq<Slot>,
}

/// With the first section called `name` in `__DATA`, and a symbol at its start.
pub open spec fn with_shared_section(
    s: SharedModel,
    ctx: &MachoContext,
    name: Seq<char>,
    kind: SectionKind,
    start: Seq<char>,
) -> SharedModel {
    match section_index(ctx.sections@, "__DATA"@, name) {
        None => s,
        Some(k) => {
            let section = ctx.sections@[k];
            let sid = s.obj.sections.len() as usize;
            let opened = s.obj.with_section("__DATA"@, name, kind);
            let filled = if kind == SectionKind::UninitializedData {
                opened.with_bss(sid as nat, section.size, 16)
            } else {
                opened.with_data(sid as nat, section.data@, 16)
            };
            SharedModel {
                obj: filled.with_symbol(
                    symbol(start, 0, 0, SymbolKind::Data, true, false, Some(sid)),
                ),
                slots: s.slots.push(Slot { sid, addr: section.addr, size: section.size }),
            }
        },
    }
}

/// Size of the first section called `name` in `__DATA`.
pub open spec fn size_of_section(ctx: &MachoContext, name: Seq<char>) -> u64 {
    match section_index(ctx.sections@, "__DATA"@, name) {
        None => 0,
        Some(k) => ctx.sections@[k].size,
    }
}

/// Slots name sections of the object.
pub open spec fn slots_wf(slots: Seq<Slot>, m: ObjectModel) -> bool {
    forall|i: int| 0 <= i < slots.len() ==> (#[trigger] slots[i]).sid < m.sections.len()
}

fn add_shared_section(
    l: &mut Linkage,
    slots: &mut Vec<Slot>,
    ctx: &MachoContext,
    name: &str,
    kind: SectionKind,
    start: &str,
) -> (size: u64)
    requires
        old(l).wf(),
        slots_wf(old(slots)@, old(l)@.obj),
    ensures
        final(l).wf(),
        slots_wf(final(slots)@, final(l)@.obj),
        (SharedModel { obj: final(l)@.obj, slots: final(slots)@ }) == with_shared_section(
            SharedModel { obj: old(l)@.obj, slots: old(slots)@ },
            ctx,
            name@,
            kind,
            start@,
        ),
        size == size_of_section(ctx, name@),
{
    let k = match find_section(&ctx.sections, "__DATA", name) {
        Some(k) => k,
        None => return 0,
    };
    let section = &ctx.sections[k];
    let sid = l.obj.add_section("__DATA", name, kind);
    if matches!(kind, SectionKind::UninitializedData) {
        l.obj.append_bss(sid, section.size, 16);
    } else {
        l.obj.append_data(sid, section.data.as_slice(), 16);
    }
    l.obj.add_symbol(start, 0, 0, SymbolKind::Data, true, false, Some(sid));
    slots.push(Slot { sid, addr: section.addr, size: section.size });
    section.size
}

/// Index, from `i` on, of the first slot that holds `addr`.
pub open spec fn slot_index(slots: Seq<Slot>, addr: u64, i: int) -> Option<int>
    decreases slots.len() - i,
{
    if i < 0 || i >= slots.len() {
        None
    } else if slots[i].addr <= addr < slots[i].addr + slots[i].size {
        Some(i)
    } else {
        slot_index(slots, addr, i + 1)
    }
}

fn find_slot(slots: &Vec<Slot>, addr: u64) -> (r: Option<usize>)
    ensures
        match r {
            Some(k) => k < slots@.len() && slot_index(slots@, addr, 0) == Some(k as int)
                && slots@[k as int].addr <= addr,
            None => slot_index(slots@, addr, 0) is None,
        },
{
    let mut i: usize = 0;
    while i < slots.len()
        invariant
            i <= slots@.len(),
            slot_index(slots@, addr, 0) == slot_index(slots@, addr, i as int),
        decreases slots@.len() - i,
    {
        let s = slots[i];
        if s.addr <= addr && addr - s.addr < s.size {
            return Some(i);
        }
        i = i + 1;
    }
    None
}

/// With a symbol for each datum, from key `i` on, in the shared section that
/// holds it.
pub open spec fn with_shared_symbols(
    m: ObjectModel,
    keys: Seq<u64>,
    variables: Map<u64, MachoVariable>,
    slots: Seq<Slot>,
    i: int,
) -> ObjectModel
    decreases keys.len() - i,
{
    if i < 0 || i >= keys.len() {
        m
    } else {
        let addr = keys[i];
        let v = variables[addr];
        with_shared_symbols(
            match slot_index(slots, addr, 0) {
                Some(k) => m.with_symbol(
                    symbol(
                        written_name(v.spec_symbol_name()),
                        (addr - slots[k].addr) as u64,
                        0,
                        SymbolKind::Data,
                        v.external,
                        false,
                        Some(slots[k].sid),
                    ),
                ),
                None => m,
            },
            keys,
            variables,
            slots,
            i + 1,
        )
    }
}

fn add_shared_symbols(l: &mut Linkage, ctx: &MachoContext, slots: &Vec<Slot>)
    requires
        old(l).wf(),
        slots_wf(slots@, old(l)@.obj),
    ensures
        final(l).wf(),
        final(l)@.obj == with_shared_symbols(
            old(l)@.obj,
            keys_between(ctx.symbols.variables@.dom(), 0, u64::MAX),
            ctx.symbols.variables@,
            slots@,
            0,
        ),
{
    let variables = &ctx.symbols.variables;
    let keys = keys_in_range(variables, 0, u64::MAX);
    proof {
        lemma_keys_between(variables@.dom(), 0, u64::MAX);
        assert forall|j: int| 0 <= j < keys@.len() implies variables@.dom().contains(
            #[trigger] keys@[j],
        ) by {
            assert(keys_between(variables@.dom(), 0, u64::MAX).contains(keys@[j]));
        }
    }
    let mut i: usize = 0;
    while i < keys.len()
        invariant
            l.wf(),
            slots_wf(slots@, l@.obj),
            i <= keys@.len(),
            forall|j: int|
                0 <= j < keys@.len() ==> variables@.dom().contains(#[trigger] keys@[j]),
            with_shared_symbols(old(l)@.obj, keys@, variables@, slots@, 0)
                == with_shared_symbols(l@.obj, keys@, variables@, slots@, i as int),
        decreases keys@.len() - i,
    {
        let addr = keys[i];
        if let Some(k) = find_slot(slots, addr) {
            if let Some(v) = variables.get(&addr) {
                let slot = slots[k];
                let spelling = sanitize_symbol_name(v.symbol_name());
                l.obj.add_symbol(
                    spelling.as_str(),
                    addr - slot.addr,
                    0,
                    SymbolKind::Data,
                    v.external,
                    false,
                    Some(slot.sid),
                );
            }
        }
        i = i + 1;
    }
}

/// The data sections of an image, one behind the other, in an object.
pub open spec fn shared_sections(ctx: &MachoContext, machine: Machine) -> SharedModel {
    let empty = SharedModel {
        obj: ObjectModel::empty(ObjectFormat::MachO, machine),
        slots: Seq::empty(),
    };
    let a = with_shared_section(empty, ctx, "__data"@, SectionKind::Data, SYM_DATA_START@);
    let b = with_shared_section(
        a,
        ctx,
        "__const"@,
        SectionKind::ReadOnlyData,
        SYM_CONST_START@,
    );
    with_shared_section(b, ctx, "__bss"@, SectionKind::UninitializedData, SYM_BSS_START@)
}

/// The object for the data of an image and what went into it: its data sections,
/// and symbols for the data in them.
pub open spec fn shared_object(ctx: &MachoContext) -> Result<
    (ObjectModel, SharedDataStats),
    EmitError,
> {
    match machine_of(ctx.arch) {
        None => Err(EmitError::Arch(ctx.arch)),
        Some(machine) => {
            let s = shared_sections(ctx, machine);
            Ok(
                (
                    with_shared_symbols(
                        s.obj,
                        keys_between(ctx.symbols.variables@.dom(), 0, u64::MAX),
                        ctx.symbols.variables@,
                        s.slots,
                        0,
                    ),
                    SharedDataStats {
                        data_bytes: size_of_section(ctx, "__data"@),
                        const_bytes: size_of_section(ctx, "__const"@),
                        bss_bytes: size_of_section(ctx, "__bss"@),
                    },
                ),
            )
        },
    }
}

proof fn lemma_shared_symbols_grow(
    m: ObjectModel,
    keys: Seq<u64>,
    variables: Map<u64, MachoVariable>,
    slots: Seq<Slot>,
    i: int,
    k: int,
)
    requires
        0 <= i,
    ensures
        grows(m, with_shared_symbols(m, keys, variables, slots, i)),
        i <= k < keys.len() && slot_index(slots, keys[k], 0) is Some ==> defines_datum(
            with_shared_symbols(m, keys, variables, slots, i),
            written_name(variables[keys[k]].spec_symbol_name()),
            (keys[k] - slots[slot_index(slots, keys[k], 0)->0].addr) as u64,
            slots[slot_index(slots, keys[k], 0)->0].sid as nat,
        ),
    decreases keys.len() - i,
{
    if i < keys.len() {
        let addr = keys[i];
        let name = written_name(variables[addr].spec_symbol_name());
        let end = with_shared_symbols(m, keys, variables, slots, i);
        match slot_index(slots, addr, 0) {
            Some(n) => {
                let value = (addr - slots[n].addr) as u64;
                let external = variables[addr].external;
                let sid = slots[n].sid;
                let next = m.with_symbol(
                    symbol(name, value, 0, SymbolKind::Data, external, false, Some(sid)),
                );
                lemma_grows_by_symbol(
                    m,
                    symbol(name, value, 0, SymbolKind::Data, external, false, Some(sid)),
                );
                lemma_shared_symbols_grow(next, keys, variables, slots, i + 1, k);
                lemma_grows_on(m, next, end);
                if k == i {
                    let x = next.symbols[m.symbols.len() as int];
                    assert(is_data_symbol(next, x, name, value, sid as nat));
                    lemma_datum_stays(next, end, name, value, sid as nat);
                }
            },
            None => {
                lemma_shared_symbols_grow(m, keys, variables, slots, i + 1, k);
            },
        }
    }
}

/// Every datum of the tables that lies in a data section of the image is defined in
/// the shared object, at its place in that section.
pub proof fn law_data_are_defined(ctx: &MachoContext, addr: u64)
    requires
        shared_object(ctx) is Ok,
        ctx.symbols.variables@.contains_key(addr),
        slot_index(shared_sections(ctx, machine_of(ctx.arch)->0).slots, addr, 0) is Some,
    ensures
        ({
            let slots = shared_sections(ctx, machine_of(ctx.arch)->0).slots;
            let slot = slots[slot_index(slots, addr, 0)->0];
            defines_datum(
                shared_object(ctx)->Ok_0.0,
                written_name(ctx.symbols.variables@[addr].spec_symbol_name()),
                (addr - slot.addr) as u64,
                slot.sid as nat,
            )
        }),
{
    let variables = ctx.symbols.variables@;
    let s = shared_sections(ctx, machine_of(ctx.arch)->0);
    let keys = keys_between(variables.dom(), 0, u64::MAX);
    lemma_keys_between(variables.dom(), 0, u64::MAX);
    assert(keys.contains(addr));
    let k = choose|k: int| 0 <= k < keys.len() && keys[k] == addr;
    lemma_shared_symbols_grow(s.obj, keys, variables, s.slots, 0, k);
}

/// Builds the object that carries `__data`, `__const` and `__bss` of the image.
pub fn emit_macho_shared(ctx: &MachoContext) -> (r: Result<(Vec<u8>, SharedDataStats), EmitError>)
    ensures
        emitted(r) == unit_file(shared_object(ctx)),
{
    let machine = match arch_machine(ctx.arch) {
        Some(m) => m,
        None => return Err(EmitError::Arch(ctx.arch)),
    };
    let mut l = Linkage::new(ObjectFormat::MachO, machine);
    let mut slots: Vec<Slot> = Vec::new();
    let mut stats = SharedDataStats::default();
    stats.data_bytes = add_shared_section(
        &mut l,
        &mut slots,
        ctx,
        "__data",
        SectionKind::Data,
        SYM_DATA_START,
    );
    stats.const_bytes = add_shared_section(
        &mut l,
        &mut slots,
        ctx,
        "__const",
        SectionKind::ReadOnlyData,
        SYM_CONST_START,
    );
    stats.bss_bytes = add_shared_section(
        &mut l,
        &mut slots,
        ctx,
        "__bss",
        SectionKind::UninitializedData,
        SYM_BSS_START,
    );
    add_shared_symbols(&mut l, ctx, &slots);
    match l.obj.write() {
        Ok(file) => Ok((file, stats)),
        Err(e) => Err(EmitError::Write(e)),
    }
}

/// The final component of a path without its extension, made safe for a file
/// name.
pub open spec fn spec_sanitized_stem(name: Seq<char>) -> Seq<char> {
    spec_safe_file_name(spec_file_stem(name))
}

/// A file name's stem for a unit's name.
pub fn sanitize_file_stem(name: &str) -> (r: String)
    ensures
        r@ == spec_sanitized_stem(name@),
{
    let stem = file_stem(name);
    safe_file_name(stem.as_str())
}

/// Name of the object file of a unit: its number and the stem of its name.
pub open spec fn spec_object_name(id: nat, name: Seq<char>) -> Seq<char> {
    zero_padded(digits(id, 10), 4) + "_"@ + spec_sanitized_stem(name) + ".o"@
}

/// Names the object file of a unit.
pub fn object_name(id: usize, name: &str) -> (r: String)
    ensures
        r@ == spec_object_name(id as nat, name@),
{
    let number = decimal4(id as u64);
    let stem = sanitize_file_stem(name);
    let a = joined(number.as_str(), "_");
    let b = joined(a.as_str(), stem.as_str());
    joined(b.as_str(), ".o")
}

} // verus!
