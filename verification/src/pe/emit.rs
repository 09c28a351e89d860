//! COFF objects for the compilation units of a PE image, and one more for the
//! data they share.
//!
//! Both AMD64 (PE32+) and I386 (PE32) images are handled.
use std::collections::{BTreeMap, HashSet};
use vstd::prelude::*;

use super::cu::{PeCompilationUnit, PeContrib, PeFunction, PeVariable};
use super::image::{
    find_section, section_index, BaseReloc, BaseRelocKind, PeArch, PeContext, PeSection,
};
use super::symbols::{PeGlobalSymbols, SYM_BSS_START, SYM_DATA_START, SYM_RDATA_START};
use crate::bytes::{copy_range, le_value, patched, read_u32_le, read_u64_le, zero_fill, zeros};
use crate::growth::{
    addressable, defines_datum, defines_function, grows, is_code_symbol, is_data_symbol,
    keeps_sizes, lemma_addressable, lemma_datum_stays, lemma_function_stays, lemma_grows_by_bss,
    lemma_grows_by_data, lemma_grows_by_reference, lemma_grows_by_relocation,
    lemma_grows_by_section, lemma_grows_by_symbol, lemma_grows_on, lemma_keeps_sizes_on,
};
use crate::linkage::{Linkage, LinkageModel};
use crate::objfile::{
    symbol, written, Machine, ObjectFormat, ObjectModel, RelocationType, SectionKind, SymbolKind,
    WriteError, REL_AMD64_ADDR64, REL_AMD64_REL32, REL_I386_DIR32, REL_I386_REL32,
};
use crate::ordered::{
    by_address, keys_between, keys_in_range, lemma_keys_between, sort_by_address, stable_sorted,
};
use crate::text::{decimal4, digits, file_stem, joined, spec_file_stem, str_eq, zero_padded};
use crate::x86;
use crate::x86_64;

verus! {

broadcast use {
    vstd::std_specs::hash::group_hash_axioms,
    vstd::std_specs::btree::group_btree_axioms,
    vstd::hash_map::group_hash_map_axioms,
};

/// What went into an object.
#[derive(Debug, Clone, Copy, PartialEq, Eq, Structural)]
pub struct EmitStats {
    pub text_bytes: u64,
    pub local_symbols: usize,
    pub undef_symbols: usize,
    pub relocations: usize,
    pub unresolved_calls: usize,
    pub unresolved_rip_refs: usize,
    pub instructions: usize,
}

impl Default for EmitStats {
    fn default() -> (s: Self)
        ensures
            s == no_stats(),
    {
        EmitStats {
            text_bytes: 0,
            local_symbols: 0,
            undef_symbols: 0,
            relocations: 0,
            unresolved_calls: 0,
            unresolved_rip_refs: 0,
            instructions: 0,
        }
    }
}

/// Nothing emitted yet.
pub open spec fn no_stats() -> EmitStats {
    EmitStats {
        text_bytes: 0,
        local_symbols: 0,
        undef_symbols: 0,
        relocations: 0,
        unresolved_calls: 0,
        unresolved_rip_refs: 0,
        instructions: 0,
    }
}

/// Why a compilation unit did not become an object.
#[derive(Debug, Clone, Copy, PartialEq, Eq, Structural)]
pub enum EmitError {
    /// The image has no `.text` section.
    NoText,
    /// The unit has no function in `.text`.
    NoFunctions,
    /// A relocation does not fit the section it patches.
    Relocation,
    /// The object cannot be laid out as a file.
    Write(WriteError),
}

/// What one compilation unit came to.
#[derive(Debug)]
pub struct CuOutcome {
    pub cu_name: String,
    pub file: String,
    /// What went into the object, or why there is none.
    pub result: Result<EmitStats, String>,
}

/// The machine that objects of an image are for.
pub open spec fn machine_of(arch: PeArch) -> Machine {
    match arch {
        PeArch::X86_64 => Machine::X86_64,
        PeArch::X86 => Machine::I386,
    }
}

/// Width of a pointer in bytes.
pub open spec fn pointer_width(arch: PeArch) -> nat {
    match arch {
        PeArch::X86_64 => 8,
        PeArch::X86 => 4,
    }
}

/// The relocation of a pointer.
pub open spec fn pointer_reloc(arch: PeArch) -> RelocationType {
    match arch {
        PeArch::X86_64 => RelocationType::Coff(REL_AMD64_ADDR64),
        PeArch::X86 => RelocationType::Coff(REL_I386_DIR32),
    }
}

/// The relocation of a branch, or of an operand relative to the next
/// instruction.
pub open spec fn branch_reloc(arch: PeArch) -> RelocationType {
    match arch {
        PeArch::X86_64 => RelocationType::Coff(REL_AMD64_REL32),
        PeArch::X86 => RelocationType::Coff(REL_I386_REL32),
    }
}

/// Alignment of a function in its section.
pub open spec fn code_align(arch: PeArch) -> u64 {
    match arch {
        PeArch::X86_64 => 1,
        PeArch::X86 => 4,
    }
}

/// True when a base relocation marks a pointer of the image's width.
pub open spec fn marks_pointer(arch: PeArch, kind: BaseRelocKind) -> bool {
    match arch {
        PeArch::X86_64 => kind == BaseRelocKind::Dir64,
        PeArch::X86 => kind == BaseRelocKind::HighLow,
    }
}

fn arch_machine(arch: PeArch) -> (m: Machine)
    ensures
        m == machine_of(arch),
{
    match arch {
        PeArch::X86_64 => Machine::X86_64,
        PeArch::X86 => Machine::I386,
    }
}

fn arch_pointer_width(arch: PeArch) -> (w: usize)
    ensures
        w == pointer_width(arch),
{
    match arch {
        PeArch::X86_64 => 8,
        PeArch::X86 => 4,
    }
}

fn arch_pointer_reloc(arch: PeArch) -> (t: RelocationType)
    ensures
        t == pointer_reloc(arch),
{
    match arch {
        PeArch::X86_64 => RelocationType::Coff(REL_AMD64_ADDR64),
        PeArch::X86 => RelocationType::Coff(REL_I386_DIR32),
    }
}

fn arch_branch_reloc(arch: PeArch) -> (t: RelocationType)
    ensures
        t == branch_reloc(arch),
{
    match arch {
        PeArch::X86_64 => RelocationType::Coff(REL_AMD64_REL32),
        PeArch::X86 => RelocationType::Coff(REL_I386_REL32),
    }
}

fn arch_marks_pointer(arch: PeArch, kind: BaseRelocKind) -> (b: bool)
    ensures
        b == marks_pointer(arch, kind),
{
    match arch {
        PeArch::X86_64 => matches!(kind, BaseRelocKind::Dir64),
        PeArch::X86 => matches!(kind, BaseRelocKind::HighLow),
    }
}

/// A reference from code that becomes a relocation.
#[derive(Debug)]
pub struct CodeRef {
    pub offset: u64,
    pub target: String,
    pub addend: i64,
}

/// A reference from code, with its target as text.
pub ghost struct CodeRefView {
    pub offset: u64,
    pub target: Seq<char>,
    pub addend: i64,
}

impl View for CodeRef {
    type V = CodeRefView;

    open spec fn view(&self) -> CodeRefView {
        CodeRefView { offset: self.offset, target: self.target@, addend: self.addend }
    }
}

/// The references of one function, and counts of what recovery met.
pub struct CodeRefs {
    pub refs: Vec<CodeRef>,
    pub instructions: usize,
    pub unresolved_calls: usize,
    pub unresolved_rip_refs: usize,
}

/// The references of one function, with their targets as text.
#[verifier::ext_equal]
pub ghost struct CodeRefsView {
    pub refs: Seq<CodeRefView>,
    pub instructions: usize,
    pub unresolved_calls: usize,
    pub unresolved_rip_refs: usize,
}

impl View for CodeRefs {
    type V = CodeRefsView;

    open spec fn view(&self) -> CodeRefsView {
        CodeRefsView {
            refs: self.refs@.map_values(|r: CodeRef| r@),
            instructions: self.instructions,
            unresolved_calls: self.unresolved_calls,
            unresolved_rip_refs: self.unresolved_rip_refs,
        }
    }
}

/// The references that recovery finds in the code of a function.
pub open spec fn code_refs(
    arch: PeArch,
    code: Seq<u8>,
    va: u64,
    symbols: &PeGlobalSymbols,
) -> CodeRefsView {
    match arch {
        PeArch::X86_64 => {
            let out = x86_64::recovered(code, va, code.len() as u64, symbols);
            CodeRefsView {
                refs: out.relocs.map_values(
                    |r: x86_64::RelocView|
                        CodeRefView { offset: r.offset, target: r.target, addend: r.addend },
                ),
                instructions: out.diag.instructions,
                unresolved_calls: out.diag.calls_unresolved,
                unresolved_rip_refs: out.diag.rip_refs_unresolved,
            }
        },
        PeArch::X86 => {
            let out = x86::recovered(code, va, code.len() as u64, symbols);
            CodeRefsView {
                refs: out.relocs.map_values(
                    |r: x86::RelocView|
                        CodeRefView { offset: r.offset, target: r.target, addend: r.addend },
                ),
                instructions: out.diag.instructions,
                unresolved_calls: out.diag.calls_unresolved,
                unresolved_rip_refs: out.diag.rip_refs_unresolved,
            }
        },
    }
}

/// References that lie in `n` bytes of code, with addends that fit 32 bits.
pub open spec fn refs_fit(refs: Seq<CodeRef>, n: nat) -> bool {
    forall|i: int|
        0 <= i < refs.len() ==> (#[trigger] refs[i]).offset + 4 <= n && 0 <= refs[i].addend
            <= u32::MAX
}

fn find_code_refs(arch: PeArch, code: &[u8], va: u64, symbols: &PeGlobalSymbols) -> (r: CodeRefs)
    requires
        symbols.wf(),
    ensures
        r@ == code_refs(arch, code@, va, symbols),
        refs_fit(r.refs@, code@.len()),
{
    let mut refs: Vec<CodeRef> = Vec::new();
    let n: usize = code.len();
    match arch {
        PeArch::X86_64 => {
            let out = x86_64::recover(code, va, n as u64, symbols);
            let mut i: usize = 0;
            while i < out.relocs.len()
                invariant
                    symbols.wf(),
                    n == code@.len(),
                    out@ == x86_64::recovered(code@, va, n as u64, symbols),
                    x86_64::fields_within(out.relocs@, code@.len()),
                    i <= out.relocs@.len(),
                    refs@.len() == i,
                    refs_fit(refs@, code@.len()),
                    forall|j: int|
                        0 <= j < i ==> (#[trigger] refs@[j])@ == (CodeRefView {
                            offset: out.relocs@[j].offset,
                            target: out.relocs@[j].target@,
                            addend: out.relocs@[j].addend,
                        }),
                decreases out.relocs@.len() - i,
            {
                let r = &out.relocs[i];
                proof {
                    x86_64::law_relocations_are_resolved(code@, va, n as u64, symbols);
                    assert(out@.relocs[i as int] == r@);
                    assert(x86_64::resolved_by(r@, symbols));
                    lemma_resolved_addend(r.target@, r.addend, symbols);
                }
                refs.push(CodeRef { offset: r.offset, target: r.target.clone(), addend: r.addend });
                i = i + 1;
            }
            let result = CodeRefs {
                refs,
                instructions: out.diag.instructions,
                unresolved_calls: out.diag.calls_unresolved,
                unresolved_rip_refs: out.diag.rip_refs_unresolved,
            };
            assert(result@.refs =~= code_refs(arch, code@, va, symbols).refs);
            result
        },
        PeArch::X86 => {
            let out = x86::recover(code, va, n as u64, symbols);
            let mut i: usize = 0;
            while i < out.relocs.len()
                invariant
                    symbols.wf(),
                    n == code@.len(),
                    out@ == x86::recovered(code@, va, n as u64, symbols),
                    x86::fields_within(out.relocs@, code@.len()),
                    i <= out.relocs@.len(),
                    refs@.len() == i,
                    refs_fit(refs@, code@.len()),
                    forall|j: int|
                        0 <= j < i ==> (#[trigger] refs@[j])@ == (CodeRefView {
                            offset: out.relocs@[j].offset,
                            target: out.relocs@[j].target@,
                            addend: out.relocs@[j].addend,
                        }),
                decreases out.relocs@.len() - i,
            {
                let r = &out.relocs[i];
                proof {
                    x86::law_relocations_are_resolved(code@, va, n as u64, symbols);
                    assert(out@.relocs[i as int] == r@);
                    assert(x86::resolved_by(r@, symbols));
                    let va = choose|va: u32| #[trigger]
                        x86::SymbolResolver::code_symbol(symbols, va as u64) == Some(
                            (r.target@, r.addend),
                        );
                    assert(symbols.spec_resolve_code(va as u64) == Some((r.target@, r.addend)));
                    lemma_resolved_addend(r.target@, r.addend, symbols);
                }
                refs.push(CodeRef { offset: r.offset, target: r.target.clone(), addend: r.addend });
                i = i + 1;
            }
            let result = CodeRefs {
                refs,
                instructions: out.diag.instructions,
                unresolved_calls: out.diag.calls_unresolved,
                unresolved_rip_refs: out.diag.rip_refs_unresolved,
            };
            assert(result@.refs =~= code_refs(arch, code@, va, symbols).refs);
            result
        },
    }
}

/// What the symbols of an image give for some address has an addend of 32 bits.
proof fn lemma_resolved_addend(name: Seq<char>, addend: i64, symbols: &PeGlobalSymbols)
    requires
        symbols.wf(),
        exists|va: u64|
            symbols.spec_resolve_code(va) == Some((name, addend)) || symbols.spec_resolve_data(va)
                == Some((name, addend)),
    ensures
        0 <= addend <= u32::MAX,
{
    let va = choose|va: u64|
        symbols.spec_resolve_code(va) == Some((name, addend)) || symbols.spec_resolve_data(va)
            == Some((name, addend));
    symbols.lemma_addends(va);
}

/// The code with the fields of the references from `i` on set to zero.
pub open spec fn cleared_from(code: Seq<u8>, refs: Seq<CodeRefView>, i: int) -> Seq<u8>
    decreases refs.len() - i,
{
    if i < 0 || i >= refs.len() {
        code
    } else {
        cleared_from(patched(code, refs[i].offset as int, zeros(4)), refs, i + 1)
    }
}

fn clear_refs(code: &mut Vec<u8>, refs: &CodeRefs)
    requires
        refs_fit(refs.refs@, old(code)@.len()),
    ensures
        final(code)@ == cleared_from(old(code)@, refs@.refs, 0),
        final(code)@.len() == old(code)@.len(),
{
    let mut i: usize = 0;
    while i < refs.refs.len()
        invariant
            i <= refs.refs@.len(),
            code@.len() == old(code)@.len(),
            refs_fit(refs.refs@, code@.len()),
            cleared_from(old(code)@, refs@.refs, 0) == cleared_from(code@, refs@.refs, i as int),
        decreases refs.refs@.len() - i,
    {
        assert(refs@.refs[i as int] == refs.refs@[i as int]@);
        assert(code@.len() == code.len());
        zero_fill(code, refs.refs[i].offset as usize, 4);
        i = i + 1;
    }
}

/// A pointer found in bytes of the image: where it is, and the symbol and
/// addend that it becomes.
#[derive(Debug, Clone, Copy, PartialEq, Eq, Structural)]
pub struct Pointer {
    pub offset: u64,
    pub symbol: usize,
    pub addend: i64,
}

/// Bytes of the image with the pointers found in them.
#[verifier::ext_equal]
pub ghost struct StagedModel {
    pub bytes: Seq<u8>,
    pub l: LinkageModel,
    pub pointers: Seq<Pointer>,
}

/// True when a base relocation marks a pointer in the `size` bytes at `va`.
pub open spec fn pointer_within(arch: PeArch, br: BaseReloc, va: u64, size: int) -> bool {
    &&& marks_pointer(arch, br.kind)
    &&& va <= br.va
    &&& br.va + pointer_width(arch) <= va + size
}

/// What the base relocations from `i` on make of bytes at `va`. A pointer to a
/// known place is cleared and becomes a relocation against an undefined symbol;
/// any other is cleared where `clear_all` says so.
pub open spec fn staged_from(
    s: StagedModel,
    pe: &PeContext,
    va: u64,
    size: int,
    clear_all: bool,
    i: int,
) -> StagedModel
    decreases pe.base_relocations@.len() - i,
{
    if i < 0 || i >= pe.base_relocations@.len() {
        s
    } else {
        let br = pe.base_relocations@[i];
        let w = pointer_width(pe.arch);
        let off = br.va - va;
        if !pointer_within(pe.arch, br, va, size) || off + w > s.bytes.len() {
            staged_from(s, pe, va, size, clear_all, i + 1)
        } else {
            let cleared = patched(s.bytes, off, zeros(w));
            let next = match pe.symbols.spec_resolve_data(le_value(s.bytes, off, w) as u64) {
                Some((name, addend)) => StagedModel {
                    bytes: cleared,
                    l: s.l.with_undef(name, name, SymbolKind::Data),
                    pointers: s.pointers.push(
                        Pointer { offset: off as u64, symbol: s.l.undef_number(name), addend },
                    ),
                },
                None => StagedModel {
                    bytes: if clear_all {
                        cleared
                    } else {
                        s.bytes
                    },
                    ..s
                },
            };
            staged_from(next, pe, va, size, clear_all, i + 1)
        }
    }
}

/// Pointers into `n` bytes, against symbols that are there.
pub open spec fn pointers_fit(pointers: Seq<Pointer>, w: nat, n: nat, symbols: nat) -> bool {
    forall|i: int|
        0 <= i < pointers.len() ==> (#[trigger] pointers[i]).offset + w <= n && pointers[i].symbol
            < symbols && 0 <= pointers[i].addend <= u32::MAX
}

/// An object for the image, with the section that is being filled.
pub open spec fn filling(m: ObjectModel, arch: PeArch, sid: usize) -> bool {
    &&& m.format == ObjectFormat::Coff
    &&& m.machine == machine_of(arch)
    &&& sid < m.sections.len()
    &&& m.sections[sid as int].kind != SectionKind::UninitializedData
}

fn stage_pointers(
    l: &mut Linkage,
    bytes: &mut Vec<u8>,
    pe: &PeContext,
    va: u64,
    size: u64,
    clear_all: bool,
) -> (pointers: Vec<Pointer>)
    requires
        old(l).wf(),
        pe.wf(),
    ensures
        final(l).wf(),
        (StagedModel { bytes: final(bytes)@, l: final(l)@, pointers: pointers@ }) == staged_from(
            StagedModel { bytes: old(bytes)@, l: old(l)@, pointers: Seq::empty() },
            pe,
            va,
            size as int,
            clear_all,
            0,
        ),
        final(bytes)@.len() == old(bytes)@.len(),
        final(l)@.obj.sections == old(l)@.obj.sections,
        final(l)@.obj.format == old(l)@.obj.format,
        final(l)@.obj.machine == old(l)@.obj.machine,
        pointers_fit(
            pointers@,
            pointer_width(pe.arch),
            old(bytes)@.len(),
            final(l)@.obj.symbols.len(),
        ),
{
    let mut pointers: Vec<Pointer> = Vec::new();
    let w: usize = arch_pointer_width(pe.arch);
    let mut i: usize = 0;
    while i < pe.base_relocations.len()
        invariant
            pe.wf(),
            l.wf(),
            w == pointer_width(pe.arch),
            i <= pe.base_relocations@.len(),
            bytes@.len() == old(bytes)@.len(),
            l@.obj.sections == old(l)@.obj.sections,
            l@.obj.format == old(l)@.obj.format,
            l@.obj.machine == old(l)@.obj.machine,
            pointers_fit(pointers@, w as nat, bytes@.len(), l@.obj.symbols.len()),
            staged_from(
                StagedModel { bytes: old(bytes)@, l: old(l)@, pointers: Seq::empty() },
                pe,
                va,
                size as int,
                clear_all,
                0,
            ) == staged_from(
                StagedModel { bytes: bytes@, l: l@, pointers: pointers@ },
                pe,
                va,
                size as int,
                clear_all,
                i as int,
            ),
        decreases pe.base_relocations@.len() - i,
    {
        let br = pe.base_relocations[i];
        let n: usize = bytes.len();
        if arch_marks_pointer(pe.arch, br.kind) && br.va >= va && br.va - va <= size && w as u64
            <= size - (br.va - va) && br.va - va <= n as u64 && w <= n - (br.va - va) as usize {
            let off: usize = (br.va - va) as usize;
            let target: u64 = match pe.arch {
                PeArch::X86_64 => read_u64_le(bytes.as_slice(), off),
                PeArch::X86 => read_u32_le(bytes.as_slice(), off) as u64,
            };
            let found = pe.symbols.resolve_data(target);
            match found {
                Some((name, addend)) => {
                    proof {
                        pe.symbols.lemma_addends(target);
                    }
                    let sym = l.undefined(name.as_str(), name.as_str(), SymbolKind::Data);
                    zero_fill(bytes, off, w);
                    pointers.push(Pointer { offset: off as u64, symbol: sym, addend });
                },
                None => {
                    if clear_all {
                        zero_fill(bytes, off, w);
                    }
                },
            }
        }
        i = i + 1;
    }
    pointers
}

/// With the relocations of the pointers from `i` on, or none where one does not
/// fit its section. The pointers were found in bytes that begin at `base`.
pub open spec fn with_pointers(
    l: LinkageModel,
    pointers: Seq<Pointer>,
    base: u64,
    sid: usize,
    kind: RelocationType,
    i: int,
) -> Option<LinkageModel>
    decreases pointers.len() - i,
{
    if i < 0 || i >= pointers.len() {
        Some(l)
    } else {
        let p = pointers[i];
        let at = (base + p.offset) as u64;
        if l.obj.takes_relocation(sid as nat, at, kind, p.addend as int) {
            with_pointers(
                l.over(
                    l.obj.with_relocation(
                        sid as nat,
                        at,
                        p.symbol as nat,
                        kind,
                        p.addend as int,
                    ),
                ),
                pointers,
                base,
                sid,
                kind,
                i + 1,
            )
        } else {
            None
        }
    }
}

fn add_pointers(
    l: &mut Linkage,
    pointers: &Vec<Pointer>,
    base: u64,
    sid: usize,
    arch: PeArch,
    n: usize,
) -> (added: bool)
    requires
        old(l).wf(),
        filling(old(l)@.obj, arch, sid),
        pointers_fit(pointers@, pointer_width(arch), n as nat, old(l)@.obj.symbols.len()),
        base + n <= usize::MAX,
    ensures
        final(l).wf(),
        added == (with_pointers(old(l)@, pointers@, base, sid, pointer_reloc(arch), 0) is Some),
        added ==> with_pointers(old(l)@, pointers@, base, sid, pointer_reloc(arch), 0) == Some(
            final(l)@,
        ),
        filling(final(l)@.obj, arch, sid),
        final(l)@.obj.sections.len() == old(l)@.obj.sections.len(),
        final(l)@.obj.symbols == old(l)@.obj.symbols,
{
    let kind = arch_pointer_reloc(arch);
    let mut i: usize = 0;
    while i < pointers.len()
        invariant
            l.wf(),
            filling(l@.obj, arch, sid),
            kind == pointer_reloc(arch),
            pointers_fit(pointers@, pointer_width(arch), n as nat, l@.obj.symbols.len()),
            base + n <= usize::MAX,
            i <= pointers@.len(),
            l@.obj.sections.len() == old(l)@.obj.sections.len(),
            l@.obj.symbols == old(l)@.obj.symbols,
            with_pointers(old(l)@, pointers@, base, sid, kind, 0) == with_pointers(
                l@,
                pointers@,
                base,
                sid,
                kind,
                i as int,
            ),
        decreases pointers@.len() - i,
    {
        let p = pointers[i];
        let added = l.obj.add_relocation(sid, base + p.offset, p.symbol, p.addend, kind);
        if !added {
            return false;
        }
        i = i + 1;
    }
    true
}

/// With the relocations of the references from `i` on, or none where one does
/// not fit its section. Branches count from the end of their field, which the
/// writer adds again.
pub open spec fn with_refs(
    l: LinkageModel,
    refs: Seq<CodeRefView>,
    base: u64,
    sid: usize,
    kind: RelocationType,
    i: int,
) -> Option<LinkageModel>
    decreases refs.len() - i,
{
    if i < 0 || i >= refs.len() {
        Some(l)
    } else {
        let r = refs[i];
        let m = l.with_reference(r.target, r.target, SymbolKind::Data);
        let at = (base + r.offset) as u64;
        if m.obj.takes_relocation(sid as nat, at, kind, r.addend - 4) {
            with_refs(
                m.over(
                    m.obj.with_relocation(
                        sid as nat,
                        at,
                        l.number(r.target) as nat,
                        kind,
                        r.addend - 4,
                    ),
                ),
                refs,
                base,
                sid,
                kind,
                i + 1,
            )
        } else {
            None
        }
    }
}

fn add_refs(
    l: &mut Linkage,
    refs: &CodeRefs,
    base: u64,
    sid: usize,
    arch: PeArch,
    n: usize,
) -> (added: bool)
    requires
        old(l).wf(),
        filling(old(l)@.obj, arch, sid),
        refs_fit(refs.refs@, n as nat),
        base + n <= usize::MAX,
    ensures
        final(l).wf(),
        added == (with_refs(old(l)@, refs@.refs, base, sid, branch_reloc(arch), 0) is Some),
        added ==> with_refs(old(l)@, refs@.refs, base, sid, branch_reloc(arch), 0) == Some(
            final(l)@,
        ),
        filling(final(l)@.obj, arch, sid),
        final(l)@.obj.sections.len() == old(l)@.obj.sections.len(),
{
    let kind = arch_branch_reloc(arch);
    let mut i: usize = 0;
    while i < refs.refs.len()
        invariant
            l.wf(),
            filling(l@.obj, arch, sid),
            kind == branch_reloc(arch),
            refs_fit(refs.refs@, n as nat),
            base + n <= usize::MAX,
            i <= refs.refs@.len(),
            l@.obj.sections.len() == old(l)@.obj.sections.len(),
            with_refs(old(l)@, refs@.refs, base, sid, kind, 0) == with_refs(
                l@,
                refs@.refs,
                base,
                sid,
                kind,
                i as int,
            ),
        decreases refs.refs@.len() - i,
    {
        let r = &refs.refs[i];
        assert(refs@.refs[i as int] == r@);
        let sym = l.reference(r.target.as_str(), r.target.as_str(), SymbolKind::Data);
        let added = l.obj.add_relocation(sid, base + r.offset, sym, r.addend - 4, kind);
        if !added {
            return false;
        }
        i = i + 1;
    }
    true
}

/// The keys of the `size` addresses from `va` on, in ascending order.
pub open spec fn keys_in(keys: Set<u64>, va: u64, size: int) -> Seq<u64> {
    if size <= 0 {
        Seq::empty()
    } else if va + size - 1 > u64::MAX {
        keys_between(keys, va, u64::MAX)
    } else {
        keys_between(keys, va, (va + size - 1) as u64)
    }
}

fn variables_in(m: &BTreeMap<u64, PeVariable>, va: u64, size: u32) -> (r: Vec<u64>)
    ensures
        r@ == keys_in(m@.dom(), va, size as int),
        forall|i: int|
            0 <= i < r@.len() ==> m@.dom().contains(#[trigger] r@[i]) && va <= r@[i] < va + size,
{
    if size == 0 {
        return Vec::new();
    }
    let hi: u64 = va.saturating_add(size as u64 - 1);
    let r = keys_in_range(m, va, hi);
    proof {
        lemma_keys_between(m@.dom(), va, hi);
        assert forall|i: int| 0 <= i < r@.len() implies m@.dom().contains(#[trigger] r@[i]) && va
            <= r@[i] < va + size by {
            assert(keys_between(m@.dom(), va, hi).contains(r@[i]));
        }
    }
    r
}

/// With a label for each datum, from `i` on, inside a function at `va` whose code
/// begins at `base`.
pub open spec fn with_labels(
    l: LinkageModel,
    keys: Seq<u64>,
    variables: Map<u64, PeVariable>,
    va: u64,
    base: u64,
    sid: usize,
    i: int,
) -> LinkageModel
    decreases keys.len() - i,
{
    if i < 0 || i >= keys.len() {
        l
    } else {
        let k = keys[i];
        let v = variables[k];
        with_labels(
            if k == va {
                l
            } else {
                l.with_definition(
                    v.name@,
                    v.name@,
                    (base + (k - va)) as u64,
                    0,
                    SymbolKind::Label,
                    v.is_public,
                    false,
                    sid,
                )
            },
            keys,
            variables,
            va,
            base,
            sid,
            i + 1,
        )
    }
}

fn add_labels(
    l: &mut Linkage,
    variables: &BTreeMap<u64, PeVariable>,
    va: u64,
    size: u32,
    base: u64,
    sid: usize,
)
    requires
        old(l).wf(),
        sid < old(l)@.obj.sections.len(),
        base + size <= usize::MAX,
    ensures
        final(l).wf(),
        final(l)@ == with_labels(
            old(l)@,
            keys_in(variables@.dom(), va, size as int),
            variables@,
            va,
            base,
            sid,
            0,
        ),
        final(l)@.obj.sections == old(l)@.obj.sections,
        final(l)@.obj.format == old(l)@.obj.format,
        final(l)@.obj.machine == old(l)@.obj.machine,
        final(l)@.obj.symbols.len() >= old(l)@.obj.symbols.len(),
{
    let keys = variables_in(variables, va, size);
    let mut i: usize = 0;
    while i < keys.len()
        invariant
            l.wf(),
            sid < l@.obj.sections.len(),
            base + size <= usize::MAX,
            i <= keys@.len(),
            l@.obj.sections == old(l)@.obj.sections,
            l@.obj.format == old(l)@.obj.format,
            l@.obj.machine == old(l)@.obj.machine,
            l@.obj.symbols.len() >= old(l)@.obj.symbols.len(),
            forall|j: int|
                0 <= j < keys@.len() ==> variables@.dom().contains(#[trigger] keys@[j]) && va
                    <= keys@[j] < va + size,
            with_labels(old(l)@, keys@, variables@, va, base, sid, 0) == with_labels(
                l@,
                keys@,
                variables@,
                va,
                base,
                sid,
                i as int,
            ),
        decreases keys@.len() - i,
    {
        let k = keys[i];
        if k != va {
            if let Some(v) = variables.get(&k) {
                let name = v.name.as_str();
                let value: u64 = base + (k - va);
                l.define(name, name, value, 0, SymbolKind::Label, v.is_public, false, sid);
            }
        }
        i = i + 1;
    }
}

/// The object of a unit, as far as it is built.
pub ghost struct UnitModel {
    pub l: LinkageModel,
    pub stats: EmitStats,
}

/// The pointers in the code of a function, staged after its references were
/// cleared.
pub open spec fn function_staged(
    l: LinkageModel,
    pe: &PeContext,
    f: PeFunction,
    code: Seq<u8>,
) -> StagedModel {
    let refs = code_refs(pe.arch, code, f.va, &pe.symbols);
    staged_from(
        StagedModel {
            bytes: cleared_from(code, refs.refs, 0),
            l,
            pointers: Seq::empty(),
        },
        pe,
        f.va,
        f.size as int,
        false,
        0,
    )
}

/// The object once the code of a function and the symbols in it are added to
/// section `sid`.
pub open spec fn function_placed(
    s: StagedModel,
    pe: &PeContext,
    f: PeFunction,
    base: u64,
    sid: usize,
) -> LinkageModel {
    let placed = s.l.over(s.l.obj.with_data(sid as nat, s.bytes, code_align(pe.arch)));
    let named = placed.with_definition(
        f.name@,
        f.name@,
        base,
        f.size as u64,
        SymbolKind::Text,
        f.is_public,
        false,
        sid,
    );
    with_labels(
        named,
        keys_in(pe.symbols.variables@.dom(), f.va, f.size as int),
        pe.symbols.variables@,
        f.va,
        base,
        sid,
        0,
    )
}

/// What a function adds to the object of its unit. One that ends beyond the
/// section's data is left out.
pub open spec fn with_function(
    u: UnitModel,
    pe: &PeContext,
    text: PeSection,
    f: PeFunction,
    sid: usize,
) -> Option<UnitModel> {
    let start = f.va - text.va;
    if start + f.size > text.data@.len() {
        Some(u)
    } else {
        let code = text.data@.subrange(start, start + f.size);
        let refs = code_refs(pe.arch, code, f.va, &pe.symbols);
        let staged = function_staged(u.l, pe, f, code);
        let base = staged.l.obj.append_offset(sid as nat, code_align(pe.arch)) as u64;
        let placed = function_placed(staged, pe, f, base, sid);
        match with_pointers(placed, staged.pointers, base, sid, pointer_reloc(pe.arch), 0) {
            None => None,
            Some(pointed) => match with_refs(
                pointed,
                refs.refs,
                base,
                sid,
                branch_reloc(pe.arch),
                0,
            ) {
                None => None,
                Some(l) => Some(
                    UnitModel {
                        l,
                        stats: EmitStats {
                            text_bytes: u.stats.text_bytes.wrapping_add(f.size as u64),
                            relocations: u.stats.relocations.wrapping_add(
                                staged.pointers.len() as usize,
                            ).wrapping_add(refs.refs.len() as usize),
                            unresolved_calls: u.stats.unresolved_calls.wrapping_add(
                                refs.unresolved_calls,
                            ),
                            unresolved_rip_refs: u.stats.unresolved_rip_refs.wrapping_add(
                                refs.unresolved_rip_refs,
                            ),
                            instructions: u.stats.instructions.wrapping_add(refs.instructions),
                            ..u.stats
                        },
                    },
                ),
            },
        }
    }
}

fn emit_function(
    l: &mut Linkage,
    stats: &mut EmitStats,
    pe: &PeContext,
    text: &PeSection,
    f: &PeFunction,
    sid: usize,
) -> (added: bool)
    requires
        old(l).wf(),
        pe.wf(),
        filling(old(l)@.obj, pe.arch, sid),
        text.spec_contains_va(f.va),
    ensures
        final(l).wf(),
        filling(final(l)@.obj, pe.arch, sid),
        final(l)@.obj.sections.len() == old(l)@.obj.sections.len(),
        ({
            let next = with_function(
                UnitModel { l: old(l)@, stats: *old(stats) },
                pe,
                *text,
                *f,
                sid,
            );
            &&& added == (next is Some)
            &&& added ==> next == Some(UnitModel { l: final(l)@, stats: *final(stats) })
        }),
{
    let start: u64 = f.va - text.va;
    let n: usize = text.data.len();
    if start > n as u64 || f.size as u64 > n as u64 - start {
        return true;
    }
    let size: usize = f.size as usize;
    let mut code = copy_range(text.data.as_slice(), start as usize, start as usize + size);
    let ghost original = code@;
    let refs = find_code_refs(pe.arch, code.as_slice(), f.va, &pe.symbols);
    clear_refs(&mut code, &refs);
    let pointers = stage_pointers(l, &mut code, pe, f.va, f.size as u64, false);
    let ghost staged = function_staged(old(l)@, pe, *f, original);
    assert(staged == (StagedModel { bytes: code@, l: l@, pointers: pointers@ }));
    let align: u64 = match pe.arch {
        PeArch::X86_64 => 1,
        PeArch::X86 => 4,
    };
    let base = l.obj.append_data(sid, code.as_slice(), align);
    l.define(
        f.name.as_str(),
        f.name.as_str(),
        base,
        f.size as u64,
        SymbolKind::Text,
        f.is_public,
        false,
        sid,
    );
    add_labels(l, &pe.symbols.variables, f.va, f.size, base, sid);
    assert(l@ == function_placed(staged, pe, *f, base, sid));
    if !add_pointers(l, &pointers, base, sid, pe.arch, size) {
        return false;
    }
    if !add_refs(l, &refs, base, sid, pe.arch, size) {
        return false;
    }
    assert(refs@.refs.len() == refs.refs@.len());
    stats.text_bytes = stats.text_bytes.wrapping_add(f.size as u64);
    stats.relocations = stats.relocations.wrapping_add(pointers.len()).wrapping_add(
        refs.refs.len(),
    );
    stats.unresolved_calls = stats.unresolved_calls.wrapping_add(refs.unresolved_calls);
    stats.unresolved_rip_refs = stats.unresolved_rip_refs.wrapping_add(refs.unresolved_rip_refs);
    stats.instructions = stats.instructions.wrapping_add(refs.instructions);
    true
}

/// The functions among the first `n` that take up space in `text`, with their
/// addresses and positions.
pub open spec fn live_among(functions: Seq<PeFunction>, text: PeSection, n: int) -> Seq<
    (u64, usize),
>
    decreases n,
{
    if n <= 0 {
        Seq::empty()
    } else {
        let before = live_among(functions, text, n - 1);
        let f = functions[n - 1];
        if f.size > 0 && text.spec_contains_va(f.va) {
            before.push((f.va, (n - 1) as usize))
        } else {
            before
        }
    }
}

/// The functions of a unit that take up space in `text`, by address.
pub open spec fn live_functions(cu: &PeCompilationUnit, text: PeSection) -> Seq<(u64, usize)> {
    stable_sorted(
        live_among(cu.functions@, text, cu.functions@.len() as int),
        by_address(),
    )
}

/// The positions are those of functions in `text`.
pub open spec fn live_wf(
    live: Seq<(u64, usize)>,
    functions: Seq<PeFunction>,
    text: PeSection,
) -> bool {
    forall|i: int|
        0 <= i < live.len() ==> (#[trigger] live[i]).1 < functions.len()
            && text.spec_contains_va(functions[live[i].1 as int].va)
            && functions[live[i].1 as int].size > 0
}

fn find_live(cu: &PeCompilationUnit, text: &PeSection) -> (live: Vec<(u64, usize)>)
    ensures
        live@ == live_functions(cu, *text),
        live_wf(live@, cu.functions@, *text),
{
    let mut live: Vec<(u64, usize)> = Vec::new();
    let mut i: usize = 0;
    while i < cu.functions.len()
        invariant
            i <= cu.functions@.len(),
            live@ == live_among(cu.functions@, *text, i as int),
            live_wf(live@, cu.functions@, *text),
        decreases cu.functions@.len() - i,
    {
        let f = &cu.functions[i];
        if f.size > 0 && text.contains_va(f.va) {
            live.push((f.va, i));
        }
        i = i + 1;
    }
    let ghost unsorted = live@;
    sort_by_address(&mut live);
    proof {
        assert forall|k: int| 0 <= k < live@.len() implies (#[trigger] live@[k]).1
            < cu.functions@.len() && text.spec_contains_va(cu.functions@[live@[k].1 as int].va)
            && cu.functions@[live@[k].1 as int].size > 0 by {
            crate::ordered::lemma_stable_sorted_contains(unsorted, by_address(), live@[k]);
            assert(live@.contains(live@[k]));
            let j = choose|j: int| 0 <= j < unsorted.len() && unsorted[j] == live@[k];
            assert(unsorted[j].1 < cu.functions@.len());
        }
    }
    live
}

/// What the functions from `i` on add to the object of their unit.
pub open spec fn with_functions(
    u: UnitModel,
    pe: &PeContext,
    cu: &PeCompilationUnit,
    text: PeSection,
    live: Seq<(u64, usize)>,
    sid: usize,
    i: int,
) -> Option<UnitModel>
    decreases live.len() - i,
{
    if i < 0 || i >= live.len() {
        Some(u)
    } else {
        match with_function(u, pe, text, cu.functions@[live[i].1 as int], sid) {
            None => None,
            Some(v) => with_functions(v, pe, cu, text, live, sid, i + 1),
        }
    }
}

fn emit_functions(
    l: &mut Linkage,
    stats: &mut EmitStats,
    pe: &PeContext,
    cu: &PeCompilationUnit,
    text: &PeSection,
    live: &Vec<(u64, usize)>,
    sid: usize,
) -> (added: bool)
    requires
        old(l).wf(),
        pe.wf(),
        filling(old(l)@.obj, pe.arch, sid),
        live_wf(live@, cu.functions@, *text),
    ensures
        final(l).wf(),
        filling(final(l)@.obj, pe.arch, sid),
        final(l)@.obj.sections.len() == old(l)@.obj.sections.len(),
        ({
            let next = with_functions(
                UnitModel { l: old(l)@, stats: *old(stats) },
                pe,
                cu,
                *text,
                live@,
                sid,
                0,
            );
            &&& added == (next is Some)
            &&& added ==> next == Some(UnitModel { l: final(l)@, stats: *final(stats) })
        }),
{
    let mut i: usize = 0;
    while i < live.len()
        invariant
            l.wf(),
            pe.wf(),
            filling(l@.obj, pe.arch, sid),
            live_wf(live@, cu.functions@, *text),
            l@.obj.sections.len() == old(l)@.obj.sections.len(),
            i <= live@.len(),
            with_functions(
                UnitModel { l: old(l)@, stats: *old(stats) },
                pe,
                cu,
                *text,
                live@,
                sid,
                0,
            ) == with_functions(
                UnitModel { l: l@, stats: *stats },
                pe,
                cu,
                *text,
                live@,
                sid,
                i as int,
            ),
        decreases live@.len() - i,
    {
        let f = &cu.functions[live[i].1];
        if !emit_function(l, stats, pe, text, f, sid) {
            return false;
        }
        i = i + 1;
    }
    true
}

/// `IMAGE_SCN_MEM_WRITE`.
pub const SCN_MEM_WRITE: u32 = 0x8000_0000;

/// `IMAGE_SCN_CNT_UNINITIALIZED_DATA`.
pub const SCN_CNT_UNINIT: u32 = 0x0000_0080;

/// What a section of the image holds, by its characteristics.
pub open spec fn data_kind(characteristics: u32) -> SectionKind {
    if characteristics & SCN_MEM_WRITE != 0 && characteristics & SCN_CNT_UNINIT != 0 {
        SectionKind::UninitializedData
    } else if characteristics & SCN_MEM_WRITE != 0 {
        SectionKind::Data
    } else {
        SectionKind::ReadOnlyData
    }
}

fn section_data_kind(characteristics: u32) -> (k: SectionKind)
    ensures
        k == data_kind(characteristics),
{
    if characteristics & SCN_MEM_WRITE != 0 && characteristics & SCN_CNT_UNINIT != 0 {
        SectionKind::UninitializedData
    } else if characteristics & SCN_MEM_WRITE != 0 {
        SectionKind::Data
    } else {
        SectionKind::ReadOnlyData
    }
}

/// With a symbol for each datum, from `i` on, of a contribution at `va`.
pub open spec fn with_data_symbols(
    m: ObjectModel,
    keys: Seq<u64>,
    variables: Map<u64, PeVariable>,
    va: u64,
    sid: usize,
    i: int,
) -> ObjectModel
    decreases keys.len() - i,
{
    if i < 0 || i >= keys.len() {
        m
    } else {
        let v = variables[keys[i]];
        with_data_symbols(
            m.with_symbol(
                symbol(
                    v.name@,
                    (keys[i] - va) as u64,
                    0,
                    SymbolKind::Data,
                    v.is_public,
                    false,
                    Some(sid),
                ),
            ),
            keys,
            variables,
            va,
            sid,
            i + 1,
        )
    }
}

fn add_data_symbols(
    l: &mut Linkage,
    variables: &BTreeMap<u64, PeVariable>,
    va: u64,
    size: u32,
    sid: usize,
)
    requires
        old(l).wf(),
        sid < old(l)@.obj.sections.len(),
    ensures
        final(l).wf(),
        final(l)@ == old(l)@.over(
            with_data_symbols(
                old(l)@.obj,
                keys_in(variables@.dom(), va, size as int),
                variables@,
                va,
                sid,
                0,
            ),
        ),
        final(l)@.obj.sections == old(l)@.obj.sections,
        final(l)@.obj.format == old(l)@.obj.format,
        final(l)@.obj.machine == old(l)@.obj.machine,
{
    let keys = variables_in(variables, va, size);
    let mut i: usize = 0;
    while i < keys.len()
        invariant
            l.wf(),
            sid < l@.obj.sections.len(),
            i <= keys@.len(),
            l@ == old(l)@.over(l@.obj),
            l@.obj.sections == old(l)@.obj.sections,
            l@.obj.format == old(l)@.obj.format,
            l@.obj.machine == old(l)@.obj.machine,
            forall|j: int|
                0 <= j < keys@.len() ==> variables@.dom().contains(#[trigger] keys@[j]) && va
                    <= keys@[j] < va + size,
            with_data_symbols(old(l)@.obj, keys@, variables@, va, sid, 0) == with_data_symbols(
                l@.obj,
                keys@,
                variables@,
                va,
                sid,
                i as int,
            ),
        decreases keys@.len() - i,
    {
        let k = keys[i];
        if let Some(v) = variables.get(&k) {
            l.obj.add_symbol(
                v.name.as_str(),
                k - va,
                0,
                SymbolKind::Data,
                v.is_public,
                false,
                Some(sid),
            );
        }
        i = i + 1;
    }
}

/// True when a contribution begins in the section of its name, or at its end, where
/// its bytes are taken from that section.
pub open spec fn contribution_fits(pe: &PeContext, c: PeContrib) -> bool {
    c.section_name@ == ".text"@ || match section_index(pe.sections@, c.section_name@) {
        Some(k) => {
            let s = pe.sections@[k];
            data_kind(s.characteristics) == SectionKind::UninitializedData || s.va <= c.va && c.va
                - s.va <= s.data@.len()
        },
        None => true,
    }
}

/// True when the image has a `.text` section and the unit a function in it.
pub open spec fn has_code(pe: &PeContext, cu: &PeCompilationUnit) -> bool {
    match section_index(pe.sections@, ".text"@) {
        Some(k) => live_functions(cu, pe.sections@[k]).len() > 0,
        None => false,
    }
}

/// True when every contribution of a unit with code begins in the section of its name.
/// The contributions of other units are not read.
pub open spec fn unit_fits(pe: &PeContext, cu: &PeCompilationUnit) -> bool {
    has_code(pe, cu) ==> forall|i: int|
        0 <= i < cu.contributions@.len() ==> contribution_fits(pe, #[trigger] cu.contributions@[i])
}

/// Tests whether the contributions of a unit lie as [`emit_pe_cu`] needs it.
pub fn contributions_fit(pe: &PeContext, cu: &PeCompilationUnit) -> (b: bool)
    ensures
        b == unit_fits(pe, cu),
{
    match find_section(&pe.sections, ".text") {
        Some(k) => {
            let live = find_live(cu, &pe.sections[k]);
            if live.len() == 0 {
                return true;
            }
        },
        None => return true,
    }
    let mut i: usize = 0;
    while i < cu.contributions.len()
        invariant
            has_code(pe, cu),
            i <= cu.contributions@.len(),
            forall|j: int| 0 <= j < i ==> contribution_fits(pe, #[trigger] cu.contributions@[j]),
        decreases cu.contributions@.len() - i,
    {
        let c = &cu.contributions[i];
        if !str_eq(c.section_name.as_str(), ".text") {
            if let Some(k) = find_section(&pe.sections, c.section_name.as_str()) {
                let s = &pe.sections[k];
                let kind = section_data_kind(s.characteristics);
                if !matches!(kind, SectionKind::UninitializedData) {
                    if c.va < s.va || c.va - s.va > s.data.len() as u64 {
                        assert(!contribution_fits(pe, cu.contributions@[i as int]));
                        return false;
                    }
                }
            }
        }
        i = i + 1;
    }
    true
}

/// The bytes of a contribution, as far as its section has them.
pub open spec fn contribution_bytes(s: PeSection, c: PeContrib) -> Seq<u8> {
    let start = c.va - s.va;
    let end = if start + c.size <= s.data@.len() {
        start + c.size
    } else {
        s.data@.len() as int
    };
    s.data@.subrange(start, end)
}

/// What a contribution outside `.text` adds to the object of its unit: a section
/// of its name, with relocations for the pointers in it, and its data symbols.
pub open spec fn with_contribution(u: UnitModel, pe: &PeContext, c: PeContrib) -> Option<
    UnitModel,
> {
    if c.section_name@ == ".text"@ {
        Some(u)
    } else {
        match section_index(pe.sections@, c.section_name@) {
            None => Some(u),
            Some(k) => {
                let s = pe.sections@[k];
                let kind = data_kind(s.characteristics);
                let sid = u.l.obj.sections.len() as usize;
                let opened = u.l.over(u.l.obj.with_section(""@, c.section_name@, kind));
                let keys = keys_in(pe.symbols.variables@.dom(), c.va, c.size as int);
                if kind == SectionKind::UninitializedData {
                    let filled = opened.obj.with_bss(sid as nat, c.size as u64, 1);
                    Some(
                        UnitModel {
                            l: opened.over(
                                with_data_symbols(
                                    filled,
                                    keys,
                                    pe.symbols.variables@,
                                    c.va,
                                    sid,
                                    0,
                                ),
                            ),
                            ..u
                        },
                    )
                } else {
                    let staged = staged_from(
                        StagedModel {
                            bytes: contribution_bytes(s, c),
                            l: opened,
                            pointers: Seq::empty(),
                        },
                        pe,
                        c.va,
                        c.size as int,
                        true,
                        0,
                    );
                    let filled = staged.l.over(
                        staged.l.obj.with_data(sid as nat, staged.bytes, 1),
                    );
                    match with_pointers(
                        filled,
                        staged.pointers,
                        0,
                        sid,
                        pointer_reloc(pe.arch),
                        0,
                    ) {
                        None => None,
                        Some(l) => Some(
                            UnitModel {
                                l: l.over(
                                    with_data_symbols(
                                        l.obj,
                                        keys,
                                        pe.symbols.variables@,
                                        c.va,
                                        sid,
                                        0,
                                    ),
                                ),
                                stats: EmitStats {
                                    relocations: u.stats.relocations.wrapping_add(
                                        staged.pointers.len() as usize,
                                    ),
                                    ..u.stats
                                },
                            },
                        ),
                    }
                }
            },
        }
    }
}

fn emit_contribution(
    l: &mut Linkage,
    stats: &mut EmitStats,
    pe: &PeContext,
    c: &PeContrib,
) -> (added: bool)
    requires
        old(l).wf(),
        pe.wf(),
        contribution_fits(pe, *c),
        old(l)@.obj.format == ObjectFormat::Coff,
        old(l)@.obj.machine == machine_of(pe.arch),
    ensures
        final(l).wf(),
        final(l)@.obj.format == ObjectFormat::Coff,
        final(l)@.obj.machine == machine_of(pe.arch),
        ({
            let next = with_contribution(
                UnitModel { l: old(l)@, stats: *old(stats) },
                pe,
                *c,
            );
            &&& added == (next is Some)
            &&& added ==> next == Some(UnitModel { l: final(l)@, stats: *final(stats) })
        }),
{
    if str_eq(c.section_name.as_str(), ".text") {
        return true;
    }
    let k = match find_section(&pe.sections, c.section_name.as_str()) {
        Some(k) => k,
        None => return true,
    };
    let s = &pe.sections[k];
    let kind = section_data_kind(s.characteristics);
    let sid = l.obj.add_section("", c.section_name.as_str(), kind);
    let ghost opened = l@;
    if matches!(kind, SectionKind::UninitializedData) {
        l.obj.append_bss(sid, c.size as u64, 1);
    } else {
        let start: usize = (c.va - s.va) as usize;
        let n: usize = s.data.len();
        let end: usize = if c.size as u64 <= (n - start) as u64 {
            start + c.size as usize
        } else {
            n
        };
        let mut bytes = copy_range(s.data.as_slice(), start, end);
        let len: usize = end - start;
        let pointers = stage_pointers(l, &mut bytes, pe, c.va, c.size as u64, true);
        let base = l.obj.append_data(sid, bytes.as_slice(), 1);
        assert(base == 0);
        if !add_pointers(l, &pointers, 0, sid, pe.arch, len) {
            return false;
        }
        stats.relocations = stats.relocations.wrapping_add(pointers.len());
    }
    add_data_symbols(l, &pe.symbols.variables, c.va, c.size, sid);
    true
}

/// What the contributions from `i` on add to the object of their unit.
pub open spec fn with_contributions(
    u: UnitModel,
    pe: &PeContext,
    contributions: Seq<PeContrib>,
    i: int,
) -> Option<UnitModel>
    decreases contributions.len() - i,
{
    if i < 0 || i >= contributions.len() {
        Some(u)
    } else {
        match with_contribution(u, pe, contributions[i]) {
            None => None,
            Some(v) => with_contributions(v, pe, contributions, i + 1),
        }
    }
}

fn emit_contributions(
    l: &mut Linkage,
    stats: &mut EmitStats,
    pe: &PeContext,
    contributions: &Vec<PeContrib>,
) -> (added: bool)
    requires
        old(l).wf(),
        pe.wf(),
        forall|i: int|
            0 <= i < contributions@.len() ==> contribution_fits(pe, #[trigger] contributions@[i]),
        old(l)@.obj.format == ObjectFormat::Coff,
        old(l)@.obj.machine == machine_of(pe.arch),
    ensures
        final(l).wf(),
        ({
            let next = with_contributions(
                UnitModel { l: old(l)@, stats: *old(stats) },
                pe,
                contributions@,
                0,
            );
            &&& added == (next is Some)
            &&& added ==> next == Some(UnitModel { l: final(l)@, stats: *final(stats) })
        }),
{
    let mut i: usize = 0;
    while i < contributions.len()
        invariant
            l.wf(),
            pe.wf(),
            forall|j: int|
                0 <= j < contributions@.len() ==> contribution_fits(
                    pe,
                    #[trigger] contributions@[j],
                ),
            l@.obj.format == ObjectFormat::Coff,
            l@.obj.machine == machine_of(pe.arch),
            i <= contributions@.len(),
            with_contributions(
                UnitModel { l: old(l)@, stats: *old(stats) },
                pe,
                contributions@,
                0,
            ) == with_contributions(
                UnitModel { l: l@, stats: *stats },
                pe,
                contributions@,
                i as int,
            ),
        decreases contributions@.len() - i,
    {
        if !emit_contribution(l, stats, pe, &contributions[i]) {
            return false;
        }
        i = i + 1;
    }
    true
}

/// The object of a compilation unit and what went into it: the code of its
/// functions in one `.text` section, then a section for each of its other
/// contributions.
pub open spec fn unit_object(pe: &PeContext, cu: &PeCompilationUnit) -> Result<
    (ObjectModel, EmitStats),
    EmitError,
> {
    match section_index(pe.sections@, ".text"@) {
        None => Err(EmitError::NoText),
        Some(k) => {
            let text = pe.sections@[k];
            let live = live_functions(cu, text);
            let empty = LinkageModel::empty(ObjectFormat::Coff, machine_of(pe.arch));
            let opened = empty.over(empty.obj.with_section(""@, ".text"@, SectionKind::Text));
            if live.len() == 0 {
                Err(EmitError::NoFunctions)
            } else {
                match with_functions(
                    UnitModel { l: opened, stats: no_stats() },
                    pe,
                    cu,
                    text,
                    live,
                    0,
                    0,
                ) {
                    None => Err(EmitError::Relocation),
                    Some(coded) => match with_contributions(coded, pe, cu.contributions@, 0) {
                        None => Err(EmitError::Relocation),
                        Some(u) => Ok(
                            (
                                u.l.obj,
                                EmitStats {
                                    local_symbols: u.l.local.len() as usize,
                                    undef_symbols: u.l.undef.len() as usize,
                                    ..u.stats
                                },
                            ),
                        ),
                    },
                }
            }
        },
    }
}

/// What holds of the object of a unit before a function is added.
spec fn takes_function(u: UnitModel) -> bool {
    &&& u.l.obj.sections.len() == 1
    &&& u.l.obj.sections[0].size == u.l.obj.sections[0].data.len()
}

proof fn lemma_staged(
    s: StagedModel,
    pe: &PeContext,
    va: u64,
    size: int,
    clear_all: bool,
    i: int,
)
    requires
        0 <= i,
    ensures
        ({
            let end = staged_from(s, pe, va, size, clear_all, i);
            &&& grows(s.l.obj, end.l.obj)
            &&& end.l.obj.sections == s.l.obj.sections
            &&& end.bytes.len() == s.bytes.len()
        }),
    decreases pe.base_relocations@.len() - i,
{
    if i < pe.base_relocations@.len() {
        let br = pe.base_relocations@[i];
        let w = pointer_width(pe.arch);
        let off = br.va - va;
        if !pointer_within(pe.arch, br, va, size) || off + w > s.bytes.len() {
            lemma_staged(s, pe, va, size, clear_all, i + 1);
        } else {
            let cleared = patched(s.bytes, off, zeros(w));
            assert(cleared.len() == s.bytes.len());
            let next = match pe.symbols.spec_resolve_data(le_value(s.bytes, off, w) as u64) {
                Some((name, addend)) => StagedModel {
                    bytes: cleared,
                    l: s.l.with_undef(name, name, SymbolKind::Data),
                    pointers: s.pointers.push(
                        Pointer { offset: off as u64, symbol: s.l.undef_number(name), addend },
                    ),
                },
                None => StagedModel {
                    bytes: if clear_all {
                        cleared
                    } else {
                        s.bytes
                    },
                    ..s
                },
            };
            assert(grows(s.l.obj, next.l.obj));
            lemma_staged(next, pe, va, size, clear_all, i + 1);
            lemma_grows_on(
                s.l.obj,
                next.l.obj,
                staged_from(s, pe, va, size, clear_all, i).l.obj,
            );
        }
    }
}

proof fn lemma_with_pointers(
    l: LinkageModel,
    pointers: Seq<Pointer>,
    base: u64,
    sid: usize,
    kind: RelocationType,
    i: int,
)
    requires
        0 <= i,
        sid < l.obj.sections.len(),
        with_pointers(l, pointers, base, sid, kind, i) is Some,
    ensures
        grows(l.obj, with_pointers(l, pointers, base, sid, kind, i)->0.obj),
        keeps_sizes(l.obj, with_pointers(l, pointers, base, sid, kind, i)->0.obj),
    decreases pointers.len() - i,
{
    if i < pointers.len() {
        let p = pointers[i];
        let at = (base + p.offset) as u64;
        let n = p.symbol as nat;
        let added = l.obj.with_relocation(sid as nat, at, n, kind, p.addend as int);
        lemma_grows_by_relocation(l.obj, sid as nat, at, n, kind, p.addend as int);
        lemma_with_pointers(l.over(added), pointers, base, sid, kind, i + 1);
        let end = with_pointers(l, pointers, base, sid, kind, i)->0;
        lemma_grows_on(l.obj, added, end.obj);
        lemma_keeps_sizes_on(l.obj, added, end.obj);
    }
}

proof fn lemma_with_refs(
    l: LinkageModel,
    refs: Seq<CodeRefView>,
    base: u64,
    sid: usize,
    kind: RelocationType,
    i: int,
)
    requires
        0 <= i,
        sid < l.obj.sections.len(),
        with_refs(l, refs, base, sid, kind, i) is Some,
    ensures
        grows(l.obj, with_refs(l, refs, base, sid, kind, i)->0.obj),
        keeps_sizes(l.obj, with_refs(l, refs, base, sid, kind, i)->0.obj),
    decreases refs.len() - i,
{
    if i < refs.len() {
        let r = refs[i];
        let m = l.with_reference(r.target, r.target, SymbolKind::Data);
        lemma_grows_by_reference(l, r.target, r.target, SymbolKind::Data);
        let at = (base + r.offset) as u64;
        let n = l.number(r.target) as nat;
        let added = m.obj.with_relocation(sid as nat, at, n, kind, r.addend - 4);
        lemma_grows_by_relocation(m.obj, sid as nat, at, n, kind, r.addend - 4);
        lemma_grows_on(l.obj, m.obj, added);
        assert(keeps_sizes(l.obj, added));
        lemma_with_refs(m.over(added), refs, base, sid, kind, i + 1);
        let end = with_refs(l, refs, base, sid, kind, i)->0;
        lemma_grows_on(l.obj, added, end.obj);
        lemma_keeps_sizes_on(l.obj, added, end.obj);
    }
}

proof fn lemma_with_labels(
    l: LinkageModel,
    keys: Seq<u64>,
    variables: Map<u64, PeVariable>,
    va: u64,
    base: u64,
    sid: usize,
    i: int,
)
    requires
        0 <= i,
    ensures
        grows(l.obj, with_labels(l, keys, variables, va, base, sid, i).obj),
        with_labels(l, keys, variables, va, base, sid, i).obj.sections == l.obj.sections,
    decreases keys.len() - i,
{
    if i < keys.len() {
        let k = keys[i];
        let v = variables[k];
        let next = if k == va {
            l
        } else {
            l.with_definition(
                v.name@,
                v.name@,
                (base + (k - va)) as u64,
                0,
                SymbolKind::Label,
                v.is_public,
                false,
                sid,
            )
        };
        lemma_with_labels(next, keys, variables, va, base, sid, i + 1);
        assert(grows(l.obj, next.obj));
        lemma_grows_on(
            l.obj,
            next.obj,
            with_labels(l, keys, variables, va, base, sid, i).obj,
        );
    }
}

proof fn lemma_with_data_symbols(
    m: ObjectModel,
    keys: Seq<u64>,
    variables: Map<u64, PeVariable>,
    va: u64,
    sid: usize,
    i: int,
)
    requires
        0 <= i,
    ensures
        grows(m, with_data_symbols(m, keys, variables, va, sid, i)),
        with_data_symbols(m, keys, variables, va, sid, i).sections == m.sections,
        forall|k: int|
            i <= k < keys.len() ==> defines_datum(
                with_data_symbols(m, keys, variables, va, sid, i),
                variables[#[trigger] keys[k]].name@,
                (keys[k] - va) as u64,
                sid as nat,
            ),
    decreases keys.len() - i,
{
    if i < keys.len() {
        let v = variables[keys[i]];
        let next = m.with_symbol(
            symbol(
                v.name@,
                (keys[i] - va) as u64,
                0,
                SymbolKind::Data,
                v.is_public,
                false,
                Some(sid),
            ),
        );
        let end = with_data_symbols(m, keys, variables, va, sid, i);
        lemma_with_data_symbols(next, keys, variables, va, sid, i + 1);
        assert(grows(m, next));
        lemma_grows_on(m, next, end);
        let x = next.symbols[m.symbols.len() as int];
        let value = (keys[i] - va) as u64;
        assert(is_data_symbol(next, x, v.name@, value, sid as nat));
        lemma_datum_stays(next, end, v.name@, value, sid as nat);
    }
}

/// A key within the bounds is among those that lie there.
proof fn lemma_keys_in(keys: Set<u64>, va: u64, size: int, k: u64)
    requires
        keys.contains(k),
        va <= k < va + size,
    ensures
        keys_in(keys, va, size).contains(k),
{
    let hi = if va + size - 1 <= u64::MAX {
        (va + size - 1) as u64
    } else {
        u64::MAX
    };
    lemma_keys_between(keys, va, hi);
}

/// True when a contribution goes into the object of its unit as a section.
pub open spec fn is_section(pe: &PeContext, c: PeContrib) -> bool {
    c.section_name@ != ".text"@ && section_index(pe.sections@, c.section_name@) is Some
}

/// True when the object defines the datum at `va` in a section, as far behind its
/// start as the datum is behind the start of the contribution.
pub open spec fn defines_contributed(
    m: ObjectModel,
    pe: &PeContext,
    c: PeContrib,
    va: u64,
) -> bool {
    exists|section: nat| #[trigger]
        defines_datum(m, pe.symbols.variables@[va].name@, (va - c.va) as u64, section)
}

/// True when the bytes of a function lie in the section's data.
pub open spec fn is_whole(text: PeSection, f: PeFunction) -> bool {
    f.va - text.va + f.size <= text.data@.len()
}

/// The code of a function, with its references set to zero.
pub open spec fn cleared_code(pe: &PeContext, text: PeSection, f: PeFunction) -> Seq<u8> {
    let start = f.va - text.va;
    let code = text.data@.subrange(start, start + f.size);
    cleared_from(code, code_refs(pe.arch, code, f.va, &pe.symbols).refs, 0)
}

/// True when the object has a symbol for the function, and room for its code there.
pub open spec fn defines_live(
    m: ObjectModel,
    pe: &PeContext,
    text: PeSection,
    f: PeFunction,
) -> bool {
    defines_function(m, f.name@, f.size as u64, cleared_code(pe, text, f).len())
}

proof fn lemma_with_function(u: UnitModel, pe: &PeContext, text: PeSection, f: PeFunction)
    requires
        takes_function(u),
        with_function(u, pe, text, f, 0) is Some,
    ensures
        ({
            let v = with_function(u, pe, text, f, 0)->0;
            &&& takes_function(v)
            &&& grows(u.l.obj, v.l.obj)
            &&& addressable(v.l.obj) && is_whole(text, f) ==> defines_live(v.l.obj, pe, text, f)
        }),
{
    if is_whole(text, f) {
        let start = f.va - text.va;
        let code = text.data@.subrange(start, start + f.size);
        let refs = code_refs(pe.arch, code, f.va, &pe.symbols).refs;
        let cleared = cleared_code(pe, text, f);
        let staged = function_staged(u.l, pe, f, code);
        lemma_staged(
            StagedModel { bytes: cleared, l: u.l, pointers: Seq::empty() },
            pe,
            f.va,
            f.size as int,
            false,
            0,
        );
        let align = code_align(pe.arch);
        let base = staged.l.obj.append_offset(0, align) as u64;
        let variables = pe.symbols.variables@;
        let filled = staged.l.over(staged.l.obj.with_data(0, staged.bytes, align));
        lemma_grows_by_data(staged.l.obj, 0, staged.bytes, align);
        lemma_grows_on(u.l.obj, staged.l.obj, filled.obj);
        let named = filled.with_definition(
            f.name@,
            f.name@,
            base,
            f.size as u64,
            SymbolKind::Text,
            f.is_public,
            false,
            0,
        );
        assert(grows(filled.obj, named.obj));
        lemma_grows_on(u.l.obj, filled.obj, named.obj);
        let keys = keys_in(variables.dom(), f.va, f.size as int);
        let placed = function_placed(staged, pe, f, base, 0);
        lemma_with_labels(named, keys, variables, f.va, base, 0, 0);
        let kind = pointer_reloc(pe.arch);
        let pointed = with_pointers(placed, staged.pointers, base, 0, kind, 0)->0;
        lemma_with_pointers(placed, staged.pointers, base, 0, kind, 0);
        lemma_grows_on(named.obj, placed.obj, pointed.obj);
        let v = with_function(u, pe, text, f, 0)->0;
        lemma_with_refs(pointed, refs, base, 0, branch_reloc(pe.arch), 0);
        lemma_grows_on(named.obj, pointed.obj, v.l.obj);
        lemma_keeps_sizes_on(placed.obj, pointed.obj, v.l.obj);
        lemma_grows_on(u.l.obj, named.obj, v.l.obj);
        assert(v.l.obj.sections[0].size == placed.obj.sections[0].size);
        if addressable(v.l.obj) {
            let x = named.obj.symbols[filled.obj.symbols.len() as int];
            assert(v.l.obj.sections[0].data.len() <= u64::MAX);
            assert(x.value + cleared.len() == named.obj.sections[0].data.len());
            assert(is_code_symbol(named.obj, x, f.name@, f.size as u64, cleared.len()));
            lemma_function_stays(named.obj, v.l.obj, f.name@, f.size as u64, cleared);
        }
    }
}

proof fn lemma_with_functions(
    u: UnitModel,
    pe: &PeContext,
    cu: &PeCompilationUnit,
    text: PeSection,
    live: Seq<(u64, usize)>,
    i: int,
)
    requires
        takes_function(u),
        0 <= i <= live.len(),
        with_functions(u, pe, cu, text, live, 0, i) is Some,
    ensures
        ({
            let v = with_functions(u, pe, cu, text, live, 0, i)->0;
            &&& takes_function(v)
            &&& grows(u.l.obj, v.l.obj)
            &&& addressable(v.l.obj) ==> forall|k: int|
                i <= k < live.len() && is_whole(text, cu.functions@[(#[trigger] live[k]).1 as int])
                    ==> defines_live(v.l.obj, pe, text, cu.functions@[live[k].1 as int])
        }),
    decreases live.len() - i,
{
    if i < live.len() {
        let f = cu.functions@[live[i].1 as int];
        let next = with_function(u, pe, text, f, 0)->0;
        lemma_with_function(u, pe, text, f);
        lemma_with_functions(next, pe, cu, text, live, i + 1);
        let v = with_functions(u, pe, cu, text, live, 0, i)->0;
        lemma_grows_on(u.l.obj, next.l.obj, v.l.obj);
        if addressable(v.l.obj) {
            lemma_addressable(next.l.obj, v.l.obj);
            lemma_function_stays(
                next.l.obj,
                v.l.obj,
                f.name@,
                f.size as u64,
                cleared_code(pe, text, f),
            );
        }
    }
}

proof fn lemma_with_contribution(u: UnitModel, pe: &PeContext, c: PeContrib)
    requires
        u.l.obj.sections.len() <= usize::MAX,
        with_contribution(u, pe, c) is Some,
    ensures
        ({
            let v = with_contribution(u, pe, c)->0;
            &&& grows(u.l.obj, v.l.obj)
            &&& v.l.obj.sections.len() <= u.l.obj.sections.len() + 1
            &&& is_section(pe, c) ==> forall|va: u64|
                #![trigger pe.symbols.variables@.contains_key(va)]
                pe.symbols.variables@.contains_key(va) && c.va <= va < c.va + c.size
                    ==> defines_contributed(v.l.obj, pe, c, va)
        }),
{
    if is_section(pe, c) {
        let s = pe.sections@[section_index(pe.sections@, c.section_name@)->0];
        let kind = data_kind(s.characteristics);
        let sid = u.l.obj.sections.len() as usize;
        let opened = u.l.over(u.l.obj.with_section(""@, c.section_name@, kind));
        lemma_grows_by_section(u.l.obj, ""@, c.section_name@, kind);
        let variables = pe.symbols.variables@;
        let keys = keys_in(variables.dom(), c.va, c.size as int);
        let v = with_contribution(u, pe, c)->0;
        if kind == SectionKind::UninitializedData {
            let filled = opened.obj.with_bss(sid as nat, c.size as u64, 1);
            lemma_grows_by_bss(opened.obj, sid as nat, c.size as u64, 1);
            lemma_grows_on(u.l.obj, opened.obj, filled);
            lemma_with_data_symbols(filled, keys, variables, c.va, sid, 0);
            lemma_grows_on(u.l.obj, filled, v.l.obj);
        } else {
            let first = StagedModel {
                bytes: contribution_bytes(s, c),
                l: opened,
                pointers: Seq::empty(),
            };
            let staged = staged_from(first, pe, c.va, c.size as int, true, 0);
            lemma_staged(first, pe, c.va, c.size as int, true, 0);
            lemma_grows_on(u.l.obj, opened.obj, staged.l.obj);
            let filled = staged.l.over(staged.l.obj.with_data(sid as nat, staged.bytes, 1));
            lemma_grows_by_data(staged.l.obj, sid as nat, staged.bytes, 1);
            lemma_grows_on(u.l.obj, staged.l.obj, filled.obj);
            let kind = pointer_reloc(pe.arch);
            let l = with_pointers(filled, staged.pointers, 0, sid, kind, 0)->0;
            lemma_with_pointers(filled, staged.pointers, 0, sid, kind, 0);
            lemma_grows_on(u.l.obj, filled.obj, l.obj);
            lemma_with_data_symbols(l.obj, keys, variables, c.va, sid, 0);
            lemma_grows_on(u.l.obj, l.obj, v.l.obj);
        }
        assert forall|va: u64|
            #![trigger variables.contains_key(va)]
            variables.contains_key(va) && c.va <= va < c.va + c.size implies defines_contributed(
            v.l.obj,
            pe,
            c,
            va,
        ) by {
            lemma_keys_in(variables.dom(), c.va, c.size as int, va);
            let k = choose|k: int| 0 <= k < keys.len() && keys[k] == va;
            assert(defines_datum(
                v.l.obj,
                variables[keys[k]].name@,
                (keys[k] - c.va) as u64,
                sid as nat,
            ));
        }
    }
}

proof fn lemma_with_contributions(
    u: UnitModel,
    pe: &PeContext,
    contributions: Seq<PeContrib>,
    i: int,
)
    requires
        0 <= i <= contributions.len() <= usize::MAX,
        u.l.obj.sections.len() <= i + 1,
        with_contributions(u, pe, contributions, i) is Some,
    ensures
        grows(u.l.obj, with_contributions(u, pe, contributions, i)->0.l.obj),
        forall|j: int, va: u64|
            #![trigger contributions[j], pe.symbols.variables@.contains_key(va)]
            i <= j < contributions.len() && is_section(pe, contributions[j])
                && pe.symbols.variables@.contains_key(va) && contributions[j].va <= va
                < contributions[j].va + contributions[j].size ==> defines_contributed(
                with_contributions(u, pe, contributions, i)->0.l.obj,
                pe,
                contributions[j],
                va,
            ),
    decreases contributions.len() - i,
{
    if i < contributions.len() {
        let c = contributions[i];
        let next = with_contribution(u, pe, c)->0;
        let end = with_contributions(u, pe, contributions, i)->0;
        let variables = pe.symbols.variables@;
        lemma_with_contribution(u, pe, c);
        lemma_with_contributions(next, pe, contributions, i + 1);
        lemma_grows_on(u.l.obj, next.l.obj, end.l.obj);
        assert forall|va: u64|
            #![trigger variables.contains_key(va)]
            is_section(pe, c) && variables.contains_key(va) && c.va <= va < c.va
                + c.size implies defines_contributed(end.l.obj, pe, c, va) by {
            let value = (va - c.va) as u64;
            let section = choose|section: nat| #[trigger]
                defines_datum(next.l.obj, variables[va].name@, value, section);
            lemma_datum_stays(next.l.obj, end.l.obj, variables[va].name@, value, section);
        }
    }
}

/// The object of a unit defines every datum of the tables that lies in a
/// contribution of the unit to a data section of the image.
pub proof fn law_contributed_data_are_defined(pe: &PeContext, cu: &PeCompilationUnit)
    requires
        cu.contributions@.len() <= usize::MAX,
        unit_object(pe, cu) is Ok,
    ensures
        forall|j: int, va: u64|
            #![trigger cu.contributions@[j], pe.symbols.variables@.contains_key(va)]
            0 <= j < cu.contributions@.len() && is_section(pe, cu.contributions@[j])
                && pe.symbols.variables@.contains_key(va) && cu.contributions@[j].va <= va
                < cu.contributions@[j].va + cu.contributions@[j].size ==> defines_contributed(
                unit_object(pe, cu)->Ok_0.0,
                pe,
                cu.contributions@[j],
                va,
            ),
{
    let text = pe.sections@[section_index(pe.sections@, ".text"@)->0];
    let live = live_functions(cu, text);
    let empty = LinkageModel::empty(ObjectFormat::Coff, machine_of(pe.arch));
    let opened = empty.over(empty.obj.with_section(""@, ".text"@, SectionKind::Text));
    let start = UnitModel { l: opened, stats: no_stats() };
    lemma_with_functions(start, pe, cu, text, live, 0);
    let coded = with_functions(start, pe, cu, text, live, 0, 0)->0;
    lemma_with_contributions(coded, pe, cu.contributions@, 0);
}

/// The object of a unit has, for each live function whose bytes lie in the section's
/// data, a symbol with the function's name and size and room for its code there.
pub proof fn law_functions_are_defined(pe: &PeContext, cu: &PeCompilationUnit)
    requires
        cu.contributions@.len() <= usize::MAX,
        unit_object(pe, cu) is Ok,
        addressable(unit_object(pe, cu)->Ok_0.0),
    ensures
        ({
            let m = unit_object(pe, cu)->Ok_0.0;
            let text = pe.sections@[section_index(pe.sections@, ".text"@)->0];
            let live = live_functions(cu, text);
            forall|i: int|
                0 <= i < live.len() && is_whole(text, cu.functions@[(#[trigger] live[i]).1 as int])
                    ==> defines_live(m, pe, text, cu.functions@[live[i].1 as int])
        }),
{
    let m = unit_object(pe, cu)->Ok_0.0;
    let text = pe.sections@[section_index(pe.sections@, ".text"@)->0];
    let live = live_functions(cu, text);
    let empty = LinkageModel::empty(ObjectFormat::Coff, machine_of(pe.arch));
    let opened = empty.over(empty.obj.with_section(""@, ".text"@, SectionKind::Text));
    let start = UnitModel { l: opened, stats: no_stats() };
    lemma_with_functions(start, pe, cu, text, live, 0);
    let coded = with_functions(start, pe, cu, text, live, 0, 0)->0;
    lemma_with_contributions(coded, pe, cu.contributions@, 0);
    lemma_addressable(coded.l.obj, m);
    assert forall|i: int|
        0 <= i < live.len() && is_whole(
            text,
            cu.functions@[(#[trigger] live[i]).1 as int],
        ) implies defines_live(m, pe, text, cu.functions@[live[i].1 as int]) by {
        let f = cu.functions@[live[i].1 as int];
        lemma_function_stays(
            coded.l.obj,
            m,
            f.name@,
            f.size as u64,
            cleared_code(pe, text, f),
        );
    }
}

/// The file that a built object becomes, or why there is none.
pub open spec fn unit_file<S>(built: Result<(ObjectModel, S), EmitError>) -> Result<
    (Seq<u8>, S),
    EmitError,
> {
    match built {
        Err(e) => Err(e),
        Ok((m, stats)) => match written(m) {
            Ok(file) => Ok((file, stats)),
            Err(e) => Err(EmitError::Write(e)),
        },
    }
}

/// A file and what went into it, with the file as bytes.
pub open spec fn emitted<S>(r: Result<(Vec<u8>, S), EmitError>) -> Result<
    (Seq<u8>, S),
    EmitError,
> {
    match r {
        Ok((file, stats)) => Ok((file@, stats)),
        Err(e) => Err(e),
    }
}

/// Builds one COFF object for a compilation unit. The contributions of a unit with code
/// lie in the sections they name.
pub fn emit_pe_cu(pe: &PeContext, cu: &PeCompilationUnit) -> (r: Result<
    (Vec<u8>, EmitStats),
    EmitError,
>)
    requires
        pe.wf(),
        unit_fits(pe, cu),
    ensures
        emitted(r) == unit_file(unit_object(pe, cu)),
{
    let k = match find_section(&pe.sections, ".text") {
        Some(k) => k,
        None => return Err(EmitError::NoText),
    };
    let text = &pe.sections[k];
    let live = find_live(cu, text);
    if live.len() == 0 {
        return Err(EmitError::NoFunctions);
    }
    let mut l = Linkage::new(ObjectFormat::Coff, arch_machine(pe.arch));
    let mut stats = EmitStats::default();
    let sid = l.obj.add_section("", ".text", SectionKind::Text);
    if !emit_functions(&mut l, &mut stats, pe, cu, text, &live, sid) {
        return Err(EmitError::Relocation);
    }
    if !emit_contributions(&mut l, &mut stats, pe, &cu.contributions) {
        return Err(EmitError::Relocation);
    }
    stats.local_symbols = l.local.len();
    stats.undef_symbols = l.undef.len();
    match l.obj.write() {
        Ok(file) => Ok((file, stats)),
        Err(e) => Err(EmitError::Write(e)),
    }
}

/// What went into the object for shared data.
#[derive(Debug, Clone, Copy, PartialEq, Eq, Structural)]
pub struct SharedDataStats {
    pub rdata_bytes: u64,
    pub data_bytes: u64,
    pub bss_bytes: u64,
    pub addr64_relocs: usize,
}

impl Default for SharedDataStats {
    fn default() -> (s: Self)
        ensures
            s == no_shared_stats(),
    {
        SharedDataStats { rdata_bytes: 0, data_bytes: 0, bss_bytes: 0, addr64_relocs: 0 }
    }
}

/// Nothing emitted yet.
pub open spec fn no_shared_stats() -> SharedDataStats {
    SharedDataStats { rdata_bytes: 0, data_bytes: 0, bss_bytes: 0, addr64_relocs: 0 }
}

/// A section of the shared object, and the addresses it stands for.
#[derive(Debug, Clone, Copy, PartialEq, Eq, Structural)]
pub struct Slot {
    pub sid: usize,
    pub va: u64,
    pub size: u64,
}

/// The object for shared data, as far as it is built.
#[verifier::ext_equal]
pub ghost struct SharedModel {
    pub l: LinkageModel,
    pub slots: Seq<Slot>,
}

/// With the first section of the image called `name`, and a symbol at its start.
pub open spec fn with_shared_section(
    s: SharedModel,
    pe: &PeContext,
    name: Seq<char>,
    kind: SectionKind,
    start: Seq<char>,
) -> SharedModel {
    match section_index(pe.sections@, name) {
        None => s,
        Some(k) => {
            let section = pe.sections@[k];
            let sid = s.l.obj.sections.len() as usize;
            let opened = s.l.obj.with_section(""@, section.name@, kind);
            let filled = if kind == SectionKind::UninitializedData {
                opened.with_bss(sid as nat, section.virtual_size, 16)
            } else {
                opened.with_data(sid as nat, section.data@, 16)
            };
            SharedModel {
                l: s.l.over(
                    filled.with_symbol(
                        symbol(start, 0, 0, SymbolKind::Data, true, false, Some(sid)),
                    ),
                ),
                slots: s.slots.push(
                    Slot { sid, va: section.va, size: section.virtual_size },
                ),
            }
        },
    }
}

/// Virtual size of the first section called `name`.
pub open spec fn size_of_section(pe: &PeContext, name: Seq<char>) -> u64 {
    match section_index(pe.sections@, name) {
        None => 0,
        Some(k) => pe.sections@[k].virtual_size,
    }
}

/// Slots name sections of the object.
pub open spec fn slots_wf(slots: Seq<Slot>, m: ObjectModel) -> bool {
    forall|i: int| 0 <= i < slots.len() ==> (#[trigger] slots[i]).sid < m.sections.len()
}

fn add_shared_section(
    l: &mut Linkage,
    slots: &mut Vec<Slot>,
    pe: &PeContext,
    name: &str,
    kind: SectionKind,
    start: &str,
) -> (size: u64)
    requires
        old(l).wf(),
        slots_wf(old(slots)@, old(l)@.obj),
    ensures
        final(l).wf(),
        slots_wf(final(slots)@, final(l)@.obj),
        (SharedModel { l: final(l)@, slots: final(slots)@ }) == with_shared_section(
            SharedModel { l: old(l)@, slots: old(slots)@ },
            pe,
            name@,
            kind,
            start@,
        ),
        final(l)@.obj.format == old(l)@.obj.format,
        final(l)@.obj.machine == old(l)@.obj.machine,
        size == size_of_section(pe, name@),
{
    let k = match find_section(&pe.sections, name) {
        Some(k) => k,
        None => return 0,
    };
    let section = &pe.sections[k];
    let sid = l.obj.add_section("", section.name.as_str(), kind);
    if matches!(kind, SectionKind::UninitializedData) {
        l.obj.append_bss(sid, section.virtual_size, 16);
    } else {
        l.obj.append_data(sid, section.data.as_slice(), 16);
    }
    l.obj.add_symbol(start, 0, 0, SymbolKind::Data, true, false, Some(sid));
    slots.push(Slot { sid, va: section.va, size: section.virtual_size });
    section.virtual_size
}

/// Index, from `i` on, of the first slot that holds `len` bytes at `va`.
pub open spec fn slot_index(slots: Seq<Slot>, va: u64, len: int, i: int) -> Option<int>
    decreases slots.len() - i,
{
    if i < 0 || i >= slots.len() {
        None
    } else if slots[i].va <= va && va + len <= slots[i].va + slots[i].size {
        Some(i)
    } else {
        slot_index(slots, va, len, i + 1)
    }
}

fn find_slot(slots: &Vec<Slot>, va: u64, len: u64) -> (r: Option<usize>)
    ensures
        match r {
            Some(k) => k < slots@.len() && slot_index(slots@, va, len as int, 0) == Some(k as int)
                && slots@[k as int].va <= va,
            None => slot_index(slots@, va, len as int, 0) is None,
        },
{
    let mut i: usize = 0;
    while i < slots.len()
        invariant
            i <= slots@.len(),
            slot_index(slots@, va, len as int, 0) == slot_index(slots@, va, len as int, i as int),
        decreases slots@.len() - i,
    {
        let s = slots[i];
        if s.va <= va && va - s.va <= s.size && len <= s.size - (va - s.va) {
            return Some(i);
        }
        i = i + 1;
    }
    None
}

/// With the relocations that the base relocations from `i` on ask for, and how
/// many they are.
pub open spec fn with_shared_relocs(
    l: LinkageModel,
    count: usize,
    pe: &PeContext,
    slots: Seq<Slot>,
    i: int,
) -> Option<(LinkageModel, usize)>
    decreases pe.base_relocations@.len() - i,
{
    if i < 0 || i >= pe.base_relocations@.len() {
        Some((l, count))
    } else {
        let br = pe.base_relocations@[i];
        let w = pointer_width(pe.arch);
        let stored = pe.spec_data_at_va(br.va, w as int);
        let slot = slot_index(slots, br.va, w as int, 0);
        if !marks_pointer(pe.arch, br.kind) || slot is None || stored is None {
            with_shared_relocs(l, count, pe, slots, i + 1)
        } else {
            match pe.symbols.spec_resolve_data(le_value(stored->0, 0, w) as u64) {
                None => with_shared_relocs(l, count, pe, slots, i + 1),
                Some((name, addend)) => {
                    let m = l.with_undef(name, name, SymbolKind::Data);
                    let sid = slots[slot->0].sid as nat;
                    let at = (br.va - slots[slot->0].va) as u64;
                    let kind = pointer_reloc(pe.arch);
                    if m.obj.takes_relocation(sid, at, kind, addend as int) {
                        with_shared_relocs(
                            m.over(
                                m.obj.with_relocation(
                                    sid,
                                    at,
                                    l.undef_number(name) as nat,
                                    kind,
                                    addend as int,
                                ),
                            ),
                            count.wrapping_add(1),
                            pe,
                            slots,
                            i + 1,
                        )
                    } else {
                        None
                    }
                },
            }
        }
    }
}

fn add_shared_relocs(l: &mut Linkage, pe: &PeContext, slots: &Vec<Slot>) -> (r: Option<usize>)
    requires
        old(l).wf(),
        pe.wf(),
        slots_wf(slots@, old(l)@.obj),
        old(l)@.obj.format == ObjectFormat::Coff,
        old(l)@.obj.machine == machine_of(pe.arch),
    ensures
        final(l).wf(),
        slots_wf(slots@, final(l)@.obj),
        r is Some == (with_shared_relocs(old(l)@, 0, pe, slots@, 0) is Some),
        r is Some ==> with_shared_relocs(old(l)@, 0, pe, slots@, 0) == Some((final(l)@, r->0)),
{
    let mut count: usize = 0;
    let w: usize = arch_pointer_width(pe.arch);
    let kind = arch_pointer_reloc(pe.arch);
    let mut i: usize = 0;
    while i < pe.base_relocations.len()
        invariant
            l.wf(),
            pe.wf(),
            slots_wf(slots@, l@.obj),
            l@.obj.format == ObjectFormat::Coff,
            l@.obj.machine == machine_of(pe.arch),
            w == pointer_width(pe.arch),
            kind == pointer_reloc(pe.arch),
            i <= pe.base_relocations@.len(),
            with_shared_relocs(old(l)@, 0, pe, slots@, 0) == with_shared_relocs(
                l@,
                count,
                pe,
                slots@,
                i as int,
            ),
        decreases pe.base_relocations@.len() - i,
    {
        let br = pe.base_relocations[i];
        if arch_marks_pointer(pe.arch, br.kind) {
            if let Some(k) = find_slot(slots, br.va, w as u64) {
                if let Some(stored) = pe.data_at_va(br.va, w) {
                    let target: u64 = match pe.arch {
                        PeArch::X86_64 => read_u64_le(stored, 0),
                        PeArch::X86 => read_u32_le(stored, 0) as u64,
                    };
                    let found = pe.symbols.resolve_data(target);
                    if let Some((name, addend)) = found {
                        proof {
                            pe.symbols.lemma_addends(target);
                        }
                        let slot = slots[k];
                        let sym = l.undefined(name.as_str(), name.as_str(), SymbolKind::Data);
                        let added = l.obj.add_relocation(
                            slot.sid,
                            br.va - slot.va,
                            sym,
                            addend,
                            kind,
                        );
                        if !added {
                            return None;
                        }
                        count = count.wrapping_add(1);
                    }
                }
            }
        }
        i = i + 1;
    }
    Some(count)
}

/// True when a contribution outside `.text` has a datum at `va`.
pub open spec fn claims(c: PeContrib, va: u64) -> bool {
    c.section_name@ != ".text"@ && c.va <= va < c.va + c.size
}

/// True when a unit that becomes an object has a datum at `va`.
pub open spec fn unit_claims(u: PeCompilationUnit, va: u64) -> bool {
    u.spec_has_code() && exists|c: int|
        0 <= c < u.contributions@.len() && claims(#[trigger] u.contributions@[c], va)
}

/// True when the object of some unit defines the datum at `va`.
pub open spec fn claimed(pe: &PeContext, va: u64) -> bool {
    exists|u: int|
        0 <= u < pe.cu_index.units@.len() && unit_claims(#[trigger] pe.cu_index.units@[u], va)
}

fn claim_contribution(
    set: &mut HashSet<u64>,
    variables: &BTreeMap<u64, PeVariable>,
    c: &PeContrib,
)
    ensures
        forall|va: u64| #[trigger]
            final(set)@.contains(va) <==> old(set)@.contains(va) || (claims(*c, va)
                && variables@.dom().contains(va)),
{
    if str_eq(c.section_name.as_str(), ".text") {
        return ;
    }
    let keys = variables_in(variables, c.va, c.size);
    proof {
        if c.size > 0 {
            let hi = if c.va + c.size - 1 > u64::MAX {
                u64::MAX
            } else {
                (c.va + c.size - 1) as u64
            };
            lemma_keys_between(variables@.dom(), c.va, hi);
            assert forall|va: u64| claims(*c, va) && variables@.dom().contains(va) implies keys@.contains(
                va,
            ) by {
                assert(keys_between(variables@.dom(), c.va, hi).contains(va));
            }
        }
    }
    let mut i: usize = 0;
    while i < keys.len()
        invariant
            i <= keys@.len(),
            forall|va: u64| #[trigger]
                set@.contains(va) <==> old(set)@.contains(va) || keys@.subrange(
                    0,
                    i as int,
                ).contains(va),
        decreases keys@.len() - i,
    {
        let ghost before = keys@.subrange(0, i as int);
        set.insert(keys[i]);
        i = i + 1;
        proof {
            let after = keys@.subrange(0, i as int);
            assert(after =~= before.push(keys@[i - 1]));
            assert forall|va: u64| after.contains(va) <==> before.contains(va) || va == keys@[i
                - 1] by {
                if before.contains(va) {
                    let j = choose|j: int| 0 <= j < before.len() && before[j] == va;
                    assert(after[j] == va);
                }
                assert(after[i - 1] == keys@[i - 1]);
            }
        }
    }
    assert(keys@.subrange(0, keys@.len() as int) =~= keys@);
}

fn claim_unit(set: &mut HashSet<u64>, variables: &BTreeMap<u64, PeVariable>, u: &PeCompilationUnit)
    ensures
        forall|va: u64| #[trigger]
            final(set)@.contains(va) <==> old(set)@.contains(va) || (unit_claims(*u, va)
                && variables@.dom().contains(va)),
{
    if !u.has_code() {
        return ;
    }
    let mut i: usize = 0;
    while i < u.contributions.len()
        invariant
            u.spec_has_code(),
            i <= u.contributions@.len(),
            forall|va: u64| #[trigger]
                set@.contains(va) <==> old(set)@.contains(va) || (variables@.dom().contains(va)
                    && exists|c: int| 0 <= c < i && claims(#[trigger] u.contributions@[c], va)),
        decreases u.contributions@.len() - i,
    {
        claim_contribution(set, variables, &u.contributions[i]);
        i = i + 1;
    }
}

fn find_claimed(pe: &PeContext) -> (set: HashSet<u64>)
    ensures
        forall|va: u64| #[trigger]
            set@.contains(va) <==> claimed(pe, va) && pe.symbols.variables@.dom().contains(va),
{
    let mut set: HashSet<u64> = HashSet::new();
    let mut i: usize = 0;
    while i < pe.cu_index.units.len()
        invariant
            i <= pe.cu_index.units@.len(),
            forall|va: u64| #[trigger]
                set@.contains(va) <==> (pe.symbols.variables@.dom().contains(va) && exists|u: int|
                    0 <= u < i && unit_claims(#[trigger] pe.cu_index.units@[u], va)),
        decreases pe.cu_index.units@.len() - i,
    {
        claim_unit(&mut set, &pe.symbols.variables, &pe.cu_index.units[i]);
        i = i + 1;
    }
    set
}

/// With a symbol for each datum, from key `i` on, that lies in a shared section
/// and that no unit's object defines.
pub open spec fn with_shared_symbols(
    m: ObjectModel,
    keys: Seq<u64>,
    pe: &PeContext,
    slots: Seq<Slot>,
    i: int,
) -> ObjectModel
    decreases keys.len() - i,
{
    if i < 0 || i >= keys.len() {
        m
    } else {
        let va = keys[i];
        let v = pe.symbols.variables@[va];
        with_shared_symbols(
            match slot_index(slots, va, 1, 0) {
                Some(k) => if claimed(pe, va) {
                    m
                } else {
                    m.with_symbol(
                        symbol(
                            v.name@,
                            (va - slots[k].va) as u64,
                            0,
                            SymbolKind::Data,
                            v.is_public,
                            false,
                            Some(slots[k].sid),
                        ),
                    )
                },
                None => m,
            },
            keys,
            pe,
            slots,
            i + 1,
        )
    }
}

fn add_shared_symbols(l: &mut Linkage, pe: &PeContext, slots: &Vec<Slot>)
    requires
        old(l).wf(),
        slots_wf(slots@, old(l)@.obj),
    ensures
        final(l).wf(),
        final(l)@.obj == with_shared_symbols(
            old(l)@.obj,
            keys_between(pe.symbols.variables@.dom(), 0, u64::MAX),
            pe,
            slots@,
            0,
        ),
{
    let taken = find_claimed(pe);
    let keys = keys_in_range(&pe.symbols.variables, 0, u64::MAX);
    proof {
        lemma_keys_between(pe.symbols.variables@.dom(), 0, u64::MAX);
        assert forall|j: int| 0 <= j < keys@.len() implies pe.symbols.variables@.dom().contains(
            #[trigger] keys@[j],
        ) by {
            assert(keys_between(pe.symbols.variables@.dom(), 0, u64::MAX).contains(keys@[j]));
        }
    }
    let mut i: usize = 0;
    while i < keys.len()
        invariant
            l.wf(),
            slots_wf(slots@, l@.obj),
            i <= keys@.len(),
            forall|j: int|
                0 <= j < keys@.len() ==> pe.symbols.variables@.dom().contains(#[trigger] keys@[j]),
            forall|va: u64| #[trigger]
                taken@.contains(va) <==> claimed(pe, va) && pe.symbols.variables@.dom().contains(
                    va,
                ),
            with_shared_symbols(old(l)@.obj, keys@, pe, slots@, 0) == with_shared_symbols(
                l@.obj,
                keys@,
                pe,
                slots@,
                i as int,
            ),
        decreases keys@.len() - i,
    {
        let va = keys[i];
        if !taken.contains(&va) {
            if let Some(k) = find_slot(slots, va, 1) {
                if let Some(v) = pe.symbols.variables.get(&va) {
                    let slot = slots[k];
                    l.obj.add_symbol(
                        v.name.as_str(),
                        va - slot.va,
                        0,
                        SymbolKind::Data,
                        v.is_public,
                        false,
                        Some(slot.sid),
                    );
                }
            }
        }
        i = i + 1;
    }
}

/// The data sections of an image, one behind the other, in an object.
pub open spec fn shared_sections(pe: &PeContext) -> SharedModel {
    let empty = SharedModel {
        l: LinkageModel::empty(ObjectFormat::Coff, machine_of(pe.arch)),
        slots: Seq::empty(),
    };
    let a = with_shared_section(
        empty,
        pe,
        ".rdata"@,
        SectionKind::ReadOnlyData,
        SYM_RDATA_START@,
    );
    let b = with_shared_section(a, pe, ".data"@, SectionKind::Data, SYM_DATA_START@);
    with_shared_section(b, pe, ".bss"@, SectionKind::UninitializedData, SYM_BSS_START@)
}

/// The object for the data of an image and what went into it: its data sections,
/// relocations for the pointers in them, and symbols for what no unit's object
/// defines.
pub open spec fn shared_object(pe: &PeContext) -> Result<(ObjectModel, SharedDataStats), EmitError> {
    let s = shared_sections(pe);
    match with_shared_relocs(s.l, 0, pe, s.slots, 0) {
        None => Err(EmitError::Relocation),
        Some((l, count)) => Ok(
            (
                with_shared_symbols(
                    l.obj,
                    keys_between(pe.symbols.variables@.dom(), 0, u64::MAX),
                    pe,
                    s.slots,
                    0,
                ),
                SharedDataStats {
                    rdata_bytes: size_of_section(pe, ".rdata"@),
                    data_bytes: size_of_section(pe, ".data"@),
                    bss_bytes: size_of_section(pe, ".bss"@),
                    addr64_relocs: count,
                },
            ),
        ),
    }
}

proof fn lemma_shared_symbols_grow(
    m: ObjectModel,
    keys: Seq<u64>,
    pe: &PeContext,
    slots: Seq<Slot>,
    i: int,
    k: int,
)
    requires
        0 <= i,
    ensures
        grows(m, with_shared_symbols(m, keys, pe, slots, i)),
        i <= k < keys.len() && slot_index(slots, keys[k], 1, 0) is Some && !claimed(pe, keys[k])
            ==> defines_datum(
            with_shared_symbols(m, keys, pe, slots, i),
            pe.symbols.variables@[keys[k]].name@,
            (keys[k] - slots[slot_index(slots, keys[k], 1, 0)->0].va) as u64,
            slots[slot_index(slots, keys[k], 1, 0)->0].sid as nat,
        ),
    decreases keys.len() - i,
{
    if i < keys.len() {
        let va = keys[i];
        let v = pe.symbols.variables@[va];
        let end = with_shared_symbols(m, keys, pe, slots, i);
        if slot_index(slots, va, 1, 0) is Some && !claimed(pe, va) {
            let slot = slots[slot_index(slots, va, 1, 0)->0];
            let value = (va - slot.va) as u64;
            let added = symbol(
                v.name@,
                value,
                0,
                SymbolKind::Data,
                v.is_public,
                false,
                Some(slot.sid),
            );
            let next = m.with_symbol(added);
            lemma_grows_by_symbol(m, added);
            lemma_shared_symbols_grow(next, keys, pe, slots, i + 1, k);
            lemma_grows_on(m, next, end);
            if k == i {
                let x = next.symbols[m.symbols.len() as int];
                assert(is_data_symbol(next, x, v.name@, value, slot.sid as nat));
                lemma_datum_stays(next, end, v.name@, value, slot.sid as nat);
            }
        } else {
            lemma_shared_symbols_grow(m, keys, pe, slots, i + 1, k);
        }
    }
}

/// Every datum of the tables that lies in a data section of the image, and in no
/// contribution of a unit with code, is defined in the shared object, at its place in
/// that section.
pub proof fn law_data_are_defined(pe: &PeContext, va: u64)
    requires
        shared_object(pe) is Ok,
        pe.symbols.variables@.contains_key(va),
        slot_index(shared_sections(pe).slots, va, 1, 0) is Some,
        !claimed(pe, va),
    ensures
        ({
            let slots = shared_sections(pe).slots;
            let slot = slots[slot_index(slots, va, 1, 0)->0];
            defines_datum(
                shared_object(pe)->Ok_0.0,
                pe.symbols.variables@[va].name@,
                (va - slot.va) as u64,
                slot.sid as nat,
            )
        }),
{
    let s = shared_sections(pe);
    let l = (with_shared_relocs(s.l, 0, pe, s.slots, 0)->0).0;
    let keys = keys_between(pe.symbols.variables@.dom(), 0, u64::MAX);
    lemma_keys_between(pe.symbols.variables@.dom(), 0, u64::MAX);
    assert(keys.contains(va));
    let k = choose|k: int| 0 <= k < keys.len() && keys[k] == va;
    lemma_shared_symbols_grow(l.obj, keys, pe, s.slots, 0, k);
}

/// Builds the object that carries `.rdata`, `.data` and `.bss` of the image, with
/// relocations for the pointers in them.
pub fn emit_pe_shared(pe: &PeContext) -> (r: Result<(Vec<u8>, SharedDataStats), EmitError>)
    requires
        pe.wf(),
    ensures
        emitted(r) == unit_file(shared_object(pe)),
{
    let mut l = Linkage::new(ObjectFormat::Coff, arch_machine(pe.arch));
    let mut slots: Vec<Slot> = Vec::new();
    let mut stats = SharedDataStats::default();
    stats.rdata_bytes = add_shared_section(
        &mut l,
        &mut slots,
        pe,
        ".rdata",
        SectionKind::ReadOnlyData,
        SYM_RDATA_START,
    );
    stats.data_bytes = add_shared_section(
        &mut l,
        &mut slots,
        pe,
        ".data",
        SectionKind::Data,
        SYM_DATA_START,
    );
    stats.bss_bytes = add_shared_section(
        &mut l,
        &mut slots,
        pe,
        ".bss",
        SectionKind::UninitializedData,
        SYM_BSS_START,
    );
    match add_shared_relocs(&mut l, pe, &slots) {
        None => return Err(EmitError::Relocation),
        Some(count) => {
            stats.addr64_relocs = count;
        },
    }
    add_shared_symbols(&mut l, pe, &slots);
    match l.obj.write() {
        Ok(file) => Ok((file, stats)),
        Err(e) => Err(EmitError::Write(e)),
    }
}

/// Name of the object file of a unit: its number and the stem of its name.
pub open spec fn spec_object_name(cu: &PeCompilationUnit) -> Seq<char> {
    zero_padded(digits(cu.id as nat, 10), 4) + "_"@ + spec_file_stem(cu.name@) + ".obj"@
}

/// Names the object file of a unit.
pub fn object_name(cu: &PeCompilationUnit) -> (r: String)
    ensures
        r@ == spec_object_name(cu),
{
    let id = decimal4(cu.id as u64);
    let stem = sanitize_file_stem(cu.name.as_str());
    let a = joined(id.as_str(), "_");
    let b = joined(a.as_str(), stem.as_str());
    joined(b.as_str(), ".obj")
}

/// The final component of a module's path, without its extension.
pub fn sanitize_file_stem(name: &str) -> (r: String)
    ensures
        r@ == spec_file_stem(name@),
{
    file_stem(name)
}

} // verus!
