//! Addresses of a PE image resolved to symbol names.
use std::collections::{BTreeMap, HashMap};
use std::ops::Range;
use vstd::prelude::*;

use super::cu::{PeFunction, PeVariable};
use super::image::PeSection;
use super::pointers::{is_of, law_ranges_are_those_of_the_sections};
use crate::ordered::{covers, floor, floor_entry, lemma_covers};
use crate::ranges::{
    begins_at, contains, lemma_reaches, offset_in, range_contains, range_offset, reaches,
};
use crate::text::str_eq;
use crate::x86_64::resolution;

verus! {

broadcast use {
    vstd::std_specs::hash::group_hash_axioms,
    vstd::std_specs::btree::group_btree_axioms,
};

/// Start of the read-only data in the object for shared data.
pub const SYM_RDATA_START: &'static str = "__delink_pe_rdata_start";

/// Start of the initialized data in the object for shared data.
pub const SYM_DATA_START: &'static str = "__delink_pe_data_start";

/// Start of the zero-filled data in the object for shared data.
pub const SYM_BSS_START: &'static str = "__delink_pe_bss_start";

/// Start of the import data.
pub const SYM_IDATA_START: &'static str = "__delink_pe_idata_start";

/// What the addresses of an image stand for.
pub struct PeGlobalSymbols {
    /// VA to function.
    pub functions: BTreeMap<u64, PeFunction>,
    /// VA to datum.
    pub variables: BTreeMap<u64, PeVariable>,
    /// Import slot VA to `__imp_` name.
    pub imports: HashMap<u64, String>,
    /// Ranges of the well-known sections.
    pub text_range: Option<Range<u64>>,
    pub rdata_range: Option<Range<u64>>,
    pub data_range: Option<Range<u64>>,
    pub bss_range: Option<Range<u64>>,
    pub idata_range: Option<Range<u64>>,
}

/// A range that a 32-bit size can describe.
pub open spec fn small_range(r: Option<Range<u64>>) -> bool {
    r is Some ==> r->0.end - r->0.start <= u32::MAX
}

/// The symbol of the function that has `va` in its body.
pub open spec fn interior(functions: Map<u64, PeFunction>, va: u64) -> Option<(Seq<char>, i64)> {
    match floor(functions.dom(), va) {
        Some(start) => if va < start + functions[start].size {
            Some((functions[start].name@, (va - start) as i64))
        } else {
            None
        },
        None => None,
    }
}

/// Range of the first section called `name`. An end beyond the address space
/// wraps.
pub open spec fn section_range(sections: Seq<PeSection>, name: Seq<char>) -> Option<Range<u64>>
    decreases sections.len(),
{
    if sections.len() == 0 {
        None
    } else if sections[0].name@ == name {
        Some(
            Range {
                start: sections[0].va,
                end: sections[0].va.wrapping_add(sections[0].virtual_size),
            },
        )
    } else {
        section_range(sections.drop_first(), name)
    }
}

fn find_range(sections: &Vec<PeSection>, name: &str) -> (r: Option<Range<u64>>)
    ensures
        r == section_range(sections@, name@),
{
    let mut i: usize = 0;
    assert(sections@.subrange(0, sections@.len() as int) =~= sections@);
    while i < sections.len()
        invariant
            i <= sections@.len(),
            section_range(sections@, name@) == section_range(
                sections@.subrange(i as int, sections@.len() as int),
                name@,
            ),
        decreases sections@.len() - i,
    {
        let s = &sections[i];
        if str_eq(s.name.as_str(), name) {
            return Some(Range { start: s.va, end: s.va.wrapping_add(s.virtual_size) });
        }
        assert(sections@.subrange(i as int, sections@.len() as int).drop_first()
            =~= sections@.subrange(i + 1, sections@.len() as int));
        i = i + 1;
    }
    None
}

/// The ranges of sections with 32-bit sizes are small.
proof fn lemma_section_range_small(sections: Seq<PeSection>, name: Seq<char>)
    requires
        forall|i: int| 0 <= i < sections.len() ==> (#[trigger] sections[i]).virtual_size
            <= u32::MAX,
    ensures
        small_range(section_range(sections, name)),
    decreases sections.len(),
{
    if sections.len() > 0 && sections[0].name@ != name {
        assert forall|i: int| 0 <= i < sections.drop_first().len() implies (
        #[trigger] sections.drop_first()[i]).virtual_size <= u32::MAX by {
            assert(sections.drop_first()[i] == sections[i + 1]);
        }
        lemma_section_range_small(sections.drop_first(), name);
    }
}

impl PeGlobalSymbols {
    /// The ranges fit 32-bit sizes, as those of a PE image do.
    pub open spec fn wf(&self) -> bool {
        &&& small_range(self.rdata_range)
        &&& small_range(self.data_range)
        &&& small_range(self.bss_range)
        &&& small_range(self.idata_range)
    }

    /// Gathers what the addresses of an image stand for.
    pub fn build(
        functions: BTreeMap<u64, PeFunction>,
        variables: BTreeMap<u64, PeVariable>,
        imports: HashMap<u64, String>,
        sections: &Vec<PeSection>,
    ) -> (s: PeGlobalSymbols)
        ensures
            s.functions == functions,
            s.variables == variables,
            s.imports == imports,
            s.text_range == section_range(sections@, ".text"@),
            s.rdata_range == section_range(sections@, ".rdata"@),
            s.data_range == section_range(sections@, ".data"@),
            s.bss_range == section_range(sections@, ".bss"@),
            s.idata_range == section_range(sections@, ".idata"@),
            is_of(s, sections@),
            (forall|i: int|
                0 <= i < sections@.len() ==> (#[trigger] sections@[i]).virtual_size <= u32::MAX)
                ==> s.wf(),
    {
        proof {
            law_ranges_are_those_of_the_sections(sections@, ".text"@);
            law_ranges_are_those_of_the_sections(sections@, ".rdata"@);
            law_ranges_are_those_of_the_sections(sections@, ".data"@);
            law_ranges_are_those_of_the_sections(sections@, ".bss"@);
            law_ranges_are_those_of_the_sections(sections@, ".idata"@);
            if forall|i: int|
                0 <= i < sections@.len() ==> (#[trigger] sections@[i]).virtual_size <= u32::MAX {
                lemma_section_range_small(sections@, ".rdata"@);
                lemma_section_range_small(sections@, ".data"@);
                lemma_section_range_small(sections@, ".bss"@);
                lemma_section_range_small(sections@, ".idata"@);
            }
        }
        PeGlobalSymbols {
            functions,
            variables,
            imports,
            text_range: find_range(sections, ".text"),
            rdata_range: find_range(sections, ".rdata"),
            data_range: find_range(sections, ".data"),
            bss_range: find_range(sections, ".bss"),
            idata_range: find_range(sections, ".idata"),
        }
    }

    /// What a branch to `va` goes to: a function, a place inside one, or an
    /// import slot.
    pub open spec fn spec_resolve_code(&self, va: u64) -> Option<(Seq<char>, i64)> {
        if self.functions@.contains_key(va) {
            Some((self.functions@[va].name@, 0))
        } else if interior(self.functions@, va) is Some {
            interior(self.functions@, va)
        } else if self.imports@.contains_key(va) {
            Some((self.imports@[va]@, 0))
        } else {
            None
        }
    }

    /// What a pointer to `va` refers to: an import slot, a datum, a function, a
    /// place inside one, or else an offset into a data section.
    pub open spec fn spec_resolve_data(&self, va: u64) -> Option<(Seq<char>, i64)> {
        if self.imports@.contains_key(va) {
            Some((self.imports@[va]@, 0))
        } else if self.variables@.contains_key(va) {
            Some((self.variables@[va].name@, 0))
        } else if self.functions@.contains_key(va) {
            Some((self.functions@[va].name@, 0))
        } else if interior(self.functions@, va) is Some {
            interior(self.functions@, va)
        } else {
            self.spec_section_relative(va)
        }
    }

    /// The offset of `va` into the data section that holds it.
    pub open spec fn spec_section_relative(&self, va: u64) -> Option<(Seq<char>, i64)> {
        if range_contains(self.rdata_range, va) {
            Some((SYM_RDATA_START@, range_offset(self.rdata_range, va)))
        } else if range_contains(self.data_range, va) {
            Some((SYM_DATA_START@, range_offset(self.data_range, va)))
        } else if range_contains(self.bss_range, va) {
            Some((SYM_BSS_START@, range_offset(self.bss_range, va)))
        } else if range_contains(self.idata_range, va) {
            Some((SYM_IDATA_START@, range_offset(self.idata_range, va)))
        } else {
            None
        }
    }

    fn find_interior(&self, va: u64) -> (r: Option<(String, i64)>)
        ensures
            resolution(r) == interior(self.functions@, va),
    {
        match floor_entry(&self.functions, va) {
            Some((start, f)) => if va - start < f.size as u64 {
                Some((f.name.clone(), (va - start) as i64))
            } else {
                None
            },
            None => None,
        }
    }

    /// True when `name` is the symbol at the start of the data section that holds `va`, and
    /// the section begins at `a`.
    pub open spec fn starts_section(&self, name: Seq<char>, a: u64, va: u64) -> bool {
        ||| name == "__delink_pe_rdata_start"@ && begins_at(self.rdata_range, a, va)
        ||| name == "__delink_pe_data_start"@ && begins_at(self.data_range, a, va)
        ||| name == "__delink_pe_bss_start"@ && begins_at(self.bss_range, a, va)
        ||| name == "__delink_pe_idata_start"@ && begins_at(self.idata_range, a, va)
    }

    /// True when a pointer to `va` has to refer to `name` and `addend`: the symbol's
    /// address and the addend together are `va`. An import slot or a
    /// datum at `va` itself goes first, then the function that holds it, then the start
    /// of its section.
    pub open spec fn stands_for(&self, name: Seq<char>, addend: i64, va: u64) -> bool {
        if self.imports@.contains_key(va) {
            name == self.imports@[va]@ && addend == 0
        } else if self.variables@.contains_key(va) {
            name == self.variables@[va].name@ && addend == 0
        } else if exists|a: u64| #[trigger] self.function_covers(a, va) {
            exists|a: u64| #[trigger]
                self.function_covers(a, va) && name == self.functions@[a].name@ && reaches(a, addend as int, va)
        } else {
            exists|a: u64| #[trigger]
                self.starts_section(name, a, va) && reaches(a, addend as int, va)
        }
    }

    /// True when a branch to `va` has to refer to `name` and `addend`: the symbol's address
    /// and the addend together are `va`. A function that holds `va` goes before an import slot.
    pub open spec fn is_branched_to(&self, name: Seq<char>, addend: i64, va: u64) -> bool {
        if exists|a: u64| #[trigger] self.function_covers(a, va) {
            exists|a: u64| #[trigger]
                self.function_covers(a, va) && name == self.functions@[a].name@ && reaches(a, addend as int, va)
        } else {
            self.imports@.contains_key(va) && name == self.imports@[va]@ && addend == 0
        }
    }

    /// True when the function that starts at `a` is the one that holds `va`.
    pub open spec fn function_covers(&self, a: u64, va: u64) -> bool {
        covers(self.functions@.dom(), a, self.functions@[a].size as int, va)
    }

    proof fn lemma_interior(&self, va: u64)
        ensures
            match interior(self.functions@, va) {
                Some((name, addend)) => exists|a: u64| #[trigger]
                    self.function_covers(a, va) && name == self.functions@[a].name@ && reaches(a, addend as int, va),
                None => !self.functions@.contains_key(va) ==> forall|a: u64|
                    !#[trigger] self.function_covers(a, va),
            },
            self.functions@.contains_key(va) ==> self.function_covers(va, va),
            forall|a: u64| #[trigger]
                self.function_covers(a, va) && self.functions@.contains_key(va) ==> a == va,
    {
        let starts = self.functions@.dom();
        lemma_covers(starts, va);
        if let Some(a) = floor(starts, va) {
            lemma_reaches(a, va);
            if va < a + self.functions@[a].size {
                assert(self.function_covers(a, va));
            }
        }
    }

    /// What a pointer resolves to denotes the address that it holds, and a pointer that does
    /// not resolve has nothing to refer to.
    pub proof fn law_pointers_denote_their_address(&self, va: u64)
        ensures
            match self.spec_resolve_data(va) {
                Some((name, addend)) => self.stands_for(name, addend, va),
                None => forall|name: Seq<char>, addend: i64|
                    !#[trigger] self.stands_for(name, addend, va),
            },
    {
        self.lemma_interior(va);
        if let Some(r) = self.rdata_range {
            if r.start <= va {
                lemma_reaches(r.start, va);
            }
            if r.start <= va < r.end {
                assert(self.starts_section("__delink_pe_rdata_start"@, r.start, va));
            }
        }
        if let Some(r) = self.data_range {
            if r.start <= va {
                lemma_reaches(r.start, va);
            }
            if r.start <= va < r.end {
                assert(self.starts_section("__delink_pe_data_start"@, r.start, va));
            }
        }
        if let Some(r) = self.bss_range {
            if r.start <= va {
                lemma_reaches(r.start, va);
            }
            if r.start <= va < r.end {
                assert(self.starts_section("__delink_pe_bss_start"@, r.start, va));
            }
        }
        if let Some(r) = self.idata_range {
            if r.start <= va {
                lemma_reaches(r.start, va);
            }
            if r.start <= va < r.end {
                assert(self.starts_section("__delink_pe_idata_start"@, r.start, va));
            }
        }
    }

    /// What a branch resolves to denotes the address that it goes to, and a branch that does
    /// not resolve has nothing to refer to.
    pub proof fn law_branches_denote_their_address(&self, va: u64)
        ensures
            match self.spec_resolve_code(va) {
                Some((name, addend)) => self.is_branched_to(name, addend, va),
                None => forall|name: Seq<char>, addend: i64|
                    !#[trigger] self.is_branched_to(name, addend, va),
            },
    {
        self.lemma_interior(va);
    }

    /// A branch to the start of a function goes to that function, and so does a pointer
    /// there unless an import or a datum has that address.
    pub proof fn law_start_resolves_to_itself(&self, va: u64)
        requires
            self.functions@.contains_key(va),
        ensures
            self.spec_resolve_code(va) == Some((self.functions@[va].name@, 0i64)),
            !self.imports@.contains_key(va) && !self.variables@.contains_key(va)
                ==> self.spec_resolve_data(va) == Some((self.functions@[va].name@, 0i64)),
    {
    }

    /// Resolves a code target VA (of a call or jump).
    pub fn resolve_code(&self, va: u64) -> (r: Option<(String, i64)>)
        ensures
            resolution(r) == self.spec_resolve_code(va),
    {
        if let Some(f) = self.functions.get(&va) {
            return Some((f.name.clone(), 0));
        }
        let inner = self.find_interior(va);
        if inner.is_some() {
            return inner;
        }
        if let Some(name) = self.imports.get(&va) {
            return Some((name.clone(), 0));
        }
        None
    }

    /// Resolves a data reference VA (relative to the next instruction, or an
    /// absolute pointer).
    pub fn resolve_data(&self, va: u64) -> (r: Option<(String, i64)>)
        ensures
            resolution(r) == self.spec_resolve_data(va),
    {
        if let Some(name) = self.imports.get(&va) {
            return Some((name.clone(), 0));
        }
        if let Some(v) = self.variables.get(&va) {
            return Some((v.name.clone(), 0));
        }
        if let Some(f) = self.functions.get(&va) {
            return Some((f.name.clone(), 0));
        }
        let inner = self.find_interior(va);
        if inner.is_some() {
            return inner;
        }
        self.section_relative(va)
    }

    fn section_relative(&self, va: u64) -> (r: Option<(String, i64)>)
        ensures
            resolution(r) == self.spec_section_relative(va),
    {
        let found = offset_in(&self.rdata_range, va, SYM_RDATA_START);
        if found.is_some() {
            return found;
        }
        let found = offset_in(&self.data_range, va, SYM_DATA_START);
        if found.is_some() {
            return found;
        }
        let found = offset_in(&self.bss_range, va, SYM_BSS_START);
        if found.is_some() {
            return found;
        }
        offset_in(&self.idata_range, va, SYM_IDATA_START)
    }

    /// Tests whether `va` lies in the code section.
    pub fn in_text(&self, va: u64) -> (b: bool)
        ensures
            b == range_contains(self.text_range, va),
    {
        contains(&self.text_range, va)
    }

    /// Addends are never negative and fit 32 bits.
    pub proof fn lemma_addends(&self, va: u64)
        requires
            self.wf(),
        ensures
            self.spec_resolve_code(va) matches Some(s) ==> 0 <= s.1 <= u32::MAX,
            self.spec_resolve_data(va) matches Some(s) ==> 0 <= s.1 <= u32::MAX,
    {
        match floor(self.functions@.dom(), va) {
            Some(start) => {
                assert(crate::ordered::is_floor(self.functions@.dom(), va, start));
            },
            None => {},
        }
    }
}

impl crate::x86_64::SymbolResolver for PeGlobalSymbols {
    open spec fn code_symbol(&self, va: u64) -> Option<(Seq<char>, i64)> {
        self.spec_resolve_code(va)
    }

    open spec fn data_symbol(&self, va: u64) -> Option<(Seq<char>, i64)> {
        self.spec_resolve_data(va)
    }

    fn resolve_code(&self, va: u64) -> (r: Option<(String, i64)>) {
        PeGlobalSymbols::resolve_code(self, va)
    }

    fn resolve_data(&self, va: u64) -> (r: Option<(String, i64)>) {
        PeGlobalSymbols::resolve_data(self, va)
    }

    fn is_intra_function(&self, fn_va: u64, fn_size: u64, target_va: u64) -> (b: bool) {
        crate::x86_64::is_inside(fn_va, fn_size, target_va)
    }
}

impl crate::x86::SymbolResolver for PeGlobalSymbols {
    open spec fn code_symbol(&self, va: u64) -> Option<(Seq<char>, i64)> {
        self.spec_resolve_code(va)
    }

    open spec fn data_symbol(&self, va: u64) -> Option<(Seq<char>, i64)> {
        self.spec_resolve_data(va)
    }

    fn resolve_code(&self, va: u64) -> (r: Option<(String, i64)>) {
        PeGlobalSymbols::resolve_code(self, va)
    }

    fn resolve_data(&self, va: u64) -> (r: Option<(String, i64)>) {
        PeGlobalSymbols::resolve_data(self, va)
    }

    fn is_intra_function(&self, fn_va: u64, fn_size: u64, target_va: u64) -> (b: bool) {
        crate::x86::is_inside(fn_va, fn_size, target_va)
    }
}

} // verus!
