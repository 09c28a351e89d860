//! Addresses of a Mach-O image resolved to symbol names.
use std::collections::{BTreeMap, HashMap};
use std::ops::Range;
use vstd::prelude::*;

use super::cu::{MachoCompilationUnit, MachoCuIndex, MachoFunction, MachoVariable};
use super::image::{find_section, section_index, MachoSection};
use super::starts::{is_of, law_ranges_are_those_of_the_sections};
use crate::ordered::{covers, floor, floor_entry, lemma_covers};
use crate::ranges::{
    begins_at, contains, lemma_reaches, offset_in, range_contains, range_offset, reaches,
};
use crate::text::owned;
use crate::x86::resolution;

verus! {

broadcast use {
    vstd::std_specs::hash::group_hash_axioms,
    vstd::std_specs::btree::group_btree_axioms,
};

/// Start of the initialized data in the object for shared data.
pub const SYM_DATA_START: &'static str = "__delink_macho_data_start";

/// Start of the constant data in the object for shared data.
pub const SYM_CONST_START: &'static str = "__delink_macho_const_start";

/// Start of the zero-filled data in the object for shared data.
pub const SYM_BSS_START: &'static str = "__delink_macho_bss_start";

/// What the addresses of an image stand for.
pub struct MachoGlobalSymbols {
    /// Address to function.
    pub functions: BTreeMap<u64, MachoFunction>,
    /// Address to datum.
    pub variables: BTreeMap<u64, MachoVariable>,
    /// Stub address to the name of the symbol outside the image.
    pub stubs: HashMap<u64, String>,
    pub text_range: Option<Range<u64>>,
    pub data_range: Option<Range<u64>>,
    pub const_range: Option<Range<u64>>,
    pub bss_range: Option<Range<u64>>,
    pub cstring_range: Option<Range<u64>>,
}

/// With the functions from `i` on that take up space, each under its address. The
/// first function of an address stays.
pub open spec fn with_functions(
    m: Map<u64, MachoFunction>,
    functions: Seq<MachoFunction>,
    i: int,
) -> Map<u64, MachoFunction>
    decreases functions.len() - i,
{
    if i < 0 || i >= functions.len() {
        m
    } else {
        let f = functions[i];
        with_functions(
            if f.size > 0 && !m.contains_key(f.addr) {
                m.insert(f.addr, f)
            } else {
                m
            },
            functions,
            i + 1,
        )
    }
}

/// With the data from `i` on that have an address, each under it. The first datum
/// of an address stays.
pub open spec fn with_variables(
    m: Map<u64, MachoVariable>,
    variables: Seq<MachoVariable>,
    i: int,
) -> Map<u64, MachoVariable>
    decreases variables.len() - i,
{
    if i < 0 || i >= variables.len() {
        m
    } else {
        let v = variables[i];
        with_variables(
            if v.addr != 0 && !m.contains_key(v.addr) {
                m.insert(v.addr, v)
            } else {
                m
            },
            variables,
            i + 1,
        )
    }
}

/// The functions of the units from `i` on, added to `m`.
pub open spec fn unit_functions(
    m: Map<u64, MachoFunction>,
    units: Seq<MachoCompilationUnit>,
    i: int,
) -> Map<u64, MachoFunction>
    decreases units.len() - i,
{
    if i < 0 || i >= units.len() {
        m
    } else {
        unit_functions(with_functions(m, units[i].functions@, 0), units, i + 1)
    }
}

/// The data of the units from `i` on, added to `m`.
pub open spec fn unit_variables(
    m: Map<u64, MachoVariable>,
    units: Seq<MachoCompilationUnit>,
    i: int,
) -> Map<u64, MachoVariable>
    decreases units.len() - i,
{
    if i < 0 || i >= units.len() {
        m
    } else {
        unit_variables(with_variables(m, units[i].variables@, 0), units, i + 1)
    }
}

fn add_functions(m: &mut BTreeMap<u64, MachoFunction>, functions: &Vec<MachoFunction>)
    ensures
        final(m)@ == with_functions(old(m)@, functions@, 0),
{
    let mut i: usize = 0;
    while i < functions.len()
        invariant
            i <= functions@.len(),
            with_functions(old(m)@, functions@, 0) == with_functions(m@, functions@, i as int),
        decreases functions@.len() - i,
    {
        let f = &functions[i];
        if f.size > 0 && !m.contains_key(&f.addr) {
            m.insert(f.addr, f.clone());
        }
        i = i + 1;
    }
}

fn add_variables(m: &mut BTreeMap<u64, MachoVariable>, variables: &Vec<MachoVariable>)
    ensures
        final(m)@ == with_variables(old(m)@, variables@, 0),
{
    let mut i: usize = 0;
    while i < variables.len()
        invariant
            i <= variables@.len(),
            with_variables(old(m)@, variables@, 0) == with_variables(m@, variables@, i as int),
        decreases variables@.len() - i,
    {
        let v = &variables[i];
        if v.addr != 0 && !m.contains_key(&v.addr) {
            m.insert(v.addr, v.clone());
        }
        i = i + 1;
    }
}

/// Range of the first section called `name` in `segment`. An end beyond the
/// address space wraps.
pub open spec fn section_range(
    sections: Seq<MachoSection>,
    segment: Seq<char>,
    name: Seq<char>,
) -> Option<Range<u64>> {
    match section_index(sections, segment, name) {
        Some(k) => Some(
            Range {
                start: sections[k].addr,
                end: sections[k].addr.wrapping_add(sections[k].size),
            },
        ),
        None => None,
    }
}

fn find_range(sections: &Vec<MachoSection>, segment: &str, name: &str) -> (r: Option<Range<u64>>)
    ensures
        r == section_range(sections@, segment@, name@),
{
    match find_section(sections, segment, name) {
        Some(k) => Some(
            Range {
                start: sections[k].addr,
                end: sections[k].addr.wrapping_add(sections[k].size),
            },
        ),
        None => None,
    }
}

/// The symbol of the function that has `va` in its body.
pub open spec fn interior(functions: Map<u64, MachoFunction>, va: u64) -> Option<
    (Seq<char>, i64),
> {
    match floor(functions.dom(), va) {
        Some(start) => if va < start + functions[start].size {
            Some((functions[start].spec_symbol_name(), (va - start) as i64))
        } else {
            None
        },
        None => None,
    }
}

impl MachoGlobalSymbols {
    /// Gathers what the addresses of an image stand for.
    pub fn build(
        cu_index: &MachoCuIndex,
        stubs: HashMap<u64, String>,
        sections: &Vec<MachoSection>,
    ) -> (s: MachoGlobalSymbols)
        ensures
            s.functions@ == unit_functions(Map::empty(), cu_index.units@, 0),
            s.variables@ == unit_variables(Map::empty(), cu_index.units@, 0),
            s.stubs == stubs,
            s.text_range == section_range(sections@, "__TEXT"@, "__text"@),
            s.data_range == section_range(sections@, "__DATA"@, "__data"@),
            s.const_range == section_range(sections@, "__DATA"@, "__const"@),
            s.bss_range == section_range(sections@, "__DATA"@, "__bss"@),
            s.cstring_range == section_range(sections@, "__TEXT"@, "__cstring"@),
            is_of(s, sections@),
    {
        let mut functions: BTreeMap<u64, MachoFunction> = BTreeMap::new();
        let mut variables: BTreeMap<u64, MachoVariable> = BTreeMap::new();
        let mut i: usize = 0;
        while i < cu_index.units.len()
            invariant
                i <= cu_index.units@.len(),
                unit_functions(Map::empty(), cu_index.units@, 0) == unit_functions(
                    functions@,
                    cu_index.units@,
                    i as int,
                ),
                unit_variables(Map::empty(), cu_index.units@, 0) == unit_variables(
                    variables@,
                    cu_index.units@,
                    i as int,
                ),
            decreases cu_index.units@.len() - i,
        {
            add_functions(&mut functions, &cu_index.units[i].functions);
            add_variables(&mut variables, &cu_index.units[i].variables);
            i = i + 1;
        }
        proof {
            law_ranges_are_those_of_the_sections(sections@, "__TEXT"@, "__text"@);
            law_ranges_are_those_of_the_sections(sections@, "__DATA"@, "__data"@);
            law_ranges_are_those_of_the_sections(sections@, "__DATA"@, "__const"@);
            law_ranges_are_those_of_the_sections(sections@, "__DATA"@, "__bss"@);
        }
        MachoGlobalSymbols {
            functions,
            variables,
            stubs,
            text_range: find_range(sections, "__TEXT", "__text"),
            data_range: find_range(sections, "__DATA", "__data"),
            const_range: find_range(sections, "__DATA", "__const"),
            bss_range: find_range(sections, "__DATA", "__bss"),
            cstring_range: find_range(sections, "__TEXT", "__cstring"),
        }
    }

    /// What a branch to `va` goes to: a function, a place inside one, or a stub.
    pub open spec fn spec_resolve_code(&self, va: u64) -> Option<(Seq<char>, i64)> {
        if self.functions@.contains_key(va) {
            Some((self.functions@[va].spec_symbol_name(), 0))
        } else if interior(self.functions@, va) is Some {
            interior(self.functions@, va)
        } else if self.stubs@.contains_key(va) {
            Some((self.stubs@[va]@, 0))
        } else {
            None
        }
    }

    /// What a pointer to `va` refers to: a stub, a datum, a function, a place
    /// inside one, or else an offset into a data section.
    pub open spec fn spec_resolve_data(&self, va: u64) -> Option<(Seq<char>, i64)> {
        if self.stubs@.contains_key(va) {
            Some((self.stubs@[va]@, 0))
        } else if self.variables@.contains_key(va) {
            Some((self.variables@[va].spec_symbol_name(), 0))
        } else if self.functions@.contains_key(va) {
            Some((self.functions@[va].spec_symbol_name(), 0))
        } else if interior(self.functions@, va) is Some {
            interior(self.functions@, va)
        } else {
            self.spec_section_relative(va)
        }
    }

    /// The offset of `va` into the data section that holds it.
    pub open spec fn spec_section_relative(&self, va: u64) -> Option<(Seq<char>, i64)> {
        if range_contains(self.data_range, va) {
            Some((SYM_DATA_START@, range_offset(self.data_range, va)))
        } else if range_contains(self.const_range, va) {
            Some((SYM_CONST_START@, range_offset(self.const_range, va)))
        } else if range_contains(self.bss_range, va) {
            Some((SYM_BSS_START@, range_offset(self.bss_range, va)))
        } else {
            None
        }
    }

    fn find_interior(&self, va: u64) -> (r: Option<(String, i64)>)
        ensures
            resolution(r) == interior(self.functions@, va),
    {
        match floor_entry(&self.functions, va) {
            Some((start, f)) => if va - start < f.size {
                Some((owned(f.symbol_name()), (va - start) as i64))
            } else {
                None
            },
            None => None,
        }
    }

    /// True when `name` is the symbol at the start of the data section that holds `va`, and
    /// the section begins at `a`.
    pub open spec fn starts_section(&self, name: Seq<char>, a: u64, va: u64) -> bool {
        ||| name == "__delink_macho_data_start"@ && begins_at(self.data_range, a, va)
        ||| name == "__delink_macho_const_start"@ && begins_at(self.const_range, a, va)
        ||| name == "__delink_macho_bss_start"@ && begins_at(self.bss_range, a, va)
    }

    /// True when a pointer to `va` has to refer to `name` and `addend`: the symbol's
    /// address and the addend together are `va`. A stub or a datum at `va` itself goes first, then the function that holds it, then the start
    /// of its section.
    pub open spec fn stands_for(&self, name: Seq<char>, addend: i64, va: u64) -> bool {
        if self.stubs@.contains_key(va) {
            name == self.stubs@[va]@ && addend == 0
        } else if self.variables@.contains_key(va) {
            self.variables@[va].goes_by(name) && addend == 0
        } else if exists|a: u64| #[trigger] self.function_covers(a, va) {
            exists|a: u64| #[trigger]
                self.function_covers(a, va) && self.functions@[a].goes_by(name) && reaches(a, addend as int, va)
        } else {
            exists|a: u64| #[trigger]
                self.starts_section(name, a, va) && reaches(a, addend as int, va)
        }
    }

    /// True when a branch to `va` has to refer to `name` and `addend`: the symbol's address
    /// and the addend together are `va`. A function that holds `va` goes before a stub.
    pub open spec fn is_branched_to(&self, name: Seq<char>, addend: i64, va: u64) -> bool {
        if exists|a: u64| #[trigger] self.function_covers(a, va) {
            exists|a: u64| #[trigger]
                self.function_covers(a, va) && self.functions@[a].goes_by(name) && reaches(a, addend as int, va)
        } else {
            self.stubs@.contains_key(va) && name == self.stubs@[va]@ && addend == 0
        }
    }

    /// True when the function that starts at `a` is the one that holds `va`.
    pub open spec fn function_covers(&self, a: u64, va: u64) -> bool {
        covers(self.functions@.dom(), a, self.functions@[a].size as int, va)
    }

    proof fn lemma_interior(&self, va: u64)
        ensures
            match interior(self.functions@, va) {
                Some((name, addend)) => exists|a: u64| #[trigger]
                    self.function_covers(a, va) && self.functions@[a].goes_by(name) && reaches(a, addend as int, va),
                None => !self.functions@.contains_key(va) ==> forall|a: u64|
                    !#[trigger] self.function_covers(a, va),
            },
            self.functions@.contains_key(va) ==> self.function_covers(va, va),
            forall|a: u64| #[trigger]
                self.function_covers(a, va) && self.functions@.contains_key(va) ==> a == va,
    {
        let starts = self.functions@.dom();
        lemma_covers(starts, va);
        if let Some(a) = floor(starts, va) {
            lemma_reaches(a, va);
            if va < a + self.functions@[a].size {
                assert(self.function_covers(a, va));
            }
        }
    }

    /// What a pointer resolves to denotes the address that it holds, and a pointer that does
    /// not resolve has nothing to refer to.
    pub proof fn law_pointers_denote_their_address(&self, va: u64)
        ensures
            match self.spec_resolve_data(va) {
                Some((name, addend)) => self.stands_for(name, addend, va),
                None => forall|name: Seq<char>, addend: i64|
                    !#[trigger] self.stands_for(name, addend, va),
            },
    {
        self.lemma_interior(va);
        if let Some(r) = self.data_range {
            if r.start <= va {
                lemma_reaches(r.start, va);
            }
            if r.start <= va < r.end {
                assert(self.starts_section("__delink_macho_data_start"@, r.start, va));
            }
        }
        if let Some(r) = self.const_range {
            if r.start <= va {
                lemma_reaches(r.start, va);
            }
            if r.start <= va < r.end {
                assert(self.starts_section("__delink_macho_const_start"@, r.start, va));
            }
        }
        if let Some(r) = self.bss_range {
            if r.start <= va {
                lemma_reaches(r.start, va);
            }
            if r.start <= va < r.end {
                assert(self.starts_section("__delink_macho_bss_start"@, r.start, va));
            }
        }
    }

    /// What a branch resolves to denotes the address that it goes to, and a branch that does
    /// not resolve has nothing to refer to.
    pub proof fn law_branches_denote_their_address(&self, va: u64)
        ensures
            match self.spec_resolve_code(va) {
                Some((name, addend)) => self.is_branched_to(name, addend, va),
                None => forall|name: Seq<char>, addend: i64|
                    !#[trigger] self.is_branched_to(name, addend, va),
            },
    {
        self.lemma_interior(va);
    }

    /// A branch to the start of a function goes to that function, and so does a pointer
    /// there unless a stub or a datum has that address.
    pub proof fn law_start_resolves_to_itself(&self, va: u64)
        requires
            self.functions@.contains_key(va),
        ensures
            self.spec_resolve_code(va) == Some((self.functions@[va].spec_symbol_name(), 0i64)),
            !self.stubs@.contains_key(va) && !self.variables@.contains_key(va)
                ==> self.spec_resolve_data(va) == Some((self.functions@[va].spec_symbol_name(), 0i64)),
    {
    }

    /// Resolves a code target (of a call or jump).
    pub fn resolve_code(&self, va: u64) -> (r: Option<(String, i64)>)
        ensures
            resolution(r) == self.spec_resolve_code(va),
    {
        if let Some(f) = self.functions.get(&va) {
            return Some((owned(f.symbol_name()), 0));
        }
        let inner = self.find_interior(va);
        if inner.is_some() {
            return inner;
        }
        if let Some(name) = self.stubs.get(&va) {
            return Some((name.clone(), 0));
        }
        None
    }

    /// Resolves a data reference.
    pub fn resolve_data(&self, va: u64) -> (r: Option<(String, i64)>)
        ensures
            resolution(r) == self.spec_resolve_data(va),
    {
        if let Some(name) = self.stubs.get(&va) {
            return Some((name.clone(), 0));
        }
        if let Some(v) = self.variables.get(&va) {
            return Some((owned(v.symbol_name()), 0));
        }
        if let Some(f) = self.functions.get(&va) {
            return Some((owned(f.symbol_name()), 0));
        }
        let inner = self.find_interior(va);
        if inner.is_some() {
            return inner;
        }
        self.section_relative(va)
    }

    fn section_relative(&self, va: u64) -> (r: Option<(String, i64)>)
        ensures
            resolution(r) == self.spec_section_relative(va),
    {
        let found = offset_in(&self.data_range, va, SYM_DATA_START);
        if found.is_some() {
            return found;
        }
        let found = offset_in(&self.const_range, va, SYM_CONST_START);
        if found.is_some() {
            return found;
        }
        offset_in(&self.bss_range, va, SYM_BSS_START)
    }

    /// Tests whether `va` lies in the code section.
    pub fn in_text(&self, va: u64) -> (b: bool)
        ensures
            b == range_contains(self.text_range, va),
    {
        contains(&self.text_range, va)
    }

    /// A 32-bit code address has an addend of 32 bits.
    pub proof fn lemma_addends(&self, va: u32)
        ensures
            self.spec_resolve_code(va as u64) matches Some(s) ==> 0 <= s.1 <= u32::MAX,
    {
        match floor(self.functions@.dom(), va as u64) {
            Some(start) => {
                assert(crate::ordered::is_floor(self.functions@.dom(), va as u64, start));
            },
            None => {},
        }
    }
}

impl crate::x86::SymbolResolver for MachoGlobalSymbols {
    open spec fn code_symbol(&self, va: u64) -> Option<(Seq<char>, i64)> {
        self.spec_resolve_code(va)
    }

    open spec fn data_symbol(&self, va: u64) -> Option<(Seq<char>, i64)> {
        self.spec_resolve_data(va)
    }

    fn resolve_code(&self, va: u64) -> (r: Option<(String, i64)>) {
        MachoGlobalSymbols::resolve_code(self, va)
    }

    fn resolve_data(&self, va: u64) -> (r: Option<(String, i64)>) {
        MachoGlobalSymbols::resolve_data(self, va)
    }

    fn is_intra_function(&self, fn_va: u64, fn_size: u64, target_va: u64) -> (b: bool) {
        crate::x86::is_inside(fn_va, fn_size, target_va)
    }
}

} // verus!
