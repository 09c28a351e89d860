//! Compilation units of a Mach-O image.
use std::ops::Range;
use vstd::prelude::*;

use crate::text::{clone_text, text_of};

verus! {

/// A function of the image.
#[derive(Debug)]
pub struct MachoFunction {
    /// Demangled or source name.
    pub name: String,
    /// Mangled name (preferred as the symbol name in objects).
    pub linkage_name: Option<String>,
    pub addr: u64,
    pub size: u64,
    /// Visible to other compilation units.
    pub external: bool,
}

/// A function, with its names as text.
pub ghost struct FunctionView {
    pub name: Seq<char>,
    pub linkage_name: Option<Seq<char>>,
    pub addr: u64,
    pub size: u64,
    pub external: bool,
}

impl View for MachoFunction {
    type V = FunctionView;

    open spec fn view(&self) -> FunctionView {
        FunctionView {
            name: self.name@,
            linkage_name: text_of(self.linkage_name),
            addr: self.addr,
            size: self.size,
            external: self.external,
        }
    }
}

impl Clone for MachoFunction {
    fn clone(&self) -> (r: Self)
        ensures
            r == *self,
    {
        MachoFunction {
            name: self.name.clone(),
            linkage_name: clone_text(&self.linkage_name),
            addr: self.addr,
            size: self.size,
            external: self.external,
        }
    }
}

impl MachoFunction {
    /// The mangled name, or else the source name.
    pub open spec fn spec_symbol_name(&self) -> Seq<char> {
        match self.linkage_name {
            Some(n) => n@,
            None => self.name@,
        }
    }

    /// True when objects know the function as `name`: the mangled name goes before the source
    /// name.
    pub open spec fn goes_by(&self, name: Seq<char>) -> bool {
        &&& self.linkage_name matches Some(n) ==> name == n@
        &&& self.linkage_name is None ==> name == self.name@
    }

    /// The name under which objects know the function.
    pub fn symbol_name(&self) -> (r: &str)
        ensures
            r@ == self.spec_symbol_name(),
    {
        match &self.linkage_name {
            Some(n) => n.as_str(),
            None => self.name.as_str(),
        }
    }
}

/// A named datum of the image.
#[derive(Debug)]
pub struct MachoVariable {
    pub name: String,
    pub linkage_name: Option<String>,
    pub addr: u64,
    /// Visible to other compilation units.
    pub external: bool,
}

/// A datum, with its names as text.
pub ghost struct VariableView {
    pub name: Seq<char>,
    pub linkage_name: Option<Seq<char>>,
    pub addr: u64,
    pub external: bool,
}

impl View for MachoVariable {
    type V = VariableView;

    open spec fn view(&self) -> VariableView {
        VariableView {
            name: self.name@,
            linkage_name: text_of(self.linkage_name),
            addr: self.addr,
            external: self.external,
        }
    }
}

impl Clone for MachoVariable {
    fn clone(&self) -> (r: Self)
        ensures
            r == *self,
    {
        MachoVariable {
            name: self.name.clone(),
            linkage_name: clone_text(&self.linkage_name),
            addr: self.addr,
            external: self.external,
        }
    }
}

impl MachoVariable {
    /// The mangled name, or else the source name.
    pub open spec fn spec_symbol_name(&self) -> Seq<char> {
        match self.linkage_name {
            Some(n) => n@,
            None => self.name@,
        }
    }

    /// True when objects know the datum as `name`: the mangled name goes before the source
    /// name.
    pub open spec fn goes_by(&self, name: Seq<char>) -> bool {
        &&& self.linkage_name matches Some(n) ==> name == n@
        &&& self.linkage_name is None ==> name == self.name@
    }

    /// The name under which objects know the datum.
    pub fn symbol_name(&self) -> (r: &str)
        ensures
            r@ == self.spec_symbol_name(),
    {
        match &self.linkage_name {
            Some(n) => n.as_str(),
            None => self.name.as_str(),
        }
    }
}

/// One compilation unit.
#[derive(Debug)]
pub struct MachoCompilationUnit {
    pub id: usize,
    pub name: String,
    pub comp_dir: Option<String>,
    /// Path of the object file the unit was linked from, where it is known.
    pub oso_path: Option<String>,
    pub ranges: Vec<Range<u64>>,
    pub functions: Vec<MachoFunction>,
    pub variables: Vec<MachoVariable>,
}

/// A compilation unit, with its names as text.
#[verifier::ext_equal]
pub ghost struct UnitView {
    pub id: nat,
    pub name: Seq<char>,
    pub comp_dir: Option<Seq<char>>,
    pub oso_path: Option<Seq<char>>,
    pub ranges: Seq<Range<u64>>,
    pub functions: Seq<FunctionView>,
    pub variables: Seq<VariableView>,
}

impl View for MachoCompilationUnit {
    type V = UnitView;

    open spec fn view(&self) -> UnitView {
        UnitView {
            id: self.id as nat,
            name: self.name@,
            comp_dir: text_of(self.comp_dir),
            oso_path: text_of(self.oso_path),
            ranges: self.ranges@,
            functions: self.functions@.map_values(|f: MachoFunction| f@),
            variables: self.variables@.map_values(|v: MachoVariable| v@),
        }
    }
}

/// Total size of functions, modulo the range of `u64`.
pub open spec fn total_size(functions: Seq<MachoFunction>) -> u64
    decreases functions.len(),
{
    if functions.len() == 0 {
        0
    } else {
        total_size(functions.drop_last()).wrapping_add(functions.last().size)
    }
}

impl MachoCompilationUnit {
    /// Bytes of code in the unit.
    pub fn text_size(&self) -> (n: u64)
        ensures
            n == total_size(self.functions@),
    {
        let mut n: u64 = 0;
        let mut i: usize = 0;
        while i < self.functions.len()
            invariant
                i <= self.functions@.len(),
                n == total_size(self.functions@.subrange(0, i as int)),
            decreases self.functions@.len() - i,
        {
            n = n.wrapping_add(self.functions[i].size);
            i = i + 1;
            assert(self.functions@.subrange(0, i as int).drop_last() =~= self.functions@.subrange(
                0,
                i - 1,
            ));
        }
        assert(self.functions@.subrange(0, self.functions@.len() as int) =~= self.functions@);
        n
    }

    /// True when the unit has a function that takes up space.
    pub open spec fn spec_has_code(&self) -> bool {
        exists|i: int| 0 <= i < self.functions@.len() && (#[trigger] self.functions@[i]).size > 0
    }

    /// Tests whether the unit has a function that takes up space. Only such
    /// units become objects.
    pub fn has_code(&self) -> (b: bool)
        ensures
            b == self.spec_has_code(),
    {
        let mut i: usize = 0;
        while i < self.functions.len()
            invariant
                i <= self.functions@.len(),
                forall|j: int| 0 <= j < i ==> (#[trigger] self.functions@[j]).size == 0,
            decreases self.functions@.len() - i,
        {
            if self.functions[i].size > 0 {
                return true;
            }
            i = i + 1;
        }
        false
    }
}

/// The ranges of the functions, among the first `n`, that take up space. An end
/// beyond the address space wraps.
pub open spec fn code_ranges(functions: Seq<FunctionView>, n: int) -> Seq<Range<u64>>
    decreases n,
{
    if n <= 0 {
        Seq::empty()
    } else {
        let f = functions[n - 1];
        let before = code_ranges(functions, n - 1);
        if f.size > 0 {
            before.push(Range { start: f.addr, end: f.addr.wrapping_add(f.size) })
        } else {
            before
        }
    }
}

/// The ranges of the functions that take up space.
pub fn ranges_of(functions: &Vec<MachoFunction>) -> (r: Vec<Range<u64>>)
    ensures
        r@ == code_ranges(
            functions@.map_values(|f: MachoFunction| f@),
            functions@.len() as int,
        ),
{
    let mut r: Vec<Range<u64>> = Vec::new();
    let mut i: usize = 0;
    while i < functions.len()
        invariant
            i <= functions@.len(),
            r@ == code_ranges(functions@.map_values(|f: MachoFunction| f@), i as int),
        decreases functions@.len() - i,
    {
        let f = &functions[i];
        assert(functions@.map_values(|f: MachoFunction| f@)[i as int] == f@);
        if f.size > 0 {
            r.push(Range { start: f.addr, end: f.addr.wrapping_add(f.size) });
        }
        i = i + 1;
    }
    r
}

/// What the units of an image were read from.
#[derive(Debug, Clone, Copy, PartialEq, Eq, Structural)]
pub enum DebugInfoSource {
    Dwarf,
    Stabs,
    Symtab,
}

/// All compilation units of an image.
#[derive(Debug)]
pub struct MachoCuIndex {
    pub units: Vec<MachoCompilationUnit>,
    pub source: DebugInfoSource,
}

} // verus!
