//! Compilation units of an ELF image.
use std::ops::Range;
use vstd::prelude::*;

use crate::text::{clone_text, text_of};

verus! {

/// A function of the image.
#[derive(Debug)]
pub struct Function {
    pub name: String,
    /// Mangled name (preferred as the symbol name in objects).
    pub linkage_name: Option<String>,
    pub addr: u64,
    pub size: u64,
    /// Visible to other compilation units.
    pub external: bool,
}

/// A function, with its names as text.
pub ghost struct FunctionView {
    pub name: Seq<char>,
    pub linkage_name: Option<Seq<char>>,
    pub addr: u64,
    pub size: u64,
    pub external: bool,
}

impl View for Function {
    type V = FunctionView;

    open spec fn view(&self) -> FunctionView {
        FunctionView {
            name: self.name@,
            linkage_name: text_of(self.linkage_name),
            addr: self.addr,
            size: self.size,
            external: self.external,
        }
    }
}

impl Clone for Function {
    fn clone(&self) -> (r: Self)
        ensures
            r == *self,
    {
        Function {
            name: self.name.clone(),
            linkage_name: clone_text(&self.linkage_name),
            addr: self.addr,
            size: self.size,
            external: self.external,
        }
    }
}

/// A named datum of the image.
#[derive(Debug)]
pub struct Variable {
    pub name: String,
    pub linkage_name: Option<String>,
    pub addr: u64,
    /// Visible to other compilation units.
    pub external: bool,
}

/// A datum, with its names as text.
pub ghost struct VariableView {
    pub name: Seq<char>,
    pub linkage_name: Option<Seq<char>>,
    pub addr: u64,
    pub external: bool,
}

impl View for Variable {
    type V = VariableView;

    open spec fn view(&self) -> VariableView {
        VariableView {
            name: self.name@,
            linkage_name: text_of(self.linkage_name),
            addr: self.addr,
            external: self.external,
        }
    }
}

impl Clone for Variable {
    fn clone(&self) -> (r: Self)
        ensures
            r == *self,
    {
        Variable {
            name: self.name.clone(),
            linkage_name: clone_text(&self.linkage_name),
            addr: self.addr,
            external: self.external,
        }
    }
}

/// One compilation unit.
#[derive(Debug)]
pub struct CompilationUnit {
    pub id: usize,
    pub name: String,
    pub comp_dir: Option<String>,
    pub producer: Option<String>,
    pub language: Option<String>,
    pub ranges: Vec<Range<u64>>,
    pub functions: Vec<Function>,
    pub variables: Vec<Variable>,
    /// Bytes of `.debug_info` that describe the unit.
    pub debug_info_range: Range<usize>,
    /// Bytes of `.debug_abbrev` that the unit uses.
    pub debug_abbrev_range: Range<usize>,
    /// Bytes of `.debug_line` for the unit, where it has any.
    pub debug_line_range: Option<Range<usize>>,
    /// Name for the unit's object in place of one made from `name`.
    pub file_name: Option<String>,
}

/// A compilation unit, with its names as text.
#[verifier::ext_equal]
pub ghost struct UnitView {
    pub id: nat,
    pub name: Seq<char>,
    pub comp_dir: Option<Seq<char>>,
    pub producer: Option<Seq<char>>,
    pub language: Option<Seq<char>>,
    pub ranges: Seq<Range<u64>>,
    pub functions: Seq<FunctionView>,
    pub variables: Seq<VariableView>,
    pub debug_info_range: Range<usize>,
    pub debug_abbrev_range: Range<usize>,
    pub debug_line_range: Option<Range<usize>>,
    pub file_name: Option<Seq<char>>,
}

/// Functions, with their names as text.
pub open spec fn function_views(v: Seq<Function>) -> Seq<FunctionView> {
    v.map_values(|f: Function| f@)
}

/// Data, with their names as text.
pub open spec fn variable_views(v: Seq<Variable>) -> Seq<VariableView> {
    v.map_values(|x: Variable| x@)
}

impl View for CompilationUnit {
    type V = UnitView;

    open spec fn view(&self) -> UnitView {
        UnitView {
            id: self.id as nat,
            name: self.name@,
            comp_dir: text_of(self.comp_dir),
            producer: text_of(self.producer),
            language: text_of(self.language),
            ranges: self.ranges@,
            functions: function_views(self.functions@),
            variables: variable_views(self.variables@),
            debug_info_range: self.debug_info_range,
            debug_abbrev_range: self.debug_abbrev_range,
            debug_line_range: self.debug_line_range,
            file_name: text_of(self.file_name),
        }
    }
}

impl CompilationUnit {
    /// True when the unit has a function that takes up space.
    pub open spec fn spec_has_code(&self) -> bool {
        exists|i: int| 0 <= i < self.functions@.len() && (#[trigger] self.functions@[i]).size > 0
    }

    /// Tests whether the unit has a function that takes up space. Only such
    /// units become objects.
    pub fn has_code(&self) -> (b: bool)
        ensures
            b == self.spec_has_code(),
    {
        let mut i: usize = 0;
        while i < self.functions.len()
            invariant
                i <= self.functions@.len(),
                forall|j: int| 0 <= j < i ==> (#[trigger] self.functions@[j]).size == 0,
            decreases self.functions@.len() - i,
        {
            if self.functions[i].size > 0 {
                return true;
            }
            i = i + 1;
        }
        false
    }
}

/// All compilation units of an image.
#[derive(Debug)]
pub struct CuIndex {
    pub units: Vec<CompilationUnit>,
}

/// Units, with their names as text.
pub open spec fn unit_views(v: Seq<CompilationUnit>) -> Seq<UnitView> {
    v.map_values(|u: CompilationUnit| u@)
}

/// Number of functions in the first `n` units, modulo the range of `usize`.
pub open spec fn function_count(units: Seq<CompilationUnit>, n: int) -> usize
    decreases n,
{
    if n <= 0 {
        0
    } else {
        function_count(units, n - 1).wrapping_add(units[n - 1].functions@.len() as usize)
    }
}

/// Number of data in the first `n` units, modulo the range of `usize`.
pub open spec fn variable_count(units: Seq<CompilationUnit>, n: int) -> usize
    decreases n,
{
    if n <= 0 {
        0
    } else {
        variable_count(units, n - 1).wrapping_add(units[n - 1].variables@.len() as usize)
    }
}

impl CuIndex {
    /// Number of functions in all units.
    pub fn total_functions(&self) -> (n: usize)
        ensures
            n == function_count(self.units@, self.units@.len() as int),
    {
        let mut n: usize = 0;
        let mut i: usize = 0;
        while i < self.units.len()
            invariant
                i <= self.units@.len(),
                n == function_count(self.units@, i as int),
            decreases self.units@.len() - i,
        {
            n = n.wrapping_add(self.units[i].functions.len());
            i = i + 1;
        }
        n
    }

    /// Number of data in all units.
    pub fn total_variables(&self) -> (n: usize)
        ensures
            n == variable_count(self.units@, self.units@.len() as int),
    {
        let mut n: usize = 0;
        let mut i: usize = 0;
        while i < self.units.len()
            invariant
                i <= self.units@.len(),
                n == variable_count(self.units@, i as int),
            decreases self.units@.len() - i,
        {
            n = n.wrapping_add(self.units[i].variables.len());
            i = i + 1;
        }
        n
    }
}

} // verus!
