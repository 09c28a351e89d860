//! Compilation units of a PE image, as its PDB lists them.
use vstd::prelude::*;

verus! {

/// A function of the image.
#[derive(Debug)]
pub struct PeFunction {
    pub name: String,
    pub va: u64,
    pub size: u32,
    /// Visible to other compilation units.
    pub is_public: bool,
}

/// A named datum of the image.
#[derive(Debug)]
pub struct PeVariable {
    pub name: String,
    pub va: u64,
    /// Visible to other compilation units.
    pub is_public: bool,
}

/// The bytes that a compilation unit contributes to one section.
#[derive(Debug)]
pub struct PeContrib {
    pub section_name: String,
    pub va: u64,
    pub size: u32,
}

/// One module of the PDB.
#[derive(Debug)]
pub struct PeCompilationUnit {
    pub id: usize,
    pub name: String,
    pub functions: Vec<PeFunction>,
    pub contributions: Vec<PeContrib>,
}

impl PeCompilationUnit {
    /// True when the unit has a function that takes up space.
    pub open spec fn spec_has_code(&self) -> bool {
        exists|i: int| 0 <= i < self.functions@.len() && (#[trigger] self.functions@[i]).size > 0
    }

    /// Tests whether the unit has a function that takes up space. Only such
    /// units become objects.
    pub fn has_code(&self) -> (b: bool)
        ensures
            b == self.spec_has_code(),
    {
        let mut i: usize = 0;
        while i < self.functions.len()
            invariant
                i <= self.functions@.len(),
                forall|j: int| 0 <= j < i ==> (#[trigger] self.functions@[j]).size == 0,
            decreases self.functions@.len() - i,
        {
            if self.functions[i].size > 0 {
                return true;
            }
            i = i + 1;
        }
        false
    }
}

/// Total size of functions, modulo the range of `u64`.
pub open spec fn total_size(functions: Seq<PeFunction>) -> u64
    decreases functions.len(),
{
    if functions.len() == 0 {
        0
    } else {
        total_size(functions.drop_last()).wrapping_add(functions.last().size as u64)
    }
}

impl PeCompilationUnit {
    /// Bytes of code in the unit.
    pub fn text_size(&self) -> (n: u64)
        ensures
            n == total_size(self.functions@),
    {
        let mut n: u64 = 0;
        let mut i: usize = 0;
        assert(self.functions@.subrange(0, 0) =~= Seq::empty());
        while i < self.functions.len()
            invariant
                i <= self.functions@.len(),
                n == total_size(self.functions@.subrange(0, i as int)),
            decreases self.functions@.len() - i,
        {
            n = n.wrapping_add(self.functions[i].size as u64);
            assert(self.functions@.subrange(0, i + 1).drop_last() =~= self.functions@.subrange(
                0,
                i as int,
            ));
            i = i + 1;
        }
        assert(self.functions@.subrange(0, self.functions@.len() as int) =~= self.functions@);
        n
    }
}

/// All modules of the PDB.
#[derive(Debug)]
pub struct PeCuIndex {
    pub units: Vec<PeCompilationUnit>,
}

} // verus!
