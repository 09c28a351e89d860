//! A Mach-O image in memory.
use vstd::prelude::*;

use super::cu::MachoCuIndex;
use super::symbols::MachoGlobalSymbols;
use crate::ranges::{bytes_at, slice_at, slice_view};
use crate::text::str_eq;

verus! {

/// Target architecture of a Mach-O image.
#[derive(Debug, Clone, Copy, PartialEq, Eq, Structural)]
pub enum MachoArch {
    /// 32-bit x86 / i386.
    X86,
    /// 64-bit x86-64.
    X86_64,
    /// 32-bit PowerPC (big-endian).
    PPC,
    /// 64-bit PowerPC (big-endian).
    PPC64,
}

/// Why an image could not be loaded.
#[derive(Debug, Clone, Copy, PartialEq, Eq, Structural)]
pub enum MachoError {
    /// The file is not an image that can be read.
    Unparsable,
    /// The image is for an architecture that is not supported.
    UnsupportedArchitecture,
    /// The DWARF information of the image cannot be read.
    Dwarf,
}

/// A single Mach-O section with its raw bytes and metadata.
#[derive(Debug)]
pub struct MachoSection {
    /// Segment name, e.g. `"__TEXT"` or `"__DATA"`.
    pub segment: String,
    /// Section name within the segment, e.g. `"__text"` or `"__data"`.
    pub name: String,
    /// Virtual memory address.
    pub addr: u64,
    /// Size in bytes (may be larger than the data of zero-filled sections).
    pub size: u64,
    /// Raw section bytes; empty for zero-filled sections.
    pub data: Vec<u8>,
    /// Section flags from the Mach-O header.
    pub flags: u32,
}

impl MachoSection {
    /// True when `addr` lies in the section.
    pub open spec fn spec_contains_addr(&self, addr: u64) -> bool {
        self.addr <= addr < self.addr + self.size
    }

    /// Tests whether `addr` lies in the section.
    pub fn contains_addr(&self, addr: u64) -> (b: bool)
        ensures
            b == self.spec_contains_addr(addr),
    {
        addr >= self.addr && addr - self.addr < self.size
    }

    /// Borrows the `len` bytes at `addr`.
    pub fn data_at_addr(&self, addr: u64, len: usize) -> (r: Option<&[u8]>)
        ensures
            slice_view(r) == bytes_at(self.data@, addr - self.addr, len as int),
    {
        if addr < self.addr {
            return None;
        }
        slice_at(self.data.as_slice(), addr - self.addr, len)
    }
}

/// All parsed data from a Mach-O image.
pub struct MachoContext {
    pub arch: MachoArch,
    pub little_endian: bool,
    pub sections: Vec<MachoSection>,
    pub cu_index: MachoCuIndex,
    pub symbols: MachoGlobalSymbols,
}

/// Index, from `i` on, of the first section that `p` holds of.
pub open spec fn first_section(
    sections: Seq<MachoSection>,
    p: spec_fn(MachoSection) -> bool,
    i: int,
) -> Option<int>
    decreases sections.len() - i,
{
    if i < 0 || i >= sections.len() {
        None
    } else if p(sections[i]) {
        Some(i)
    } else {
        first_section(sections, p, i + 1)
    }
}

/// Index of the first section called `name` in `segment`.
pub open spec fn section_index(
    sections: Seq<MachoSection>,
    segment: Seq<char>,
    name: Seq<char>,
) -> Option<int> {
    first_section(sections, |s: MachoSection| s.segment@ == segment && s.name@ == name, 0)
}

/// Finds the first section called `name` in `segment`.
pub fn find_section(sections: &Vec<MachoSection>, segment: &str, name: &str) -> (r: Option<usize>)
    ensures
        match r {
            Some(i) => i < sections@.len() && section_index(sections@, segment@, name@) == Some(
                i as int,
            ),
            None => section_index(sections@, segment@, name@) is None,
        },
{
    let ghost p = |s: MachoSection| s.segment@ == segment@ && s.name@ == name@;
    let mut i: usize = 0;
    while i < sections.len()
        invariant
            i <= sections@.len(),
            p == (|s: MachoSection| s.segment@ == segment@ && s.name@ == name@),
            section_index(sections@, segment@, name@) == first_section(sections@, p, i as int),
        decreases sections@.len() - i,
    {
        if str_eq(sections[i].segment.as_str(), segment) && str_eq(
            sections[i].name.as_str(),
            name,
        ) {
            return Some(i);
        }
        i = i + 1;
    }
    None
}

impl MachoContext {
    /// Finds the first section that holds `addr`.
    pub fn section_for_addr(&self, addr: u64) -> (r: Option<&MachoSection>)
        ensures
            match first_section(
                self.sections@,
                |s: MachoSection| s.spec_contains_addr(addr),
                0,
            ) {
                Some(i) => r == Some(&self.sections@[i]) && 0 <= i < self.sections@.len(),
                None => r is None,
            },
    {
        let ghost p = |s: MachoSection| s.spec_contains_addr(addr);
        let mut i: usize = 0;
        while i < self.sections.len()
            invariant
                i <= self.sections@.len(),
                p == (|s: MachoSection| s.spec_contains_addr(addr)),
                first_section(self.sections@, p, 0) == first_section(self.sections@, p, i as int),
            decreases self.sections@.len() - i,
        {
            if self.sections[i].contains_addr(addr) {
                return Some(&self.sections[i]);
            }
            i = i + 1;
        }
        None
    }

    /// The `__TEXT,__text` code section.
    pub fn text_section(&self) -> (r: Option<&MachoSection>)
        ensures
            match section_index(self.sections@, "__TEXT"@, "__text"@) {
                Some(i) => r == Some(&self.sections@[i]) && 0 <= i < self.sections@.len(),
                None => r is None,
            },
    {
        match find_section(&self.sections, "__TEXT", "__text") {
            Some(i) => Some(&self.sections[i]),
            None => None,
        }
    }
}

} // verus!
