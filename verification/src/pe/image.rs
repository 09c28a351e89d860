//! The parts of a PE image: sections, base relocations and imports.
use std::collections::{BTreeMap, HashMap};
use vstd::prelude::*;

use super::cu::{PeCuIndex, PeFunction, PeVariable};
use super::pointers::is_of;
use super::symbols::{section_range, PeGlobalSymbols};
use crate::bytes::{copy_range, le_value, read_u16_le, read_u32_le, read_u64_le, zeros};
use crate::cstr::{find_nul, nul_index};
use crate::ranges::{bytes_at, slice_at, slice_view};
use crate::text::{decimal, digits, from_chars, from_utf8_lossy, joined, lossy_utf8, str_eq, texts, to_chars};

verus! {

broadcast use vstd::std_specs::hash::group_hash_axioms;

/// A single PE section with its raw bytes and virtual-address metadata.
#[derive(Debug)]
pub struct PeSection {
    pub name: String,
    /// RVA (relative virtual address from image base).
    pub rva: u64,
    /// Absolute virtual address: image base plus RVA.
    pub va: u64,
    /// Virtual size (may be larger than the raw data).
    pub virtual_size: u64,
    /// Raw bytes from the file, zero-extended to `virtual_size` if needed.
    pub data: Vec<u8>,
    pub characteristics: u32,
}

/// A section, with its name as text.
#[verifier::ext_equal]
pub ghost struct PeSectionView {
    pub name: Seq<char>,
    pub rva: u64,
    pub va: u64,
    pub virtual_size: u64,
    pub data: Seq<u8>,
    pub characteristics: u32,
}

impl View for PeSection {
    type V = PeSectionView;

    open spec fn view(&self) -> PeSectionView {
        PeSectionView {
            name: self.name@,
            rva: self.rva,
            va: self.va,
            virtual_size: self.virtual_size,
            data: self.data@,
            characteristics: self.characteristics,
        }
    }
}

impl PeSection {
    /// Sizes and addresses are those of a PE section header, and the data covers
    /// the virtual size.
    pub open spec fn wf(&self) -> bool {
        &&& self.rva <= u32::MAX
        &&& self.virtual_size <= u32::MAX
        &&& self.virtual_size <= self.data@.len()
    }

    /// True when `rva` lies in the section.
    pub open spec fn spec_contains_rva(&self, rva: u64) -> bool {
        self.rva <= rva < self.rva + self.virtual_size
    }

    /// True when `va` lies in the section.
    pub open spec fn spec_contains_va(&self, va: u64) -> bool {
        self.va <= va < self.va + self.virtual_size
    }

    /// Tests whether `rva` lies in the section.
    pub fn contains_rva(&self, rva: u64) -> (b: bool)
        ensures
            b == self.spec_contains_rva(rva),
    {
        rva >= self.rva && rva - self.rva < self.virtual_size
    }

    /// Tests whether `va` lies in the section.
    pub fn contains_va(&self, va: u64) -> (b: bool)
        ensures
            b == self.spec_contains_va(va),
    {
        va >= self.va && va - self.va < self.virtual_size
    }

    /// Borrows the `len` bytes at `rva`.
    pub fn data_at_rva(&self, rva: u64, len: usize) -> (r: Option<&[u8]>)
        ensures
            slice_view(r) == bytes_at(self.data@, rva - self.rva, len as int),
    {
        if rva < self.rva {
            return None;
        }
        slice_at(self.data.as_slice(), rva - self.rva, len)
    }

    /// Borrows the `len` bytes at the absolute address `va`.
    pub fn data_at_va(&self, va: u64, len: usize) -> (r: Option<&[u8]>)
        ensures
            slice_view(r) == bytes_at(self.data@, va - self.va, len as int),
    {
        if va < self.va {
            return None;
        }
        slice_at(self.data.as_slice(), va - self.va, len)
    }
}

/// A base-relocation entry from the `.reloc` section.
#[derive(Debug, Clone, Copy, PartialEq, Eq, Structural)]
pub struct BaseReloc {
    pub va: u64,
    pub kind: BaseRelocKind,
}

/// Type of a base relocation.
#[derive(Debug, Clone, Copy, PartialEq, Eq, Structural)]
pub enum BaseRelocKind {
    /// `IMAGE_REL_BASED_DIR64` (10): 64-bit absolute pointer.
    Dir64,
    /// `IMAGE_REL_BASED_HIGHLOW` (3): 32-bit absolute pointer.
    HighLow,
    /// Any other type.
    Other(u8),
}

/// Instruction set of a PE image.
#[derive(Debug, Clone, Copy, PartialEq, Eq, Structural)]
pub enum PeArch {
    X86,
    X86_64,
}

/// All parsed data from a PE and PDB pair.
pub struct PeContext {
    pub arch: PeArch,
    pub image_base: u64,
    pub sections: Vec<PeSection>,
    pub cu_index: PeCuIndex,
    pub symbols: PeGlobalSymbols,
    /// Base relocations: one entry per embedded absolute pointer.
    pub base_relocations: Vec<BaseReloc>,
    /// Slot of the import table to the name of the imported symbol.
    pub imports: HashMap<u64, String>,
}

/// Index of the first section that holds `va`.
pub open spec fn section_index_of_va(sections: Seq<PeSection>, va: u64) -> Option<int> {
    first_section(sections, |s: PeSection| s.spec_contains_va(va), 0)
}

/// Index, from `i` on, of the first section that `p` holds of.
pub open spec fn first_section(
    sections: Seq<PeSection>,
    p: spec_fn(PeSection) -> bool,
    i: int,
) -> Option<int>
    decreases sections.len() - i,
{
    if i < 0 || i >= sections.len() {
        None
    } else if p(sections[i]) {
        Some(i)
    } else {
        first_section(sections, p, i + 1)
    }
}

/// Index of the first section called `name`.
pub open spec fn section_index(sections: Seq<PeSection>, name: Seq<char>) -> Option<int> {
    first_section(sections, |s: PeSection| s.name@ == name, 0)
}

/// Finds the first section called `name`.
pub fn find_section(sections: &Vec<PeSection>, name: &str) -> (r: Option<usize>)
    ensures
        match r {
            Some(i) => i < sections@.len() && section_index(sections@, name@) == Some(i as int)
                && sections@[i as int].name@ == name@,
            None => section_index(sections@, name@) is None,
        },
{
    let ghost p = |s: PeSection| s.name@ == name@;
    let mut i: usize = 0;
    while i < sections.len()
        invariant
            i <= sections@.len(),
            p == (|s: PeSection| s.name@ == name@),
            section_index(sections@, name@) == first_section(sections@, p, i as int),
        decreases sections@.len() - i,
    {
        if str_eq(sections[i].name.as_str(), name) {
            return Some(i);
        }
        i = i + 1;
    }
    None
}

impl PeContext {
    /// Section headers have 32-bit fields, so addends into sections do too.
    pub open spec fn wf(&self) -> bool {
        &&& self.symbols.wf()
        &&& sections_wf(self.sections@)
    }

    /// Bytes at `va` in the first section that holds it.
    pub open spec fn spec_data_at_va(&self, va: u64, len: int) -> Option<Seq<u8>> {
        match section_index_of_va(self.sections@, va) {
            Some(i) => bytes_at(self.sections@[i].data@, va - self.sections@[i].va, len),
            None => None,
        }
    }

    /// Finds the first section that holds `va`.
    pub fn section_for_va(&self, va: u64) -> (r: Option<&PeSection>)
        ensures
            match section_index_of_va(self.sections@, va) {
                Some(i) => r == Some(&self.sections@[i]) && 0 <= i < self.sections@.len(),
                None => r is None,
            },
    {
        let ghost p = |s: PeSection| s.spec_contains_va(va);
        let mut i: usize = 0;
        while i < self.sections.len()
            invariant
                i <= self.sections@.len(),
                p == (|s: PeSection| s.spec_contains_va(va)),
                section_index_of_va(self.sections@, va) == first_section(
                    self.sections@,
                    p,
                    i as int,
                ),
            decreases self.sections@.len() - i,
        {
            if self.sections[i].contains_va(va) {
                return Some(&self.sections[i]);
            }
            i = i + 1;
        }
        None
    }

    /// Bytes at an absolute address, inside a single section.
    pub fn data_at_va(&self, va: u64, len: usize) -> (r: Option<&[u8]>)
        ensures
            slice_view(r) == self.spec_data_at_va(va, len as int),
    {
        match self.section_for_va(va) {
            Some(s) => s.data_at_va(va, len),
            None => None,
        }
    }
}

/// Why a file is no PE image that can be read.
#[derive(Debug, Clone, Copy, PartialEq, Eq, Structural)]
pub enum PeError {
    /// The file is too small for a PE header.
    TooSmall,
    /// The `MZ` signature is missing.
    NoDosSignature,
    /// The offset of the PE header lies outside the file.
    HeaderOffset,
    /// The `PE` signature is missing.
    NoSignature,
    /// The COFF header does not fit the file.
    CoffHeader,
    /// The machine is not AMD64.
    Machine(u16),
    /// The optional header lies outside the file.
    OptionalHeader,
    /// The image is not PE32+.
    Magic(u16),
    /// The optional header ends before the image base.
    ImageBase,
    /// The section headers do not fit the file.
    SectionHeaders,
    /// The raw data of the section of this number does not fit the file.
    SectionData(usize),
}

/// `s` without the NUL characters at its end.
pub open spec fn trim_nuls(s: Seq<char>) -> Seq<char>
    decreases s.len(),
{
    if s.len() > 0 && s.last() == '\0' {
        trim_nuls(s.drop_last())
    } else {
        s
    }
}

fn trim_end_nuls(s: &str) -> (r: String)
    ensures
        r@ == trim_nuls(s@),
{
    let v = to_chars(s);
    let mut end: usize = v.len();
    assert(v@.subrange(0, end as int) =~= s@);
    while end > 0 && v[end - 1] == '\0'
        invariant
            end <= v@.len(),
            trim_nuls(v@.subrange(0, end as int)) == trim_nuls(s@),
        decreases end,
    {
        assert(v@.subrange(0, end as int).drop_last() =~= v@.subrange(0, end - 1));
        end = end - 1;
    }
    from_chars(&v, 0, end)
}

/// The headers of a PE image: where the COFF header is, the image base, and
/// where how many section headers are.
pub struct PeHeader {
    pub image_base: u64,
    pub sections_off: u64,
    pub num_sections: u16,
}

/// Offset of the PE signature.
pub open spec fn pe_offset(exe: Seq<u8>) -> int {
    le_value(exe, 0x3c, 4)
}

/// Offset of the optional header.
pub open spec fn optional_offset(exe: Seq<u8>) -> int {
    pe_offset(exe) + 24
}

/// Why the headers of an image cannot be read, if they cannot.
pub open spec fn header_error(exe: Seq<u8>) -> Option<PeError> {
    let pe = pe_offset(exe);
    let opt = optional_offset(exe);
    let machine = le_value(exe, pe + 4, 2);
    let magic = le_value(exe, opt, 2);
    if exe.len() < 0x40 {
        Some(PeError::TooSmall)
    } else if !(exe[0] == 0x4d && exe[1] == 0x5a) {
        Some(PeError::NoDosSignature)
    } else if pe + 4 > exe.len() {
        Some(PeError::HeaderOffset)
    } else if !(exe[pe] == 0x50 && exe[pe + 1] == 0x45 && exe[pe + 2] == 0 && exe[pe + 3] == 0) {
        Some(PeError::NoSignature)
    } else if pe + 24 > exe.len() {
        Some(PeError::CoffHeader)
    } else if machine != 0x8664 {
        Some(PeError::Machine(machine as u16))
    } else if opt + 2 > exe.len() {
        Some(PeError::OptionalHeader)
    } else if magic != 0x020b {
        Some(PeError::Magic(magic as u16))
    } else if opt + 32 > exe.len() {
        Some(PeError::ImageBase)
    } else if opt + le_value(exe, pe + 20, 2) + 40 * le_value(exe, pe + 6, 2) > exe.len() {
        Some(PeError::SectionHeaders)
    } else {
        None
    }
}

/// The headers of an image that can be read.
pub open spec fn header_of(exe: Seq<u8>) -> PeHeader {
    PeHeader {
        image_base: le_value(exe, optional_offset(exe) + 24, 8) as u64,
        sections_off: (optional_offset(exe) + le_value(exe, pe_offset(exe) + 20, 2)) as u64,
        num_sections: le_value(exe, pe_offset(exe) + 6, 2) as u16,
    }
}

fn parse_header(exe: &[u8]) -> (r: Result<PeHeader, PeError>)
    ensures
        match r {
            Ok(h) => header_error(exe@) is None && h == header_of(exe@) && h.sections_off + 40
                * h.num_sections <= exe@.len(),
            Err(e) => header_error(exe@) == Some(e),
        },
{
    let n: usize = exe.len();
    if n < 0x40 {
        return Err(PeError::TooSmall);
    }
    if !(exe[0] == 0x4d && exe[1] == 0x5a) {
        return Err(PeError::NoDosSignature);
    }
    let pe: u64 = read_u32_le(exe, 0x3c) as u64;
    if pe + 4 > n as u64 {
        return Err(PeError::HeaderOffset);
    }
    let at: usize = pe as usize;
    if !(exe[at] == 0x50 && exe[at + 1] == 0x45 && exe[at + 2] == 0 && exe[at + 3] == 0) {
        return Err(PeError::NoSignature);
    }
    if pe + 24 > n as u64 {
        return Err(PeError::CoffHeader);
    }
    let machine = read_u16_le(exe, at + 4);
    if machine != 0x8664 {
        return Err(PeError::Machine(machine));
    }
    let num_sections = read_u16_le(exe, at + 6);
    let opt_size = read_u16_le(exe, at + 20);
    let opt: u64 = pe + 24;
    if opt + 2 > n as u64 {
        return Err(PeError::OptionalHeader);
    }
    let magic = read_u16_le(exe, opt as usize);
    if magic != 0x020b {
        return Err(PeError::Magic(magic));
    }
    if opt + 32 > n as u64 {
        return Err(PeError::ImageBase);
    }
    let image_base = read_u64_le(exe, opt as usize + 24);
    let sections_off: u64 = opt + opt_size as u64;
    if sections_off + num_sections as u64 * 40 > n as u64 {
        return Err(PeError::SectionHeaders);
    }
    Ok(PeHeader { image_base, sections_off, num_sections })
}

/// The raw bytes of a section, extended with zeros to its virtual size.
pub open spec fn section_data(exe: Seq<u8>, ptr: int, raw: int, virtual_size: int) -> Seq<u8> {
    let data = if ptr == 0 || raw == 0 {
        Seq::empty()
    } else {
        exe.subrange(ptr, ptr + raw)
    };
    if data.len() < virtual_size {
        data + zeros((virtual_size - data.len()) as nat)
    } else {
        data
    }
}

/// True when the section whose header is at `h` has its raw data in the file.
pub open spec fn section_in_file(exe: Seq<u8>, h: int) -> bool {
    let raw = le_value(exe, h + 16, 4);
    let ptr = le_value(exe, h + 20, 4);
    ptr == 0 || raw == 0 || ptr + raw <= exe.len()
}

/// The section whose header is at `h`.
pub open spec fn section_at(exe: Seq<u8>, h: int, image_base: u64) -> PeSectionView {
    let rva = le_value(exe, h + 12, 4) as u64;
    PeSectionView {
        name: trim_nuls(lossy_utf8(exe.subrange(h, h + 8))),
        rva,
        va: image_base.wrapping_add(rva),
        virtual_size: le_value(exe, h + 8, 4) as u64,
        data: section_data(
            exe,
            le_value(exe, h + 20, 4),
            le_value(exe, h + 16, 4),
            le_value(exe, h + 8, 4),
        ),
        characteristics: le_value(exe, h + 36, 4) as u32,
    }
}

/// Offset of section header `i`.
pub open spec fn section_header(h: PeHeader, i: int) -> int {
    h.sections_off + 40 * i
}

/// Every section is one that a PE header can describe.
pub open spec fn sections_wf(sections: Seq<PeSection>) -> bool {
    forall|i: int| 0 <= i < sections.len() ==> (#[trigger] sections[i]).wf()
}

/// The sections are those that the headers of the image describe, and their raw
/// data lies in the file.
pub open spec fn sections_are(exe: Seq<u8>, sections: Seq<PeSection>) -> bool {
    let h = header_of(exe);
    &&& sections.len() == h.num_sections
    &&& forall|i: int|
        0 <= i < sections.len() ==> section_in_file(exe, section_header(h, i)) && (
        #[trigger] sections[i])@ == section_at(exe, section_header(h, i), h.image_base)
}

/// Section `k` is the first whose raw data does not lie in the file.
pub open spec fn first_bad_section(exe: Seq<u8>, k: usize) -> bool {
    let h = header_of(exe);
    &&& k < h.num_sections
    &&& !section_in_file(exe, section_header(h, k as int))
    &&& forall|i: int| 0 <= i < k ==> section_in_file(exe, #[trigger] section_header(h, i))
}

fn parse_section(exe: &[u8], h: usize, image_base: u64, index: usize) -> (r: Result<
    PeSection,
    PeError,
>)
    requires
        h + 40 <= exe@.len(),
    ensures
        match r {
            Ok(s) => section_in_file(exe@, h as int) && s@ == section_at(exe@, h as int, image_base)
                && s.wf(),
            Err(e) => !section_in_file(exe@, h as int) && e == PeError::SectionData(index),
        },
{
    let n: usize = exe.len();
    let raw_name = from_utf8_lossy(vstd::slice::slice_subrange(exe, h, h + 8));
    let name = trim_end_nuls(raw_name.as_str());
    let virtual_size = read_u32_le(exe, h + 8);
    let rva = read_u32_le(exe, h + 12) as u64;
    let raw = read_u32_le(exe, h + 16);
    let ptr = read_u32_le(exe, h + 20);
    let characteristics = read_u32_le(exe, h + 36);
    let mut data: Vec<u8> = if ptr == 0 || raw == 0 {
        Vec::new()
    } else {
        let end: u64 = ptr as u64 + raw as u64;
        if end > n as u64 {
            return Err(PeError::SectionData(index));
        }
        copy_range(exe, ptr as usize, end as usize)
    };
    let ghost before = data@;
    if (data.len() as u64) < virtual_size as u64 {
        data.resize(virtual_size as usize, 0);
        assert(data@ =~= before + zeros((virtual_size - before.len()) as nat));
    }
    Ok(
        PeSection {
            name,
            rva,
            va: image_base.wrapping_add(rva),
            virtual_size: virtual_size as u64,
            data,
            characteristics,
        },
    )
}

/// Reads the headers and sections of a PE image.
pub fn parse_pe_sections(exe: &[u8]) -> (r: Result<(u64, Vec<PeSection>), PeError>)
    ensures
        match r {
            Ok((image_base, sections)) => {
                &&& header_error(exe@) is None
                &&& image_base == header_of(exe@).image_base
                &&& sections_wf(sections@)
                &&& sections_are(exe@, sections@)
            },
            Err(PeError::SectionData(k)) => {
                &&& header_error(exe@) is None
                &&& first_bad_section(exe@, k)
            },
            Err(e) => header_error(exe@) == Some(e),
        },
{
    let header = match parse_header(exe) {
        Ok(h) => h,
        Err(e) => return Err(e),
    };
    let n: usize = header.num_sections as usize;
    let len: usize = exe.len();
    let mut sections: Vec<PeSection> = Vec::new();
    let mut i: usize = 0;
    while i < n
        invariant
            n == header.num_sections,
            header == header_of(exe@),
            header_error(exe@) is None,
            len == exe@.len(),
            header.sections_off + 40 * n <= len,
            i <= n,
            sections@.len() == i,
            sections_wf(sections@),
            forall|j: int|
                0 <= j < i ==> section_in_file(exe@, #[trigger] section_header(header, j)),
            forall|j: int|
                0 <= j < i ==> (#[trigger] sections@[j])@ == section_at(
                    exe@,
                    section_header(header, j),
                    header.image_base,
                ),
        decreases n - i,
    {
        let h: usize = (header.sections_off + 40 * i as u64) as usize;
        assert(h == section_header(header, i as int));
        match parse_section(exe, h, header.image_base, i) {
            Ok(s) => sections.push(s),
            Err(e) => return Err(e),
        }
        i = i + 1;
    }
    Ok((header.image_base, sections))
}

/// The entry `k` of the base-relocation block at `off`; padding is none.
pub open spec fn base_reloc_entry(data: Seq<u8>, off: int, k: int, image_base: u64) -> Option<
    BaseReloc,
> {
    let entry = le_value(data, off + 8 + 2 * k, 2);
    let typ = entry / 0x1000;
    let page_rva = le_value(data, off, 4) as u64;
    if typ == 0 {
        None
    } else {
        Some(
            BaseReloc {
                va: image_base.wrapping_add(page_rva).wrapping_add((entry % 0x1000) as u64),
                kind: if typ == 3 {
                    BaseRelocKind::HighLow
                } else if typ == 10 {
                    BaseRelocKind::Dir64
                } else {
                    BaseRelocKind::Other(typ as u8)
                },
            },
        )
    }
}

/// The relocations of the first `n` entries of the block at `off`.
pub open spec fn block_relocs(data: Seq<u8>, off: int, n: nat, image_base: u64) -> Seq<BaseReloc>
    decreases n,
{
    if n == 0 {
        Seq::empty()
    } else {
        let before = block_relocs(data, off, (n - 1) as nat, image_base);
        match base_reloc_entry(data, off, n - 1, image_base) {
            Some(r) => before.push(r),
            None => before,
        }
    }
}

/// The relocations of the blocks from `off` on. A block whose size is too small
/// or too large ends the table.
pub open spec fn base_relocs_from(data: Seq<u8>, off: int, image_base: u64) -> Seq<BaseReloc>
    decreases data.len() - off,
{
    let size = le_value(data, off + 4, 4);
    if off < 0 || off + 8 > data.len() || size < 8 || off + size > data.len() {
        Seq::empty()
    } else {
        block_relocs(data, off, ((size - 8) / 2) as nat, image_base) + base_relocs_from(
            data,
            off + size,
            image_base,
        )
    }
}

/// The base relocations of an image, from its `.reloc` section.
pub open spec fn base_relocs(sections: Seq<PeSection>, image_base: u64) -> Seq<BaseReloc> {
    match section_index(sections, ".reloc"@) {
        Some(i) => base_relocs_from(sections[i].data@, 0, image_base),
        None => Seq::empty(),
    }
}

/// Reads the base relocations of an image.
pub fn parse_base_relocations(sections: &Vec<PeSection>, image_base: u64) -> (r: Vec<BaseReloc>)
    ensures
        r@ == base_relocs(sections@, image_base),
{
    let mut relocs: Vec<BaseReloc> = Vec::new();
    let index = match find_section(sections, ".reloc") {
        Some(i) => i,
        None => return relocs,
    };
    let data = sections[index].data.as_slice();
    let n: usize = data.len();
    let mut off: usize = 0;
    let mut more: bool = true;
    while more
        invariant
            n == data@.len(),
            off <= n,
            base_relocs_from(data@, 0, image_base) == relocs@ + (if more {
                base_relocs_from(data@, off as int, image_base)
            } else {
                Seq::empty()
            }),
        decreases (if more { n - off + 1 } else { 0 }),
    {
        if n - off < 8 {
            more = false;
        } else {
            let page_rva = read_u32_le(data, off) as u64;
            let size: u64 = read_u32_le(data, off + 4) as u64;
            if size < 8 || size > (n - off) as u64 {
                more = false;
            } else {
                let count: usize = (size as usize - 8) / 2;
                let ghost before = relocs@;
                let mut k: usize = 0;
                while k < count
                    invariant
                        n == data@.len(),
                        k <= count,
                        size == le_value(data@, off + 4, 4),
                        page_rva == le_value(data@, off as int, 4),
                        count == (size - 8) / 2,
                        off + size <= n,
                        size >= 8,
                        relocs@ == before + block_relocs(data@, off as int, k as nat, image_base),
                    decreases count - k,
                {
                    let entry = read_u16_le(data, off + 8 + 2 * k);
                    let typ: u16 = entry / 0x1000;
                    if typ != 0 {
                        let va: u64 = image_base.wrapping_add(page_rva).wrapping_add(
                            (entry % 0x1000) as u64,
                        );
                        let kind = if typ == 3 {
                            BaseRelocKind::HighLow
                        } else if typ == 10 {
                            BaseRelocKind::Dir64
                        } else {
                            BaseRelocKind::Other(typ as u8)
                        };
                        relocs.push(BaseReloc { va, kind });
                    }
                    k = k + 1;
                    assert(relocs@ =~= before + block_relocs(
                        data@,
                        off as int,
                        k as nat,
                        image_base,
                    ));
                }
                assert(relocs@ + base_relocs_from(data@, off + size, image_base) =~= before
                    + base_relocs_from(data@, off as int, image_base));
                off = off + size as usize;
            }
        }
    }
    relocs
}

/// The bytes at `rva` in the first section that covers them all.
pub open spec fn rva_bytes(sections: Seq<PeSection>, rva: u64, len: int) -> Option<Seq<u8>> {
    match first_section(
        sections,
        |s: PeSection| s.rva <= rva && rva + len <= s.rva + s.virtual_size,
        0,
    ) {
        Some(i) => bytes_at(sections[i].data@, rva - sections[i].rva, len),
        None => None,
    }
}

/// Borrows the bytes at `rva` in the first section that covers them all.
pub fn rva_slice(sections: &Vec<PeSection>, rva: u64, len: usize) -> (r: Option<&[u8]>)
    ensures
        slice_view(r) == rva_bytes(sections@, rva, len as int),
{
    let ghost p = |s: PeSection| s.rva <= rva && rva + len as int <= s.rva + s.virtual_size;
    let mut i: usize = 0;
    while i < sections.len()
        invariant
            i <= sections@.len(),
            p == (|s: PeSection| s.rva <= rva && rva + len as int <= s.rva + s.virtual_size),
            first_section(sections@, p, 0) == first_section(sections@, p, i as int),
        decreases sections@.len() - i,
    {
        let s = &sections[i];
        if rva >= s.rva && rva - s.rva <= s.virtual_size && len as u64 <= s.virtual_size - (rva
            - s.rva) {
            return slice_at(s.data.as_slice(), rva - s.rva, len);
        }
        i = i + 1;
    }
    None
}

/// The text at `rva`, up to a zero byte or the end of its section.
pub open spec fn rva_text(sections: Seq<PeSection>, rva: u64) -> Option<Seq<char>> {
    match first_section(sections, |s: PeSection| s.spec_contains_rva(rva), 0) {
        Some(i) => {
            let data = sections[i].data@;
            let off = rva - sections[i].rva;
            Some(lossy_utf8(data.subrange(off, nul_index(data, off))))
        },
        None => None,
    }
}

/// Reads the text at `rva`.
pub fn rva_cstr(sections: &Vec<PeSection>, rva: u64) -> (r: Option<String>)
    requires
        sections_wf(sections@),
    ensures
        match r {
            Some(s) => rva_text(sections@, rva) == Some(s@),
            None => rva_text(sections@, rva) is None,
        },
{
    let ghost p = |s: PeSection| s.spec_contains_rva(rva);
    let mut i: usize = 0;
    while i < sections.len()
        invariant
            sections_wf(sections@),
            i <= sections@.len(),
            p == (|s: PeSection| s.spec_contains_rva(rva)),
            first_section(sections@, p, 0) == first_section(sections@, p, i as int),
        decreases sections@.len() - i,
    {
        let s = &sections[i];
        if s.contains_rva(rva) {
            let data = s.data.as_slice();
            assert(s.wf());
            let off: usize = (rva - s.rva) as usize;
            let end = find_nul(data, off);
            return Some(from_utf8_lossy(vstd::slice::slice_subrange(data, off, end)));
        }
        i = i + 1;
    }
    None
}

/// The text of an optional string, or none.
pub open spec fn or_empty(s: Option<Seq<char>>) -> Seq<char> {
    match s {
        Some(t) => t,
        None => Seq::empty(),
    }
}

/// Name of an imported function by its thunk: an ordinal of the library, or a
/// name in the image.
pub open spec fn thunk_name(sections: Seq<PeSection>, thunk: u64, name_rva: u64) -> Seq<char> {
    if thunk >= 0x8000_0000_0000_0000 {
        let dll = if name_rva == 0 {
            Seq::empty()
        } else {
            or_empty(rva_text(sections, name_rva))
        };
        dll + "#"@ + digits((thunk % 0x1_0000) as nat, 10)
    } else {
        or_empty(rva_text(sections, (thunk + 2) as u64))
    }
}

/// The import slots of one library, from entry `k` of its thunk table on.
pub open spec fn imports_of_library(
    m: Map<u64, Seq<char>>,
    sections: Seq<PeSection>,
    image_base: u64,
    hint_rva: u64,
    first_thunk: u64,
    name_rva: u64,
    k: int,
) -> Map<u64, Seq<char>>
    decreases 0x2_0000_0000 - k,
{
    if k < 0 || k >= 0x2_0000_0000 {
        m
    } else {
        match rva_bytes(sections, (hint_rva + 8 * k) as u64, 8) {
            None => m,
            Some(b) => {
                let thunk = le_value(b, 0, 8) as u64;
                if thunk == 0 {
                    m
                } else {
                    let name = thunk_name(sections, thunk, name_rva);
                    let slot = image_base.wrapping_add(first_thunk).wrapping_add((8 * k) as u64);
                    imports_of_library(
                        if name.len() == 0 {
                            m
                        } else {
                            m.insert(slot, "__imp_"@ + name)
                        },
                        sections,
                        image_base,
                        hint_rva,
                        first_thunk,
                        name_rva,
                        k + 1,
                    )
                }
            },
        }
    }
}

/// The import slots of the libraries whose descriptors begin at `rva`.
pub open spec fn imports_from(
    m: Map<u64, Seq<char>>,
    sections: Seq<PeSection>,
    image_base: u64,
    rva: int,
) -> Map<u64, Seq<char>>
    decreases 0x2_0000_0100 - rva,
{
    if rva < 0 || rva >= 0x2_0000_0000 {
        m
    } else {
        match rva_bytes(sections, rva as u64, 20) {
            None => m,
            Some(d) => {
                let original = le_value(d, 0, 4) as u64;
                let name_rva = le_value(d, 12, 4) as u64;
                let first = le_value(d, 16, 4) as u64;
                if original == 0 && first == 0 {
                    m
                } else {
                    let hint = if original != 0 {
                        original
                    } else {
                        first
                    };
                    imports_from(
                        imports_of_library(m, sections, image_base, hint, first, name_rva, 0),
                        sections,
                        image_base,
                        rva + 20,
                    )
                }
            },
        }
    }
}

/// The import slots of an image and their names. An image without room for an
/// import directory, or with an empty one, has none.
pub open spec fn imports_of(exe: Seq<u8>, sections: Seq<PeSection>, image_base: u64) -> Map<
    u64,
    Seq<char>,
> {
    let dir = optional_offset(exe) + 120;
    if exe.len() < 0x40 || dir + 8 > exe.len() || le_value(exe, dir, 4) == 0 {
        Map::empty()
    } else {
        imports_from(Map::empty(), sections, image_base, le_value(exe, dir, 4))
    }
}

/// No section of an image reaches beyond the addresses that two 32-bit fields
/// add up to.
proof fn lemma_rva_limit(sections: Seq<PeSection>, rva: u64, len: int)
    requires
        sections_wf(sections),
        len > 0,
        rva_bytes(sections, rva, len) is Some,
    ensures
        rva < 0x2_0000_0000 - 2,
{
    let p = |s: PeSection| s.rva <= rva && rva + len <= s.rva + s.virtual_size;
    lemma_first_section(sections, p, 0);
    let i = first_section(sections, p, 0)->0;
    assert(sections[i].wf());
}

proof fn lemma_first_section(sections: Seq<PeSection>, p: spec_fn(PeSection) -> bool, i: int)
    requires
        0 <= i,
    ensures
        first_section(sections, p, i) matches Some(k) ==> i <= k < sections.len() && p(sections[k]),
    decreases sections.len() - i,
{
    if i < sections.len() && !p(sections[i]) {
        lemma_first_section(sections, p, i + 1);
    }
}

fn thunk_text(sections: &Vec<PeSection>, thunk: u64, name_rva: u64) -> (r: String)
    requires
        sections_wf(sections@),
    ensures
        r@ == thunk_name(sections@, thunk, name_rva),
{
    if thunk >= 0x8000_0000_0000_0000 {
        let dll = if name_rva == 0 {
            String::new()
        } else {
            match rva_cstr(sections, name_rva) {
                Some(s) => s,
                None => String::new(),
            }
        };
        let marked = joined(dll.as_str(), "#");
        let number = decimal(thunk % 0x1_0000);
        joined(marked.as_str(), number.as_str())
    } else {
        match rva_cstr(sections, thunk + 2) {
            Some(s) => s,
            None => String::new(),
        }
    }
}

fn parse_library(
    map: &mut HashMap<u64, String>,
    sections: &Vec<PeSection>,
    image_base: u64,
    hint_rva: u64,
    first_thunk: u64,
    name_rva: u64,
)
    requires
        sections_wf(sections@),
        hint_rva <= u32::MAX,
        first_thunk <= u32::MAX,
    ensures
        texts(final(map)@) == imports_of_library(
            texts(old(map)@),
            sections@,
            image_base,
            hint_rva,
            first_thunk,
            name_rva,
            0,
        ),
{
    let mut k: u64 = 0;
    let mut more: bool = true;
    while more
        invariant
            sections_wf(sections@),
            hint_rva <= u32::MAX,
            k <= 0x2_0000_0000,
            imports_of_library(
                texts(old(map)@),
                sections@,
                image_base,
                hint_rva,
                first_thunk,
                name_rva,
                0,
            ) == (if more {
                imports_of_library(
                    texts(map@),
                    sections@,
                    image_base,
                    hint_rva,
                    first_thunk,
                    name_rva,
                    k as int,
                )
            } else {
                texts(map@)
            }),
        decreases (if more { 0x2_0000_0001 - k } else { 0 }),
    {
        if k >= 0x2_0000_0000 {
            more = false;
        } else {
            match rva_slice(sections, hint_rva + 8 * k, 8) {
                None => {
                    more = false;
                },
                Some(b) => {
                    let thunk = read_u64_le(b, 0);
                    if thunk == 0 {
                        more = false;
                    } else {
                        let name = thunk_text(sections, thunk, name_rva);
                        if !name.as_str().is_empty() {
                            let slot: u64 = image_base.wrapping_add(first_thunk).wrapping_add(
                                8 * k,
                            );
                            let full = joined("__imp_", name.as_str());
                            let ghost before = texts(map@);
                            let ghost text = full@;
                            map.insert(slot, full);
                            assert(texts(map@) =~= before.insert(slot, text));
                        }
                        k = k + 1;
                    }
                },
            }
        }
    }
}

/// Reads the import slots of an image.
pub fn parse_imports(exe: &[u8], sections: &Vec<PeSection>, image_base: u64) -> (r: HashMap<
    u64,
    String,
>)
    requires
        sections_wf(sections@),
    ensures
        texts(r@) == imports_of(exe@, sections@, image_base),
{
    let mut map: HashMap<u64, String> = HashMap::new();
    assert(texts(map@) =~= Map::empty());
    let n: usize = exe.len();
    if n < 0x40 {
        return map;
    }
    let dir: u64 = read_u32_le(exe, 0x3c) as u64 + 24 + 120;
    if dir + 8 > n as u64 {
        return map;
    }
    let import_rva = read_u32_le(exe, dir as usize);
    if import_rva == 0 {
        return map;
    }
    let mut rva: u64 = import_rva as u64;
    let mut more: bool = true;
    while more
        invariant
            sections_wf(sections@),
            rva <= 0x2_0000_0000 + 20,
            imports_from(Map::empty(), sections@, image_base, import_rva as int) == (if more {
                imports_from(texts(map@), sections@, image_base, rva as int)
            } else {
                texts(map@)
            }),
        decreases (if more { 0x2_0000_0100 - rva } else { 0 }),
    {
        match rva_slice(sections, rva, 20) {
            None => {
                more = false;
            },
            Some(d) => {
                proof {
                    lemma_rva_limit(sections@, rva, 20);
                }
                let original = read_u32_le(d, 0) as u64;
                let name_rva = read_u32_le(d, 12) as u64;
                let first = read_u32_le(d, 16) as u64;
                if original == 0 && first == 0 {
                    more = false;
                } else {
                    let hint = if original != 0 {
                        original
                    } else {
                        first
                    };
                    parse_library(&mut map, sections, image_base, hint, first, name_rva);
                    rva = rva + 20;
                }
            },
        }
    }
    map
}

/// What a PDB says of the image it belongs to.
pub struct PdbSymbols {
    pub cu_index: PeCuIndex,
    pub functions: BTreeMap<u64, PeFunction>,
    pub variables: BTreeMap<u64, PeVariable>,
}

/// Reads a 64-bit PE image and joins it with what its PDB says.
pub fn load_pe_and_pdb(exe: &[u8], pdb: PdbSymbols) -> (r: Result<PeContext, PeError>)
    ensures
        match r {
            Ok(pe) => {
                &&& pe.wf()
                &&& header_error(exe@) is None
                &&& pe.arch == PeArch::X86_64
                &&& pe.image_base == header_of(exe@).image_base
                &&& sections_are(exe@, pe.sections@)
                &&& pe.cu_index == pdb.cu_index
                &&& pe.symbols.functions == pdb.functions
                &&& pe.symbols.variables == pdb.variables
                &&& texts(pe.symbols.imports@) == imports_of(
                    exe@,
                    pe.sections@,
                    pe.image_base,
                )
                &&& pe.symbols.text_range == section_range(pe.sections@, ".text"@)
                &&& pe.symbols.rdata_range == section_range(pe.sections@, ".rdata"@)
                &&& pe.symbols.data_range == section_range(pe.sections@, ".data"@)
                &&& pe.symbols.bss_range == section_range(pe.sections@, ".bss"@)
                &&& pe.symbols.idata_range == section_range(pe.sections@, ".idata"@)
                &&& is_of(pe.symbols, pe.sections@)
                &&& pe.base_relocations@ == base_relocs(pe.sections@, pe.image_base)
                &&& texts(pe.imports@) == imports_of(exe@, pe.sections@, pe.image_base)
            },
            Err(PeError::SectionData(k)) => {
                &&& header_error(exe@) is None
                &&& first_bad_section(exe@, k)
            },
            Err(e) => header_error(exe@) == Some(e),
        },
{
    let (image_base, sections) = match parse_pe_sections(exe) {
        Ok(p) => p,
        Err(e) => return Err(e),
    };
    let base_relocations = parse_base_relocations(&sections, image_base);
    let imports = parse_imports(exe, &sections, image_base);
    assert forall|i: int| 0 <= i < sections@.len() implies (#[trigger] sections@[i]).virtual_size
        <= u32::MAX by {
        assert(sections@[i].wf());
    }
    let symbols = PeGlobalSymbols::build(
        pdb.functions,
        pdb.variables,
        imports.clone(),
        &sections,
    );
    Ok(
        PeContext {
            arch: PeArch::X86_64,
            image_base,
            sections,
            cu_index: pdb.cu_index,
            symbols,
            base_relocations,
            imports,
        },
    )
}

} // verus!
