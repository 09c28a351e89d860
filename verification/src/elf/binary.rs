//! Loading an ELF shared object.
//!
//! AArch64 images in ELF64 and 32-bit ARM images in ELF32 are accepted. The class
//! and the architecture decide how relocations are encoded: AArch64 has explicit
//! addends, ARM stores the addend in the relocated field.
use vstd::prelude::*;

use crate::arch::{spec_arch_of_machine, Arch, ElfClass};
use crate::bytes::{le_value, read_u16, read_u32_le, read_u64_le, value_at};
use crate::image::{
    elf_section, find_elf_section, image_sections, read_sections, section_views, ImageSection,
};
use crate::ranges::slice_view;
use crate::text::{decimal, digits, hex, joined, owned};

verus! {

/// `e_type` of shared objects.
pub const ET_DYN: u16 = 3;

/// What can be wrong with an ELF image.
#[derive(Debug, Clone, Copy, PartialEq, Eq, Structural)]
pub enum ElfError {
    /// The file does not begin like an ELF file.
    NotElf,
    /// The file is neither ELF32 nor ELF64; holds its `EI_CLASS`.
    UnknownClass(u8),
    /// The file is big-endian.
    BigEndian,
    /// The file is not a shared object; holds its `e_type`.
    NotShared(u16),
    /// The machine is not supported; holds its `e_machine`.
    UnsupportedMachine(u16),
    /// The architecture does not come in files of this class.
    Mismatch(Arch, ElfClass),
    /// The section table cannot be read.
    Unparsable,
    /// The bytes of a section do not lie in the file.
    UnreadableSection,
}

impl ElfError {
    /// What the error says.
    pub open spec fn spec_message(self) -> Seq<char> {
        match self {
            ElfError::NotElf => "not an ELF file"@,
            ElfError::UnknownClass(c) => "unknown EI_CLASS "@ + digits(c as nat, 10),
            ElfError::BigEndian => "big-endian ELF"@,
            ElfError::NotShared(t) => "expected ET_DYN shared object, got e_type=0x"@ + digits(
                t as nat,
                16,
            ),
            ElfError::UnsupportedMachine(m) => "unsupported machine e_machine=0x"@ + digits(
                m as nat,
                16,
            ) + " (supported: 0xb7 EM_AARCH64, 0x28 EM_ARM)"@,
            ElfError::Mismatch(a, c) => a.spec_name() + " in an "@ + c.spec_name() + " container"@,
            ElfError::Unparsable => "malformed ELF file"@,
            ElfError::UnreadableSection => "section data outside the file"@,
        }
    }

    /// What the error says.
    pub fn message(self) -> (s: String)
        ensures
            s@ == self.spec_message(),
    {
        match self {
            ElfError::NotElf => owned("not an ELF file"),
            ElfError::UnknownClass(c) => joined("unknown EI_CLASS ", decimal(c as u64).as_str()),
            ElfError::BigEndian => owned("big-endian ELF"),
            ElfError::NotShared(t) => joined(
                "expected ET_DYN shared object, got e_type=0x",
                hex(t as u64).as_str(),
            ),
            ElfError::UnsupportedMachine(m) => joined(
                joined("unsupported machine e_machine=0x", hex(m as u64).as_str()).as_str(),
                " (supported: 0xb7 EM_AARCH64, 0x28 EM_ARM)",
            ),
            ElfError::Mismatch(a, c) => joined(
                joined(joined(a.name(), " in an ").as_str(), c.name()).as_str(),
                " container",
            ),
            ElfError::Unparsable => owned("malformed ELF file"),
            ElfError::UnreadableSection => owned("section data outside the file"),
        }
    }
}

/// The fields of an ELF header that decide whether the file is accepted.
#[derive(Debug, Clone, Copy, PartialEq, Eq, Structural)]
pub struct RawHeader {
    pub class: ElfClass,
    pub little_endian: bool,
    pub e_type: u16,
    pub e_machine: u16,
}

/// The header at the start of a file, in the byte order that it states.
pub open spec fn raw_header(data: Seq<u8>) -> Result<RawHeader, ElfError> {
    if data.len() < 24 || data[0] != 0x7f || data[1] != 0x45 || data[2] != 0x4c || data[3] != 0x46 {
        Err(ElfError::NotElf)
    } else if data[4] != 1 && data[4] != 2 {
        Err(ElfError::UnknownClass(data[4]))
    } else {
        Ok(
            RawHeader {
                class: if data[4] == 1 {
                    ElfClass::Elf32
                } else {
                    ElfClass::Elf64
                },
                little_endian: data[5] == 1,
                e_type: value_at(data, 16, 2, data[5] == 1) as u16,
                e_machine: value_at(data, 18, 2, data[5] == 1) as u16,
            },
        )
    }
}

impl RawHeader {
    /// Reads the header at the start of a file.
    pub fn parse(data: &[u8]) -> (r: Result<RawHeader, ElfError>)
        ensures
            r == raw_header(data@),
    {
        if data.len() < 24 || data[0] != 0x7f || data[1] != 0x45 || data[2] != 0x4c || data[3]
            != 0x46 {
            return Err(ElfError::NotElf);
        }
        let class = if data[4] == 1 {
            ElfClass::Elf32
        } else if data[4] == 2 {
            ElfClass::Elf64
        } else {
            return Err(ElfError::UnknownClass(data[4]));
        };
        let little_endian = data[5] == 1;
        Ok(
            RawHeader {
                class,
                little_endian,
                e_type: read_u16(data, 16, little_endian),
                e_machine: read_u16(data, 18, little_endian),
            },
        )
    }
}

/// The architecture and class of a file that is accepted by its header, or why
/// it is not. AArch64 comes in ELF64 alone and ARM in ELF32 alone.
pub open spec fn accepted(data: Seq<u8>) -> Result<(Arch, ElfClass), ElfError> {
    match raw_header(data) {
        Err(e) => Err(e),
        Ok(h) => if !h.little_endian {
            Err(ElfError::BigEndian)
        } else if h.e_type != ET_DYN {
            Err(ElfError::NotShared(h.e_type))
        } else {
            match spec_arch_of_machine(h.e_machine) {
                None => Err(ElfError::UnsupportedMachine(h.e_machine)),
                Some(a) => if (a == Arch::Aarch64) != (h.class == ElfClass::Elf64) {
                    Err(ElfError::Mismatch(a, h.class))
                } else {
                    Ok((a, h.class))
                },
            }
        },
    }
}

/// A loaded shared object.
pub struct Binary {
    pub sections: Vec<ImageSection>,
    pub arch: Arch,
    pub class: ElfClass,
}

/// Index, from `i` on, of the first section at an address other than 0 that
/// holds `addr`.
pub open spec fn section_holding(sections: Seq<ImageSection>, addr: u64, i: int) -> Option<int>
    decreases sections.len() - i,
{
    if i < 0 || i >= sections.len() {
        None
    } else if sections[i].addr != 0 && sections[i].addr <= addr < sections[i].addr
        + sections[i].size {
        Some(i)
    } else {
        section_holding(sections, addr, i + 1)
    }
}

impl Binary {
    /// Loads a shared object.
    pub fn load(data: &[u8]) -> (r: Result<Binary, ElfError>)
        ensures
            match r {
                Ok(b) => accepted(data@) == Ok::<(Arch, ElfClass), ElfError>((b.arch, b.class))
                    && image_sections(data@) == Some(section_views(b.sections@)),
                Err(e) => accepted(data@) == Err::<(Arch, ElfClass), ElfError>(e) || (accepted(
                    data@,
                ) is Ok && image_sections(data@) is None && e == ElfError::Unparsable),
            },
    {
        let h = match RawHeader::parse(data) {
            Ok(h) => h,
            Err(e) => return Err(e),
        };
        if !h.little_endian {
            return Err(ElfError::BigEndian);
        }
        if h.e_type != ET_DYN {
            return Err(ElfError::NotShared(h.e_type));
        }
        let arch = match Arch::from_elf_machine(h.e_machine) {
            Some(a) => a,
            None => return Err(ElfError::UnsupportedMachine(h.e_machine)),
        };
        if (arch == Arch::Aarch64) != (h.class == ElfClass::Elf64) {
            return Err(ElfError::Mismatch(arch, h.class));
        }
        match read_sections(data) {
            Some(sections) => Ok(Binary { sections, arch, class: h.class }),
            None => Err(ElfError::Unparsable),
        }
    }

    /// The bytes of the section that `name` stands for; none where there is no
    /// such section or its bytes cannot be read.
    pub open spec fn spec_section_data(&self, name: Seq<char>) -> Option<Seq<u8>> {
        match elf_section(self.sections@, name) {
            Some(i) => crate::image::bytes_of(self.sections@[i].data),
            None => None,
        }
    }

    /// Finds the section that `name` stands for.
    pub fn section(&self, name: &str) -> (r: Option<&ImageSection>)
        ensures
            match elf_section(self.sections@, name@) {
                Some(i) => 0 <= i < self.sections@.len() && r == Some(&self.sections@[i]),
                None => r is None,
            },
    {
        match find_elf_section(&self.sections, name) {
            Some(i) => Some(&self.sections[i]),
            None => None,
        }
    }

    /// Borrows the bytes of the section that `name` stands for.
    pub fn section_data(&self, name: &str) -> (r: Option<&[u8]>)
        ensures
            slice_view(r) == self.spec_section_data(name@),
    {
        match self.section(name) {
            Some(s) => match &s.data {
                Some(d) => Some(d.as_slice()),
                None => None,
            },
            None => None,
        }
    }

    /// Tests whether the image has DWARF information.
    pub fn has_dwarf(&self) -> (b: bool)
        ensures
            b == (self.spec_section_data(".debug_info"@) matches Some(d) && d.len() > 0),
    {
        match self.section_data(".debug_info") {
            Some(d) => d.len() > 0,
            None => false,
        }
    }

    /// Start and bytes of the section that holds `addr`.
    pub open spec fn spec_section_data_at(&self, addr: u64) -> Option<(u64, Seq<u8>)> {
        match section_holding(self.sections@, addr, 0) {
            Some(i) => match self.sections@[i].data {
                Some(d) => Some((self.sections@[i].addr, d@)),
                None => None,
            },
            None => None,
        }
    }

    /// Finds the start and the bytes of the section that holds `addr`.
    pub fn section_data_at(&self, addr: u64) -> (r: Option<(u64, &[u8])>)
        ensures
            match r {
                Some((start, data)) => self.spec_section_data_at(addr) == Some((start, data@))
                    && start <= addr,
                None => self.spec_section_data_at(addr) is None,
            },
    {
        let mut i: usize = 0;
        while i < self.sections.len()
            invariant
                i <= self.sections@.len(),
                section_holding(self.sections@, addr, 0) == section_holding(
                    self.sections@,
                    addr,
                    i as int,
                ),
            decreases self.sections@.len() - i,
        {
            let s = &self.sections[i];
            if s.addr != 0 && addr >= s.addr && addr - s.addr < s.size {
                return match &s.data {
                    Some(d) => Some((s.addr, d.as_slice())),
                    None => None,
                };
            }
            i = i + 1;
        }
        None
    }

    /// The word of pointer size at `addr`, where it lies in the bytes of the
    /// section that holds `addr`.
    pub open spec fn spec_read_word_at(&self, addr: u64) -> Option<u64> {
        match self.spec_section_data_at(addr) {
            Some((start, data)) => if addr - start + self.class.spec_pointer_size() <= data.len() {
                Some(le_value(data, addr - start, self.class.spec_pointer_size()) as u64)
            } else {
                None
            },
            None => None,
        }
    }

    /// Reads the word of pointer size at `addr`: the implicit addend of a dynamic
    /// relocation, or what a slot of the global offset table holds.
    pub fn read_word_at(&self, addr: u64) -> (r: Option<u64>)
        ensures
            r == self.spec_read_word_at(addr),
    {
        match self.section_data_at(addr) {
            Some((start, data)) => {
                let off: u64 = addr - start;
                let n: usize = data.len();
                let size: usize = self.class.pointer_size();
                if off > n as u64 || size > n - off as usize {
                    return None;
                }
                match self.class {
                    ElfClass::Elf32 => Some(read_u32_le(data, off as usize) as u64),
                    ElfClass::Elf64 => Some(read_u64_le(data, off as usize)),
                }
            },
            None => None,
        }
    }
}

} // verus!
