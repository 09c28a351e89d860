//! Instruction-set architectures and ELF classes, with the sizes that follow
//! from them.
use vstd::prelude::*;

verus! {

/// `e_machine` of AArch64 images.
pub const EM_AARCH64: u16 = 0xb7;

/// `e_machine` of 32-bit ARM images.
pub const EM_ARM: u16 = 0x28;

/// Architecture of an ELF image.
#[derive(Debug, Clone, Copy, PartialEq, Eq, Structural, Hash)]
pub enum Arch {
    Aarch64,
    /// 32-bit ARM (AArch32), A32 instruction set.
    Arm,
}

impl Arch {
    /// The name under which reports print the architecture.
    pub open spec fn spec_name(self) -> Seq<char> {
        match self {
            Arch::Aarch64 => "aarch64"@,
            Arch::Arm => "arm"@,
        }
    }

    /// Natural pointer width in bytes.
    pub fn pointer_size(self) -> (size: usize)
        ensures
            size == (match self {
                Arch::Aarch64 => 8usize,
                Arch::Arm => 4usize,
            }),
    {
        match self {
            Arch::Aarch64 => 8,
            Arch::Arm => 4,
        }
    }

    /// True when the ABI's static relocations carry explicit addends
    /// (`SHT_RELA`). ARM uses `SHT_REL` with addends stored in the field.
    pub fn uses_rela(self) -> (rela: bool)
        ensures
            rela == (self == Arch::Aarch64),
    {
        match self {
            Arch::Aarch64 => true,
            Arch::Arm => false,
        }
    }

    /// The architecture that an ELF header's `e_machine` selects.
    pub fn from_elf_machine(e_machine: u16) -> (arch: Option<Self>)
        ensures
            arch == spec_arch_of_machine(e_machine),
    {
        if e_machine == EM_AARCH64 {
            Some(Arch::Aarch64)
        } else if e_machine == EM_ARM {
            Some(Arch::Arm)
        } else {
            None
        }
    }

    /// The name under which reports print the architecture.
    pub fn name(self) -> (name: &'static str)
        ensures
            name@ == self.spec_name(),
    {
        match self {
            Arch::Aarch64 => "aarch64",
            Arch::Arm => "arm",
        }
    }
}

/// The architecture that an `e_machine` value stands for, if it is a known one.
pub open spec fn spec_arch_of_machine(e_machine: u16) -> Option<Arch> {
    if e_machine == EM_AARCH64 {
        Some(Arch::Aarch64)
    } else if e_machine == EM_ARM {
        Some(Arch::Arm)
    } else {
        None
    }
}

/// ELF class of the input file.
#[derive(Debug, Clone, Copy, PartialEq, Eq, Structural, Hash)]
pub enum ElfClass {
    Elf32,
    Elf64,
}

impl ElfClass {
    /// The name under which reports print the class.
    pub open spec fn spec_name(self) -> Seq<char> {
        match self {
            ElfClass::Elf32 => "elf32"@,
            ElfClass::Elf64 => "elf64"@,
        }
    }

    /// Pointer width in bytes.
    pub open spec fn spec_pointer_size(self) -> nat {
        match self {
            ElfClass::Elf32 => 4,
            ElfClass::Elf64 => 8,
        }
    }

    /// Size of one `Elf_Rel` entry: an address and a word of info.
    pub open spec fn spec_rel_entsize(self) -> nat {
        2 * self.spec_pointer_size()
    }

    /// Size of one `Elf_Rela` entry: an `Elf_Rel` and an addend.
    pub open spec fn spec_rela_entsize(self) -> nat {
        3 * self.spec_pointer_size()
    }

    /// Size of one `Elf_Sym` entry.
    pub open spec fn spec_sym_entsize(self) -> nat {
        match self {
            ElfClass::Elf32 => 16,
            ElfClass::Elf64 => 24,
        }
    }

    /// Pointer width in bytes.
    pub fn pointer_size(self) -> (size: usize)
        ensures
            size == self.spec_pointer_size(),
    {
        match self {
            ElfClass::Elf32 => 4,
            ElfClass::Elf64 => 8,
        }
    }

    /// Size of one `Elf_Rel` entry.
    pub fn rel_entsize(self) -> (size: usize)
        ensures
            size == self.spec_rel_entsize(),
    {
        match self {
            ElfClass::Elf32 => 8,
            ElfClass::Elf64 => 16,
        }
    }

    /// Size of one `Elf_Rela` entry.
    pub fn rela_entsize(self) -> (size: usize)
        ensures
            size == self.spec_rela_entsize(),
    {
        match self {
            ElfClass::Elf32 => 12,
            ElfClass::Elf64 => 24,
        }
    }

    /// Size of one `Elf_Sym` entry.
    pub fn sym_entsize(self) -> (size: usize)
        ensures
            size == self.spec_sym_entsize(),
    {
        match self {
            ElfClass::Elf32 => 16,
            ElfClass::Elf64 => 24,
        }
    }

    /// The name under which reports print the class.
    pub fn name(self) -> (name: &'static str)
        ensures
            name@ == self.spec_name(),
    {
        match self {
            ElfClass::Elf32 => "elf32",
            ElfClass::Elf64 => "elf64",
        }
    }
}

} // verus!
