//! Relocatable object files under construction, written out by the `object`
//! crate.
use object::write::{Object, SectionId, SymbolId};
use vstd::prelude::*;

use crate::bytes::{le_bytes, patched, zeros};
use crate::text::{contains_nul, has_nul};

verus! {

/// `object::write::Object`, a relocatable object file in memory.
#[verifier::external_type_specification]
#[verifier::external_body]
pub struct ExObject<'a>(object::write::Object<'a>);

/// `object::write::SectionId`, the number of a section in its object.
#[verifier::external_type_specification]
#[verifier::external_body]
pub struct ExSectionId(object::write::SectionId);

/// `object::write::SymbolId`, the number of a symbol in its object.
#[verifier::external_type_specification]
#[verifier::external_body]
pub struct ExSymbolId(object::write::SymbolId);

/// `object::write::Error`, a message.
#[verifier::external_type_specification]
#[verifier::external_body]
pub struct ExWriteError(object::write::Error);

/// File format of an object.
#[derive(Debug, Clone, Copy, PartialEq, Eq, Structural)]
pub enum ObjectFormat {
    Elf,
    Coff,
    MachO,
}

/// Machine that an object holds code for.
#[derive(Debug, Clone, Copy, PartialEq, Eq, Structural)]
pub enum Machine {
    Aarch64,
    Arm,
    I386,
    X86_64,
}

/// What a section holds.
#[derive(Debug, Clone, Copy, PartialEq, Eq, Structural)]
pub enum SectionKind {
    Text,
    Data,
    ReadOnlyData,
    ReadOnlyDataWithRel,
    UninitializedData,
    Debug,
    DebugString,
    /// An ELF section of the given `sh_type`.
    Elf(u32),
}

/// What a symbol names.
#[derive(Debug, Clone, Copy, PartialEq, Eq, Structural)]
pub enum SymbolKind {
    Text,
    Data,
    Label,
    Unknown,
}

/// Relocation type, by file format.
#[derive(Debug, Clone, Copy, PartialEq, Eq, Structural)]
pub enum RelocationType {
    Elf(u32),
    Coff(u16),
    /// A PC-relative `GENERIC_RELOC_VANILLA` on a 4-byte field.
    MachOBranch,
}

/// `IMAGE_REL_AMD64_ADDR64`: the 64-bit address of the target.
pub const REL_AMD64_ADDR64: u16 = 0x0001;

/// `IMAGE_REL_AMD64_REL32`: the distance of the target from the end of the field.
pub const REL_AMD64_REL32: u16 = 0x0004;

/// `IMAGE_REL_I386_DIR32`: the 32-bit address of the target.
pub const REL_I386_DIR32: u16 = 0x0006;

/// `IMAGE_REL_I386_REL32`: the distance of the target from the end of the field.
pub const REL_I386_REL32: u16 = 0x0014;

/// A relocation as it stands in an object.
pub ghost struct RelocationModel {
    pub offset: u64,
    pub symbol: nat,
    pub addend: int,
    pub kind: RelocationType,
}

/// A section as it stands in an object.
#[verifier::ext_equal]
pub ghost struct SectionModel {
    pub segment: Seq<char>,
    pub name: Seq<char>,
    pub kind: SectionKind,
    pub size: nat,
    pub align: nat,
    pub data: Seq<u8>,
    pub relocations: Seq<RelocationModel>,
    /// ELF section flags, where they are not those of the kind.
    pub elf_flags: Option<u64>,
}

/// A symbol as it stands in an object.
#[verifier::ext_equal]
pub ghost struct SymbolModel {
    pub name: Seq<char>,
    pub value: u64,
    pub size: u64,
    pub kind: SymbolKind,
    /// Visible to other objects.
    pub global: bool,
    pub weak: bool,
    /// The section that defines it; `None` where the symbol is undefined.
    pub section: Option<nat>,
}

/// A section group of one section, kept or dropped by its symbol's name.
pub ghost struct ComdatModel {
    pub symbol: nat,
    pub section: nat,
}

/// All that an object holds.
#[verifier::ext_equal]
pub ghost struct ObjectModel {
    pub format: ObjectFormat,
    pub machine: Machine,
    pub sections: Seq<SectionModel>,
    pub symbols: Seq<SymbolModel>,
    pub comdats: Seq<ComdatModel>,
}

/// `n` rounded up to a multiple of `align`.
pub open spec fn align_up(n: nat, align: nat) -> nat {
    if align == 0 || n % align == 0 {
        n
    } else {
        (n + (align - n % align)) as nat
    }
}

/// The alignments that objects are built with.
pub open spec fn is_alignment(align: u64) -> bool {
    align == 1 || align == 4 || align == 8 || align == 16
}

/// The name a linker sees for a symbol that is added as `name`: some formats
/// put an underscore in front of the names of functions and data.
pub open spec fn mangled(
    format: ObjectFormat,
    machine: Machine,
    name: Seq<char>,
    kind: SymbolKind,
) -> Seq<char> {
    if name.len() > 0 && (kind == SymbolKind::Text || kind == SymbolKind::Data) && (format
        == ObjectFormat::MachO || format == ObjectFormat::Coff && machine == Machine::I386) {
        seq!['_'] + name
    } else {
        name
    }
}

/// The relocation types that each object accepts.
pub open spec fn relocation_fits(
    format: ObjectFormat,
    machine: Machine,
    kind: RelocationType,
) -> bool {
    match kind {
        RelocationType::Elf(_) => format == ObjectFormat::Elf && (machine == Machine::Aarch64
            || machine == Machine::Arm),
        RelocationType::Coff(typ) => format == ObjectFormat::Coff && (machine == Machine::X86_64
            && (typ == REL_AMD64_ADDR64 || typ == REL_AMD64_REL32) || machine == Machine::I386 && (
        typ == REL_I386_DIR32 || typ == REL_I386_REL32)),
        RelocationType::MachOBranch => format == ObjectFormat::MachO && (machine == Machine::X86_64
            || machine == Machine::I386),
    }
}

/// What the writer adds to an addend before it stores it in the field: a branch
/// counts from the end of its field.
pub open spec fn field_bias(machine: Machine, kind: RelocationType) -> int {
    match kind {
        RelocationType::Elf(_) => 0,
        RelocationType::Coff(typ) => if machine == Machine::X86_64 && typ == REL_AMD64_REL32
            || machine == Machine::I386 && typ == REL_I386_REL32 {
            4
        } else {
            0
        },
        RelocationType::MachOBranch => 4,
    }
}

/// Width in bytes of the field that a relocation patches.
pub open spec fn field_width(kind: RelocationType) -> nat {
    if kind == RelocationType::Coff(REL_AMD64_ADDR64) {
        8
    } else {
        4
    }
}

/// The two's-complement form of `v` in `n` bytes.
pub open spec fn field_bytes(v: int, n: nat) -> Seq<u8> {
    if n == 8 {
        le_bytes(v % 0x1_0000_0000_0000_0000, 8)
    } else {
        le_bytes(v % 0x1_0000_0000, 4)
    }
}

/// Where the sections of an object end that are laid out from `start` on: those without
/// contents if `bss`, else the others, among the first `n`.
pub open spec fn laid_out(sections: Seq<SectionModel>, bss: bool, start: nat, n: int) -> nat
    decreases n,
{
    if n <= 0 {
        start
    } else {
        let before = laid_out(sections, bss, start, n - 1);
        let s = sections[n - 1];
        if (s.kind == SectionKind::UninitializedData) == bss {
            align_up(before, s.align) + s.size
        } else {
            before
        }
    }
}

/// Where the sections with contents of a Mach-O object end.
pub open spec fn contents_end(sections: Seq<SectionModel>) -> nat {
    laid_out(sections, false, 0, sections.len() as int)
}

/// Where the sections of a Mach-O object end: those without contents follow the others.
pub open spec fn image_end(sections: Seq<SectionModel>) -> nat {
    laid_out(sections, true, contents_end(sections), sections.len() as int)
}

/// Address of section `i` of a Mach-O object.
pub open spec fn section_address(sections: Seq<SectionModel>, i: int) -> nat {
    let before = if sections[i].kind == SectionKind::UninitializedData {
        laid_out(sections, true, contents_end(sections), i)
    } else {
        laid_out(sections, false, 0, i)
    };
    align_up(before, sections[i].align)
}

impl ObjectModel {
    /// An object with nothing in it.
    pub open spec fn empty(format: ObjectFormat, machine: Machine) -> ObjectModel {
        ObjectModel {
            format,
            machine,
            sections: Seq::empty(),
            symbols: Seq::empty(),
            comdats: Seq::empty(),
        }
    }

    /// Section `i` replaced by `s`.
    pub open spec fn set_section(self, i: nat, s: SectionModel) -> ObjectModel {
        ObjectModel { sections: self.sections.update(i as int, s), ..self }
    }

    /// With one more section, which is empty.
    pub open spec fn with_section(
        self,
        segment: Seq<char>,
        name: Seq<char>,
        kind: SectionKind,
    ) -> ObjectModel {
        let s = SectionModel {
            segment,
            name,
            kind,
            size: 0,
            align: 1,
            data: Seq::empty(),
            relocations: Seq::empty(),
            elf_flags: None,
        };
        ObjectModel { sections: self.sections.push(s), ..self }
    }

    /// Where data appended to section `i` begins.
    pub open spec fn append_offset(self, i: nat, align: u64) -> nat {
        align_up(self.sections[i as int].size, align as nat)
    }

    /// With `data` appended to section `i`, after zeros up to the alignment.
    pub open spec fn with_data(self, i: nat, data: Seq<u8>, align: u64) -> ObjectModel {
        let s = self.sections[i as int];
        let pad = (align_up(s.data.len(), align as nat) - s.data.len()) as nat;
        let all = s.data + zeros(pad) + data;
        self.set_section(
            i,
            SectionModel {
                data: all,
                size: all.len(),
                align: if s.align < align {
                    align as nat
                } else {
                    s.align
                },
                ..s
            },
        )
    }

    /// With `size` bytes without contents appended to section `i`.
    pub open spec fn with_bss(self, i: nat, size: u64, align: u64) -> ObjectModel {
        let s = self.sections[i as int];
        self.set_section(
            i,
            SectionModel {
                size: align_up(s.size, align as nat) + size as nat,
                align: if s.align < align {
                    align as nat
                } else {
                    s.align
                },
                ..s
            },
        )
    }

    /// With the ELF flags of section `i` set.
    pub open spec fn with_elf_flags(self, i: nat, flags: u64) -> ObjectModel {
        self.set_section(i, SectionModel { elf_flags: Some(flags), ..self.sections[i as int] })
    }

    /// With one more symbol.
    pub open spec fn with_symbol(self, s: SymbolModel) -> ObjectModel {
        let s = SymbolModel { name: mangled(self.format, self.machine, s.name, s.kind), ..s };
        ObjectModel { symbols: self.symbols.push(s), ..self }
    }

    /// With one more section group.
    pub open spec fn with_comdat(self, symbol: nat, section: nat) -> ObjectModel {
        ObjectModel { comdats: self.comdats.push(ComdatModel { symbol, section }), ..self }
    }

    /// True when the addend of a relocation goes into the field itself.
    pub open spec fn stores_addend(self, kind: RelocationType, addend: int) -> bool {
        self.format != ObjectFormat::Elf && addend + field_bias(self.machine, kind) != 0
    }

    /// True when a relocation can be added to section `i`: an addend that is
    /// stored in the field needs the field to lie in the section's data.
    pub open spec fn takes_relocation(
        self,
        i: nat,
        offset: u64,
        kind: RelocationType,
        addend: int,
    ) -> bool {
        self.stores_addend(kind, addend) ==> offset + field_width(kind)
            <= self.sections[i as int].data.len()
    }

    /// With one more relocation in section `i`.
    pub open spec fn with_relocation(
        self,
        i: nat,
        offset: u64,
        symbol: nat,
        kind: RelocationType,
        addend: int,
    ) -> ObjectModel {
        let s = self.sections[i as int];
        let stored = addend + field_bias(self.machine, kind);
        self.set_section(
            i,
            SectionModel {
                data: if self.stores_addend(kind, addend) {
                    patched(s.data, offset as int, field_bytes(stored, field_width(kind)))
                } else {
                    s.data
                },
                relocations: s.relocations.push(
                    RelocationModel {
                        offset,
                        symbol,
                        addend: if self.format == ObjectFormat::Elf {
                            addend
                        } else {
                            0
                        },
                        kind,
                    },
                ),
                ..s
            },
        )
    }

    /// True when some name cannot stand in a string table.
    pub open spec fn has_bad_name(self) -> bool {
        ||| exists|i: int| 0 <= i < self.sections.len() && has_nul(#[trigger] self.sections[i].name)
        ||| exists|i: int| 0 <= i < self.symbols.len() && has_nul(#[trigger] self.symbols[i].name)
    }

    /// True when no section or defined symbol of a Mach-O object lies past the last
    /// address.
    pub open spec fn addresses_fit(self) -> bool {
        &&& image_end(self.sections) <= u64::MAX
        &&& forall|i: int|
            0 <= i < self.symbols.len() ==> ((#[trigger] self.symbols[i]).section matches Some(k)
                ==> section_address(self.sections, k as int) + self.symbols[i].value <= u64::MAX)
    }

    /// True when the section numbers of a COFF object and the addresses of a Mach-O
    /// object can hold what is in it.
    pub open spec fn representable(self) -> bool {
        &&& self.format == ObjectFormat::Coff ==> self.sections.len() <= 0xffff
        &&& self.format == ObjectFormat::MachO ==> self.addresses_fit()
    }

    /// True when the object can be laid out as a file at all.
    pub open spec fn writable(self) -> bool {
        !self.has_bad_name() && self.representable()
    }

    /// True when the references between sections, symbols and groups hold.
    pub open spec fn wf(self) -> bool {
        &&& forall|i: int|
            0 <= i < self.symbols.len() && (#[trigger] self.symbols[i]).section is Some
                ==> self.symbols[i].section->0 < self.sections.len()
        &&& forall|i: int, j: int|
            0 <= i < self.sections.len() && 0 <= j < self.sections[i].relocations.len() ==> (
            #[trigger] self.sections[i].relocations[j]).symbol < self.symbols.len()
        &&& forall|i: int|
            0 <= i < self.comdats.len() ==> (#[trigger] self.comdats[i]).symbol
                < self.symbols.len() && self.comdats[i].section < self.sections.len()
        &&& forall|i: int|
            0 <= i < self.sections.len() ==> (#[trigger] self.sections[i]).kind
                != SectionKind::UninitializedData ==> self.sections[i].size
                == self.sections[i].data.len()
        &&& forall|i: int|
            0 <= i < self.sections.len() ==> (#[trigger] self.sections[i]).kind
                == SectionKind::UninitializedData ==> self.sections[i].data.len() == 0
    }
}

/// What an `Object` holds.
pub uninterp spec fn object_model(obj: &Object<'static>) -> ObjectModel;

/// The number inside a `SectionId`.
pub uninterp spec fn section_number(id: SectionId) -> nat;

/// The number inside a `SymbolId`.
pub uninterp spec fn symbol_number(id: SymbolId) -> nat;

/// The file that `Object::write` makes of what an object holds, or `None` where
/// it reports that the format cannot express it.
pub uninterp spec fn object_file(m: ObjectModel) -> Option<Seq<u8>>;

/// `Object::new` makes an empty little-endian object.
#[verifier::external_body]
fn object_new(format: ObjectFormat, machine: Machine) -> (obj: Object<'static>)
    ensures
        object_model(&obj) == ObjectModel::empty(format, machine),
{
    let format = match format {
        ObjectFormat::Elf => object::BinaryFormat::Elf,
        ObjectFormat::Coff => object::BinaryFormat::Coff,
        ObjectFormat::MachO => object::BinaryFormat::MachO,
    };
    let machine = match machine {
        Machine::Aarch64 => object::Architecture::Aarch64,
        Machine::Arm => object::Architecture::Arm,
        Machine::I386 => object::Architecture::I386,
        Machine::X86_64 => object::Architecture::X86_64,
    };
    Object::new(format, machine, object::Endianness::Little)
}

/// `Object::add_section` appends an empty section and returns its number.
#[verifier::external_body]
fn object_add_section(
    obj: &mut Object<'static>,
    segment: &str,
    name: &str,
    kind: SectionKind,
) -> (id: SectionId)
    ensures
        object_model(final(obj)) == object_model(old(obj)).with_section(segment@, name@, kind),
        section_number(id) == object_model(old(obj)).sections.len(),
{
    let kind = match kind {
        SectionKind::Text => object::SectionKind::Text,
        SectionKind::Data => object::SectionKind::Data,
        SectionKind::ReadOnlyData => object::SectionKind::ReadOnlyData,
        SectionKind::ReadOnlyDataWithRel => object::SectionKind::ReadOnlyDataWithRel,
        SectionKind::UninitializedData => object::SectionKind::UninitializedData,
        SectionKind::Debug => object::SectionKind::Debug,
        SectionKind::DebugString => object::SectionKind::DebugString,
        SectionKind::Elf(sh_type) => object::SectionKind::Elf(sh_type),
    };
    obj.add_section(segment.as_bytes().to_vec(), name.as_bytes().to_vec(), kind)
}

/// `Object::section_id` of the standard text section: in an ELF object without
/// sections it adds a section `.text` of that kind and returns its number.
#[verifier::external_body]
fn object_text_section(obj: &mut Object<'static>) -> (id: SectionId)
    requires
        object_model(old(obj)).format == ObjectFormat::Elf,
        object_model(old(obj)).sections.len() == 0,
    ensures
        object_model(final(obj)) == object_model(old(obj)).with_section(
            ""@,
            ".text"@,
            SectionKind::Text,
        ),
        section_number(id) == 0,
{
    obj.section_id(object::write::StandardSection::Text)
}

/// `Object::append_section_data` pads a section with zeros to the alignment,
/// appends the data and returns where it begins. The section's data is one
/// vector, so its length fits `usize`.
#[verifier::external_body]
fn object_append_data(obj: &mut Object<'static>, id: SectionId, data: &[u8], align: u64) -> (offset:
    u64)
    requires
        section_number(id) < object_model(old(obj)).sections.len(),
        object_model(old(obj)).sections[section_number(id) as int].kind
            != SectionKind::UninitializedData,
        is_alignment(align),
    ensures
        object_model(final(obj)) == object_model(old(obj)).with_data(
            section_number(id),
            data@,
            align,
        ),
        offset == align_up(
            object_model(old(obj)).sections[section_number(id) as int].data.len(),
            align as nat,
        ),
        offset + data@.len() <= usize::MAX,
{
    obj.append_section_data(id, data, align)
}

/// `Object::append_section_bss` reserves space in a section without contents and
/// returns where it begins.
#[verifier::external_body]
fn object_append_bss(obj: &mut Object<'static>, id: SectionId, size: u64, align: u64) -> (offset:
    u64)
    requires
        section_number(id) < object_model(old(obj)).sections.len(),
        object_model(old(obj)).sections[section_number(id) as int].kind
            == SectionKind::UninitializedData,
        is_alignment(align),
        object_model(old(obj)).append_offset(section_number(id), align) + size <= u64::MAX,
    ensures
        object_model(final(obj)) == object_model(old(obj)).with_bss(
            section_number(id),
            size,
            align,
        ),
        offset == object_model(old(obj)).append_offset(section_number(id), align),
{
    obj.append_section_bss(id, size, align)
}

/// Assigns `Section::flags`, through `Object::section_mut`.
#[verifier::external_body]
fn object_set_elf_flags(obj: &mut Object<'static>, id: SectionId, flags: u64)
    requires
        section_number(id) < object_model(old(obj)).sections.len(),
    ensures
        object_model(final(obj)) == object_model(old(obj)).with_elf_flags(
            section_number(id),
            flags,
        ),
{
    obj.section_mut(id).flags = object::SectionFlags::Elf { sh_flags: flags };
}

/// `Object::add_symbol` appends a symbol, mangles its name and returns its
/// number.
#[verifier::external_body]
fn object_add_symbol(
    obj: &mut Object<'static>,
    name: &str,
    value: u64,
    size: u64,
    kind: SymbolKind,
    global: bool,
    weak: bool,
    section: Option<SectionId>,
) -> (id: SymbolId)
    ensures
        object_model(final(obj)) == object_model(old(obj)).with_symbol(
            SymbolModel {
                name: name@,
                value,
                size,
                kind,
                global,
                weak,
                section: match section {
                    Some(s) => Some(section_number(s)),
                    None => None,
                },
            },
        ),
        symbol_number(id) == object_model(old(obj)).symbols.len(),
{
    let name = name.as_bytes().to_vec();
    let kind = match kind {
        SymbolKind::Text => object::SymbolKind::Text,
        SymbolKind::Data => object::SymbolKind::Data,
        SymbolKind::Label => object::SymbolKind::Label,
        SymbolKind::Unknown => object::SymbolKind::Unknown,
    };
    let scope = if global { object::SymbolScope::Dynamic } else { object::SymbolScope::Compilation };
    let section = section.map_or(object::write::SymbolSection::Undefined, |s| {
        object::write::SymbolSection::Section(s)
    });
    let flags = object::SymbolFlags::None;
    obj.add_symbol(object::write::Symbol { name, value, size, kind, scope, weak, section, flags })
}

/// `Object::add_comdat` appends a section group of kind "any".
#[verifier::external_body]
fn object_add_comdat(obj: &mut Object<'static>, symbol: SymbolId, section: SectionId)
    ensures
        object_model(final(obj)) == object_model(old(obj)).with_comdat(
            symbol_number(symbol),
            section_number(section),
        ),
{
    let kind = object::ComdatKind::Any;
    obj.add_comdat(object::write::Comdat { kind, symbol, sections: vec![section] });
}

/// `Object::add_relocation` appends a relocation to a section. COFF and Mach-O
/// keep the addend in the field: unless it is zero there, it is written into the
/// section's data, and where the field does not lie in the data the call fails
/// and changes nothing. ELF for AArch64 keeps the addend in the relocation; ELF
/// for ARM would patch the field too, so the addend has to be zero there.
#[verifier::external_body]
fn object_add_relocation(
    obj: &mut Object<'static>,
    section: SectionId,
    offset: u64,
    symbol: SymbolId,
    addend: i64,
    kind: RelocationType,
) -> (r: Result<(), object::write::Error>)
    requires
        section_number(section) < object_model(old(obj)).sections.len(),
        relocation_fits(object_model(old(obj)).format, object_model(old(obj)).machine, kind),
        object_model(old(obj)).machine == Machine::Arm ==> addend == 0,
        object_model(old(obj)).format != ObjectFormat::Elf ==> addend <= i64::MAX - 4,
        object_model(old(obj)).stores_addend(kind, addend as int) ==> object_model(
            old(obj),
        ).sections[section_number(section) as int].kind != SectionKind::UninitializedData,
    ensures
        r is Ok == object_model(old(obj)).takes_relocation(
            section_number(section),
            offset,
            kind,
            addend as int,
        ),
        object_model(final(obj)) == (if r is Ok {
            object_model(old(obj)).with_relocation(
                section_number(section),
                offset,
                symbol_number(symbol),
                kind,
                addend as int,
            )
        } else {
            object_model(old(obj))
        }),
{
    let flags = match kind {
        RelocationType::Elf(r_type) => object::RelocationFlags::Elf { r_type },
        RelocationType::Coff(typ) => object::RelocationFlags::Coff { typ },
        RelocationType::MachOBranch => {
            object::RelocationFlags::MachO { r_type: 0, r_pcrel: true, r_length: 2 }
        },
    };
    obj.add_relocation(section, object::write::Relocation { offset, symbol, addend, flags })
}

/// `Object::write` lays the object out as a file. The string table panics on a
/// name with a NUL character, and the section numbers of COFF and the addresses of
/// Mach-O overflow on what is left out here.
#[verifier::external_body]
fn object_write(obj: &Object<'static>) -> (r: Result<Vec<u8>, object::write::Error>)
    requires
        object_model(obj).wf(),
        object_model(obj).writable(),
    ensures
        r is Ok == object_file(object_model(obj)).is_some(),
        r is Ok ==> r->Ok_0@ == object_file(object_model(obj))->0,
{
    obj.write()
}

/// Why an object did not become a file.
#[derive(Debug, Clone, Copy, PartialEq, Eq, Structural)]
pub enum WriteError {
    /// A name with a NUL character, or more than the format's tables can hold.
    Unwritable,
    /// The format cannot express a section or symbol.
    Refused,
}

/// An object under construction. Sections and symbols go by their numbers.
pub struct ObjectWriter {
    obj: Object<'static>,
    format: ObjectFormat,
    machine: Machine,
    sections: Vec<SectionId>,
    kinds: Vec<SectionKind>,
    symbols: Vec<SymbolId>,
    /// Size and alignment of each section.
    extents: Vec<(u64, u64)>,
    /// Value and section of each symbol.
    places: Vec<(u64, Option<usize>)>,
    /// A name with a NUL character, or more sections than COFF has numbers for.
    unwritable: bool,
}

impl View for ObjectWriter {
    type V = ObjectModel;

    closed spec fn view(&self) -> ObjectModel {
        object_model(&self.obj)
    }
}

proof fn lemma_mangled_nul(format: ObjectFormat, machine: Machine, name: Seq<char>, kind: SymbolKind)
    ensures
        has_nul(mangled(format, machine, name, kind)) == has_nul(name),
{
    let m = seq!['_'] + name;
    if has_nul(name) {
        let i = choose|i: int| 0 <= i < name.len() && name[i] == '\0';
        assert(m[i + 1] == '\0');
    }
    if has_nul(m) {
        let i = choose|i: int| 0 <= i < m.len() && m[i] == '\0';
        assert(name[i - 1] == '\0');
    }
}

impl ObjectWriter {
    /// The numbers are those of the object, and its references hold.
    pub closed spec fn wf(&self) -> bool {
        &&& self@.wf()
        &&& self.format == self@.format
        &&& self.machine == self@.machine
        &&& self.sections@.len() == self@.sections.len()
        &&& self.kinds@.len() == self@.sections.len()
        &&& forall|i: int|
            0 <= i < self.kinds@.len() ==> (#[trigger] self.kinds@[i]) == self@.sections[i].kind
        &&& forall|i: int|
            0 <= i < self.sections@.len() ==> section_number(#[trigger] self.sections@[i]) == i
        &&& self.symbols@.len() == self@.symbols.len()
        &&& forall|i: int|
            0 <= i < self.symbols@.len() ==> symbol_number(#[trigger] self.symbols@[i]) == i
        &&& self.extents@.len() == self@.sections.len()
        &&& forall|i: int|
            0 <= i < self.extents@.len() ==> is_alignment((#[trigger] self.extents@[i]).1)
                && self.extents@[i].0 == self@.sections[i].size && self.extents@[i].1
                == self@.sections[i].align
        &&& self.places@.len() == self@.symbols.len()
        &&& forall|i: int|
            0 <= i < self.places@.len() ==> (#[trigger] self.places@[i]).0
                == self@.symbols[i].value && match self.places@[i].1 {
                Some(k) => self@.symbols[i].section == Some(k as nat),
                None => self@.symbols[i].section is None,
            }
        &&& self.unwritable == (self@.has_bad_name() || self@.format == ObjectFormat::Coff
            && self@.sections.len() > 0xffff)
    }

    /// References hold in an object that is under construction.
    pub proof fn lemma_wf(&self)
        requires
            self.wf(),
        ensures
            self@.wf(),
            self@.sections.len() <= usize::MAX,
            self@.symbols.len() <= usize::MAX,
    {
        assert(self.sections@.len() == self.sections.len());
        assert(self.symbols@.len() == self.symbols.len());
    }

    /// An object with nothing in it.
    pub fn new(format: ObjectFormat, machine: Machine) -> (w: ObjectWriter)
        ensures
            w.wf(),
            w@ == ObjectModel::empty(format, machine),
    {
        ObjectWriter {
            obj: object_new(format, machine),
            format,
            machine,
            sections: Vec::new(),
            kinds: Vec::new(),
            symbols: Vec::new(),
            extents: Vec::new(),
            places: Vec::new(),
            unwritable: false,
        }
    }

    /// Adds an empty section and returns its number.
    pub fn add_section(&mut self, segment: &str, name: &str, kind: SectionKind) -> (i: usize)
        requires
            old(self).wf(),
        ensures
            final(self).wf(),
            final(self)@ == old(self)@.with_section(segment@, name@, kind),
            i == old(self)@.sections.len(),
    {
        let ghost old_model = self@;
        let i: usize = self.sections.len();
        let bad = contains_nul(name);
        let id = object_add_section(&mut self.obj, segment, name, kind);
        self.sections.push(id);
        self.kinds.push(kind);
        self.extents.push((0, 1));
        if bad || (matches!(self.format, ObjectFormat::Coff) && self.sections.len() > 0xffff) {
            self.unwritable = true;
        }
        proof {
            let m = self@;
            assert(forall|k: int| 0 <= k < i ==> m.sections[k] == old_model.sections[k]);
            assert(m.sections[i as int].name == name@);
            assert(m.symbols == old_model.symbols);
        }
        i
    }

    /// Adds the text section of an ELF object, which has no sections yet.
    pub fn add_text_section(&mut self) -> (i: usize)
        requires
            old(self).wf(),
            old(self)@.format == ObjectFormat::Elf,
            old(self)@.sections.len() == 0,
        ensures
            final(self).wf(),
            final(self)@ == old(self)@.with_section(""@, ".text"@, SectionKind::Text),
            i == 0,
    {
        let ghost old_model = self@;
        let id = object_text_section(&mut self.obj);
        self.sections.push(id);
        self.kinds.push(SectionKind::Text);
        self.extents.push((0, 1));
        proof {
            reveal_strlit(".text");
            let m = self@;
            assert(m.sections[0].name == ".text"@);
            assert(!has_nul(".text"@));
            assert(m.symbols == old_model.symbols);
        }
        0
    }

    /// Appends data to a section, aligned, and returns where it begins.
    pub fn append_data(&mut self, i: usize, data: &[u8], align: u64) -> (offset: u64)
        requires
            old(self).wf(),
            i < old(self)@.sections.len(),
            old(self)@.sections[i as int].kind != SectionKind::UninitializedData,
            is_alignment(align),
        ensures
            final(self).wf(),
            final(self)@ == old(self)@.with_data(i as nat, data@, align),
            offset == old(self)@.append_offset(i as nat, align),
            offset + data@.len() <= usize::MAX,
    {
        let ghost old_model = self@;
        let offset = object_append_data(&mut self.obj, self.sections[i], data, align);
        let widest: u64 = if self.extents[i].1 < align {
            align
        } else {
            self.extents[i].1
        };
        self.extents.set(i, (offset + data.len() as u64, widest));
        proof {
            let m = self@;
            let k = i as int;
            assert(m.sections[k].data.len() == offset + data@.len());
            lemma_section_update(old_model, m, i as nat);
        }
        offset
    }

    /// Reserves space in a section without contents and returns where it begins.
    pub fn append_bss(&mut self, i: usize, size: u64, align: u64) -> (offset: u64)
        requires
            old(self).wf(),
            i < old(self)@.sections.len(),
            old(self)@.sections[i as int].kind == SectionKind::UninitializedData,
            is_alignment(align),
            old(self)@.append_offset(i as nat, align) + size <= u64::MAX,
        ensures
            final(self).wf(),
            final(self)@ == old(self)@.with_bss(i as nat, size, align),
            offset == old(self)@.append_offset(i as nat, align),
    {
        let ghost old_model = self@;
        let offset = object_append_bss(&mut self.obj, self.sections[i], size, align);
        let widest: u64 = if self.extents[i].1 < align {
            align
        } else {
            self.extents[i].1
        };
        self.extents.set(i, (offset + size, widest));
        proof {
            lemma_section_update(old_model, self@, i as nat);
        }
        offset
    }

    /// Sets the ELF flags of a section.
    pub fn set_elf_flags(&mut self, i: usize, flags: u64)
        requires
            old(self).wf(),
            i < old(self)@.sections.len(),
        ensures
            final(self).wf(),
            final(self)@ == old(self)@.with_elf_flags(i as nat, flags),
    {
        let ghost old_model = self@;
        object_set_elf_flags(&mut self.obj, self.sections[i], flags);
        proof {
            lemma_section_update(old_model, self@, i as nat);
        }
    }

    /// Adds a symbol and returns its number. Without a section it is undefined.
    pub fn add_symbol(
        &mut self,
        name: &str,
        value: u64,
        size: u64,
        kind: SymbolKind,
        global: bool,
        weak: bool,
        section: Option<usize>,
    ) -> (i: usize)
        requires
            old(self).wf(),
            section is Some ==> section->0 < old(self)@.sections.len(),
        ensures
            final(self).wf(),
            final(self)@ == old(self)@.with_symbol(
                symbol(name@, value, size, kind, global, weak, section),
            ),
            i == old(self)@.symbols.len(),
    {
        let ghost old_model = self@;
        let i: usize = self.symbols.len();
        let bad = contains_nul(name);
        let place = match section {
            Some(s) => Some(self.sections[s]),
            None => None,
        };
        let id = object_add_symbol(&mut self.obj, name, value, size, kind, global, weak, place);
        self.symbols.push(id);
        self.places.push((value, section));
        if bad {
            self.unwritable = true;
        }
        proof {
            let m = self@;
            lemma_mangled_nul(old_model.format, old_model.machine, name@, kind);
            assert(forall|k: int| 0 <= k < i ==> m.symbols[k] == old_model.symbols[k]);
            assert(has_nul(m.symbols[i as int].name) == has_nul(name@));
            assert(m.symbols[i as int].value == value);
            assert(m.sections == old_model.sections);
        }
        i
    }

    /// Adds a section group for one symbol and its section.
    pub fn add_comdat(&mut self, symbol: usize, section: usize)
        requires
            old(self).wf(),
            symbol < old(self)@.symbols.len(),
            section < old(self)@.sections.len(),
        ensures
            final(self).wf(),
            final(self)@ == old(self)@.with_comdat(symbol as nat, section as nat),
    {
        let ghost old_model = self@;
        object_add_comdat(&mut self.obj, self.symbols[symbol], self.sections[section]);
        proof {
            assert(self@.sections == old_model.sections);
            assert(self@.symbols == old_model.symbols);
        }
    }

    /// Adds a relocation to a section. An addend that is stored in the field
    /// needs the field to lie in the section's data.
    pub fn add_relocation(
        &mut self,
        section: usize,
        offset: u64,
        symbol: usize,
        addend: i64,
        kind: RelocationType,
    ) -> (added: bool)
        requires
            old(self).wf(),
            section < old(self)@.sections.len(),
            symbol < old(self)@.symbols.len(),
            relocation_fits(old(self)@.format, old(self)@.machine, kind),
            old(self)@.machine == Machine::Arm ==> addend == 0,
            old(self)@.format != ObjectFormat::Elf ==> addend <= i64::MAX - 4,
        ensures
            final(self).wf(),
            added == old(self)@.takes_relocation(section as nat, offset, kind, addend as int),
            final(self)@ == (if added {
                old(self)@.with_relocation(
                    section as nat,
                    offset,
                    symbol as nat,
                    kind,
                    addend as int,
                )
            } else {
                old(self)@
            }),
    {
        let ghost old_model = self@;
        if matches!(self.kinds[section], SectionKind::UninitializedData) {
            let bias: i64 = match kind {
                RelocationType::Elf(_) => 0,
                RelocationType::Coff(typ) => if matches!(self.machine, Machine::X86_64) && typ
                    == REL_AMD64_REL32 || matches!(self.machine, Machine::I386) && typ
                    == REL_I386_REL32 {
                    4
                } else {
                    0
                },
                RelocationType::MachOBranch => 4,
            };
            if !matches!(self.format, ObjectFormat::Elf) && addend != -bias {
                // Nothing can be stored where there is no data.
                return false;
            }
        }
        let r = object_add_relocation(
            &mut self.obj,
            self.sections[section],
            offset,
            self.symbols[symbol],
            addend,
            kind,
        );
        match r {
            Ok(_) => {
                proof {
                    lemma_field_bytes_len(
                        addend + field_bias(old_model.machine, kind),
                        field_width(kind),
                    );
                    lemma_section_update(old_model, self@, section as nat);
                }
                true
            },
            Err(_) => false,
        }
    }

    /// Lays out the sections with or without contents from `start` on: the address of
    /// each, and where they end. Nothing where that is past the last address.
    fn lay_out(&self, bss: bool, start: u64, addresses: &mut Vec<u64>) -> (end: Option<u64>)
        requires
            self.wf(),
            old(addresses)@.len() == self@.sections.len(),
        ensures
            match end {
                Some(e) => {
                    let n = self@.sections.len() as int;
                    &&& e == laid_out(self@.sections, bss, start as nat, n)
                    &&& final(addresses)@.len() == n
                    &&& forall|k: int|
                        0 <= k < n ==> #[trigger] final(addresses)@[k] == (if is_laid_out(
                            self@.sections[k],
                            bss,
                        ) {
                            align_up(
                                laid_out(self@.sections, bss, start as nat, k),
                                self@.sections[k].align,
                            ) as u64
                        } else {
                            old(addresses)@[k]
                        })
                },
                None => laid_out(
                    self@.sections,
                    bss,
                    start as nat,
                    self@.sections.len() as int,
                ) > u64::MAX,
            },
    {
        let ghost sections = self@.sections;
        let ghost n = sections.len() as int;
        let mut end: u64 = start;
        let mut i: usize = 0;
        while i < self.kinds.len()
            invariant
                self.wf(),
                sections == self@.sections,
                n == sections.len(),
                i <= n,
                end == laid_out(sections, bss, start as nat, i as int),
                addresses@.len() == n,
                forall|k: int|
                    0 <= k < n ==> #[trigger] addresses@[k] == (if k < i && is_laid_out(
                        sections[k],
                        bss,
                    ) {
                        align_up(
                            laid_out(sections, bss, start as nat, k),
                            sections[k].align,
                        ) as u64
                    } else {
                        old(addresses)@[k]
                    }),
            decreases n - i,
        {
            assert(self.kinds@[i as int] == sections[i as int].kind);
            if matches!(self.kinds[i], SectionKind::UninitializedData) == bss {
                let (size, align) = self.extents[i];
                assert(is_alignment(self.extents@[i as int].1));
                let over: u64 = end % align;
                let pad: u64 = if over == 0 {
                    0
                } else {
                    align - over
                };
                proof {
                    lemma_laid_out_grows(sections, bss, start as nat, i + 1, n);
                    assert(align_up(end as nat, align as nat) == end + pad);
                }
                if pad > u64::MAX - end || size > u64::MAX - end - pad {
                    return None;
                }
                addresses.set(i, end + pad);
                end = end + pad + size;
            }
            i = i + 1;
        }
        Some(end)
    }

    /// Tests whether the sections and symbols have addresses.
    fn addresses_fit(&self) -> (b: bool)
        requires
            self.wf(),
        ensures
            b == self@.addresses_fit(),
    {
        let ghost sections = self@.sections;
        let ghost n = sections.len() as int;
        let mut addresses: Vec<u64> = Vec::new();
        while addresses.len() < self.kinds.len()
            invariant
                addresses@.len() <= self.kinds@.len(),
            decreases self.kinds@.len() - addresses@.len(),
        {
            addresses.push(0);
        }
        let end = match self.lay_out(false, 0, &mut addresses) {
            Some(e) => e,
            None => {
                proof {
                    lemma_laid_out_grows(sections, true, contents_end(sections), 0, n);
                }
                return false;
            },
        };
        if self.lay_out(true, end, &mut addresses).is_none() {
            return false;
        }
        assert forall|k: int| 0 <= k < n implies #[trigger] addresses@[k] == section_address(
            sections,
            k,
        ) by {
            let bss = sections[k].kind == SectionKind::UninitializedData;
            let start = if bss {
                contents_end(sections)
            } else {
                0
            };
            lemma_laid_out_grows(sections, bss, start, k + 1, n);
            lemma_laid_out_grows(sections, true, contents_end(sections), 0, n);
            assert(is_laid_out(sections[k], bss) && !is_laid_out(sections[k], !bss));
        }
        let mut i: usize = 0;
        while i < self.places.len()
            invariant
                self.wf(),
                sections == self@.sections,
                n == sections.len(),
                i <= self.places@.len(),
                addresses@.len() == n,
                image_end(sections) <= u64::MAX,
                forall|k: int|
                    0 <= k < n ==> #[trigger] addresses@[k] == section_address(sections, k),
                forall|j: int|
                    0 <= j < i ==> ((#[trigger] self@.symbols[j]).section matches Some(k)
                        ==> section_address(sections, k as int) + self@.symbols[j].value
                        <= u64::MAX),
            decreases self.places@.len() - i,
        {
            let (value, section) = self.places[i];
            assert(self.places@[i as int].0 == self@.symbols[i as int].value);
            if let Some(k) = section {
                assert(self@.symbols[i as int].section->0 < n);
                if value > u64::MAX - addresses[k] {
                    return false;
                }
            }
            i = i + 1;
        }
        true
    }

    /// Lays the object out as a file.
    pub fn write(&self) -> (r: Result<Vec<u8>, WriteError>)
        requires
            self.wf(),
        ensures
            match r {
                Ok(file) => self@.writable() && object_file(self@) == Some(file@),
                Err(WriteError::Unwritable) => !self@.writable(),
                Err(WriteError::Refused) => self@.writable() && object_file(self@) is None,
            },
    {
        if self.unwritable || matches!(self.format, ObjectFormat::MachO) && !self.addresses_fit() {
            return Err(WriteError::Unwritable);
        }
        match object_write(&self.obj) {
            Ok(file) => Ok(file),
            Err(_) => Err(WriteError::Refused),
        }
    }
}

/// A symbol in terms of the numbers that sections go by.
pub open spec fn symbol(
    name: Seq<char>,
    value: u64,
    size: u64,
    kind: SymbolKind,
    global: bool,
    weak: bool,
    section: Option<usize>,
) -> SymbolModel {
    SymbolModel {
        name,
        value,
        size,
        kind,
        global,
        weak,
        section: match section {
            Some(s) => Some(s as nat),
            None => None,
        },
    }
}

/// The file that an object becomes, or why it does not become one.
pub open spec fn written(m: ObjectModel) -> Result<Seq<u8>, WriteError> {
    if !m.writable() {
        Err(WriteError::Unwritable)
    } else {
        match object_file(m) {
            Some(file) => Ok(file),
            None => Err(WriteError::Refused),
        }
    }
}

/// A stored field has its width.
pub proof fn lemma_field_bytes_len(v: int, n: nat)
    requires
        n == 4 || n == 8,
    ensures
        field_bytes(v, n).len() == n,
{
    crate::bytes::lemma_le_bytes_len(v % 0x1_0000_0000_0000_0000, 8);
    crate::bytes::lemma_le_bytes_len(v % 0x1_0000_0000, 4);
}

/// True when the section is one of those without contents if `bss`, else one of the
/// others.
spec fn is_laid_out(s: SectionModel, bss: bool) -> bool {
    (s.kind == SectionKind::UninitializedData) == bss
}

proof fn lemma_laid_out_grows(sections: Seq<SectionModel>, bss: bool, start: nat, m: int, n: int)
    requires
        0 <= m <= n,
    ensures
        start <= laid_out(sections, bss, start, m) <= laid_out(sections, bss, start, n),
    decreases n,
{
    if n > 0 {
        let before = laid_out(sections, bss, start, n - 1);
        assert(before <= align_up(before, sections[n - 1].align));
        if m < n {
            lemma_laid_out_grows(sections, bss, start, m, n - 1);
        } else {
            lemma_laid_out_grows(sections, bss, start, n - 1, n - 1);
        }
    }
}

/// Replacing a section by one of the same name and kind keeps the references and the
/// names.
proof fn lemma_section_update(m: ObjectModel, n: ObjectModel, i: nat)
    requires
        m.wf(),
        i < m.sections.len(),
        n == m.set_section(i, n.sections[i as int]),
        n.sections[i as int].name == m.sections[i as int].name,
        n.sections[i as int].kind == m.sections[i as int].kind,
        n.sections[i as int].kind != SectionKind::UninitializedData ==> n.sections[i as int].size
            == n.sections[i as int].data.len(),
        n.sections[i as int].kind == SectionKind::UninitializedData
            ==> n.sections[i as int].data.len() == 0,
        forall|j: int|
            0 <= j < n.sections[i as int].relocations.len() ==> (
            #[trigger] n.sections[i as int].relocations[j]).symbol < m.symbols.len(),
    ensures
        n.wf(),
        n.has_bad_name() == m.has_bad_name(),
{
    assert forall|k: int| 0 <= k < m.sections.len() implies (#[trigger] n.sections[k]).name
        == m.sections[k].name && n.sections[k].kind == m.sections[k].kind by {}
    assert(n.has_bad_name() == m.has_bad_name()) by {
        if m.has_bad_name() {
            if exists|k: int| 0 <= k < m.sections.len() && has_nul(#[trigger] m.sections[k].name) {
                let k = choose|k: int|
                    0 <= k < m.sections.len() && has_nul(#[trigger] m.sections[k].name);
                assert(has_nul(n.sections[k].name));
            }
        }
    }
    assert forall|k: int, j: int|
        0 <= k < n.sections.len() && 0 <= j < n.sections[k].relocations.len() implies (
    #[trigger] n.sections[k].relocations[j]).symbol < n.symbols.len() by {
        if k != i {
            assert(n.sections[k] == m.sections[k]);
            assert(m.sections[k].relocations[j].symbol < m.symbols.len());
        }
    }
}

proof fn lemma_zero_bytes(n: nat)
    ensures
        le_bytes(0, n) == zeros(n),
    decreases n,
{
    if n > 0 {
        lemma_zero_bytes((n - 1) as nat);
        assert(le_bytes(0, n) =~= zeros(n));
    }
}

/// Outside ELF, an addend that leaves out what the writer adds to it is in the field
/// in the end: a branch field that was cleared holds just that addend.
pub proof fn law_field_holds_addend(
    m: ObjectModel,
    i: nat,
    offset: u64,
    symbol: nat,
    kind: RelocationType,
    addend: int,
)
    requires
        m.format != ObjectFormat::Elf,
        i < m.sections.len(),
        offset + field_width(kind) <= m.sections[i as int].data.len(),
        m.sections[i as int].data.subrange(offset as int, offset + field_width(kind)) == zeros(
            field_width(kind),
        ),
    ensures
        m.with_relocation(
            i,
            offset,
            symbol,
            kind,
            addend - field_bias(m.machine, kind),
        ).sections[i as int].data.subrange(offset as int, offset + field_width(kind))
            == field_bytes(addend, field_width(kind)),
{
    let n = field_width(kind);
    lemma_field_bytes_len(addend, n);
    lemma_zero_bytes(n);
    let after = m.with_relocation(i, offset, symbol, kind, addend - field_bias(m.machine, kind));
    assert(after.sections[i as int].data.subrange(offset as int, offset + n) =~= field_bytes(
        addend,
        n,
    ));
}

} // verus!
