//! What an image file holds: its architecture, sections and symbols.
use object::{Object as _, ObjectSection as _, ObjectSymbol as _};
use vstd::prelude::*;

use crate::text::{has_prefix, joined, starts_with, str_eq, text_of};

verus! {

/// Architectures that images are told apart by.
#[derive(Debug, Clone, Copy, PartialEq, Eq, Structural)]
pub enum ImageArch {
    I386,
    X86_64,
    PowerPc,
    PowerPc64,
    Other,
}

/// Format, architecture and byte order of an image.
#[derive(Debug, Clone, Copy, PartialEq, Eq, Structural)]
pub struct ImageHeader {
    /// It is a Mach-O image.
    pub macho: bool,
    pub arch: ImageArch,
    pub little_endian: bool,
}

/// A section of an image. Names that are not valid text are missing, and so is
/// data that does not lie in the file.
#[derive(Debug)]
pub struct ImageSection {
    /// Number of the section in the file's own section table.
    pub index: usize,
    pub name: Option<String>,
    pub segment: Option<String>,
    pub addr: u64,
    pub size: u64,
    /// Bytes in the file; empty for zero-filled sections.
    pub data: Option<Vec<u8>>,
    /// Flags of a Mach-O section.
    pub macho_flags: Option<u32>,
    /// What the section is for, as a word.
    pub kind: String,
}

/// A section, with its names as text.
#[verifier::ext_equal]
pub ghost struct ImageSectionView {
    pub index: nat,
    pub name: Option<Seq<char>>,
    pub segment: Option<Seq<char>>,
    pub addr: u64,
    pub size: u64,
    pub data: Option<Seq<u8>>,
    pub macho_flags: Option<u32>,
    pub kind: Seq<char>,
}

/// Optional bytes.
pub open spec fn bytes_of(v: Option<Vec<u8>>) -> Option<Seq<u8>> {
    match v {
        Some(b) => Some(b@),
        None => None,
    }
}

impl View for ImageSection {
    type V = ImageSectionView;

    open spec fn view(&self) -> ImageSectionView {
        ImageSectionView {
            index: self.index as nat,
            name: text_of(self.name),
            segment: text_of(self.segment),
            addr: self.addr,
            size: self.size,
            data: bytes_of(self.data),
            macho_flags: self.macho_flags,
            kind: self.kind@,
        }
    }
}

/// A symbol of an image. A name that is not valid text is missing.
#[derive(Debug)]
pub struct ImageSymbol {
    pub name: Option<String>,
    pub addr: u64,
    /// Defined in another image.
    pub undefined: bool,
    /// Of no known kind.
    pub unknown: bool,
}

/// A symbol, with its name as text.
pub ghost struct ImageSymbolView {
    pub name: Option<Seq<char>>,
    pub addr: u64,
    pub undefined: bool,
    pub unknown: bool,
}

impl View for ImageSymbol {
    type V = ImageSymbolView;

    open spec fn view(&self) -> ImageSymbolView {
        ImageSymbolView {
            name: text_of(self.name),
            addr: self.addr,
            undefined: self.undefined,
            unknown: self.unknown,
        }
    }
}

/// Sections, with their names as text.
pub open spec fn section_views(v: Seq<ImageSection>) -> Seq<ImageSectionView> {
    v.map_values(|s: ImageSection| s@)
}

/// Symbols, with their names as text.
pub open spec fn symbol_views(v: Seq<ImageSymbol>) -> Seq<ImageSymbolView> {
    v.map_values(|s: ImageSymbol| s@)
}

/// Format, architecture and byte order of the image in a file, if it is one.
pub uninterp spec fn image_header(data: Seq<u8>) -> Option<ImageHeader>;

/// True when the file holds a Mach-O image.
pub open spec fn is_macho(data: Seq<u8>) -> bool {
    image_header(data) matches Some(h) && h.macho
}

/// The sections of the image in a file, if it is one.
pub uninterp spec fn image_sections(data: Seq<u8>) -> Option<Seq<ImageSectionView>>;

/// The symbols of the Mach-O image in a file, if it is one.
pub uninterp spec fn image_symbols(data: Seq<u8>) -> Option<Seq<ImageSymbolView>>;

/// `File::parse` with `format`, `architecture` and `is_little_endian`: what the header
/// of the file says, or nothing where `File::parse` fails.
#[verifier::external_body]
pub(crate) fn read_header(data: &[u8]) -> (r: Option<ImageHeader>)
    ensures
        r == image_header(data@),
{
    let file = object::File::parse(data).ok()?;
    let arch = match file.architecture() {
        object::Architecture::I386 => ImageArch::I386,
        object::Architecture::X86_64 => ImageArch::X86_64,
        object::Architecture::PowerPc => ImageArch::PowerPc,
        object::Architecture::PowerPc64 => ImageArch::PowerPc64,
        _ => ImageArch::Other,
    };
    let macho = matches!(file.format(), object::BinaryFormat::MachO);
    Some(ImageHeader { macho, arch, little_endian: file.is_little_endian() })
}

/// `File::parse` with `sections`: the sections in the order of the file, or
/// nothing where `File::parse` fails.
#[verifier::external_body]
pub(crate) fn read_sections(data: &[u8]) -> (r: Option<Vec<ImageSection>>)
    ensures
        match r {
            Some(v) => image_sections(data@) == Some(section_views(v@)),
            None => image_sections(data@) is None,
        },
{
    let record = |s: object::read::Section| ImageSection {
        index: s.index().0,
        name: s.name().ok().map(|n| n.to_string()),
        segment: s.segment_name().ok().flatten().map(|n| n.to_string()),
        addr: s.address(),
        size: s.size(),
        data: s.data().ok().map(|d| d.to_vec()),
        macho_flags: match s.flags() { object::SectionFlags::MachO { flags } => Some(flags), _ => None },
        kind: format!("{:?}", s.kind()),
    };
    Some(object::File::parse(data).ok()?.sections().map(record).collect())
}

/// `File::parse` with `symbols`, of a Mach-O file: the symbols in the order of the
/// file, without its debugging entries, or nothing where `File::parse` fails. In other
/// formats the address of a symbol is a sum that need not fit.
#[verifier::external_body]
pub(crate) fn read_symbols(data: &[u8]) -> (r: Option<Vec<ImageSymbol>>)
    requires
        is_macho(data@),
    ensures
        match r {
            Some(v) => image_symbols(data@) == Some(symbol_views(v@)),
            None => image_symbols(data@) is None,
        },
{
    let record = |s: object::read::Symbol| ImageSymbol {
        name: s.name().ok().map(|n| n.to_string()),
        addr: s.address(),
        undefined: s.is_undefined(),
        unknown: s.kind() == object::SymbolKind::Unknown,
    };
    Some(object::File::parse(data).ok()?.symbols().map(record).collect())
}

/// Index, from `i` on, of the first section called `name`.
pub open spec fn section_called(sections: Seq<ImageSection>, name: Seq<char>, i: int) -> Option<int>
    decreases sections.len() - i,
{
    if i < 0 || i >= sections.len() {
        None
    } else if text_of(sections[i].name) == Some(name) {
        Some(i)
    } else {
        section_called(sections, name, i + 1)
    }
}

/// Finds the first section called `name`.
pub fn section_named(sections: &Vec<ImageSection>, name: &str) -> (r: Option<usize>)
    ensures
        match r {
            Some(i) => i < sections@.len() && section_called(sections@, name@, 0) == Some(i as int),
            None => section_called(sections@, name@, 0) is None,
        },
{
    let mut i: usize = 0;
    while i < sections.len()
        invariant
            i <= sections@.len(),
            section_called(sections@, name@, 0) == section_called(sections@, name@, i as int),
        decreases sections@.len() - i,
    {
        let found = match &sections[i].name {
            Some(n) => str_eq(n.as_str(), name),
            None => false,
        };
        if found {
            return Some(i);
        }
        i = i + 1;
    }
    None
}

/// The name that a compressed debugging section has in place of `name`.
pub open spec fn compressed_name(name: Seq<char>) -> Seq<char> {
    ".z"@ + name.subrange(1, name.len() as int)
}

/// Index of the section that `name` stands for in an ELF file: the first of that
/// name or, where there is none and it is a debugging section, the first of the
/// name that compressed debugging sections have.
pub open spec fn elf_section(sections: Seq<ImageSection>, name: Seq<char>) -> Option<int> {
    match section_called(sections, name, 0) {
        Some(i) => Some(i),
        None => if has_prefix(name, ".debug_"@) {
            section_called(sections, compressed_name(name), 0)
        } else {
            None
        },
    }
}

/// Finds the section that `name` stands for in an ELF file.
pub fn find_elf_section(sections: &Vec<ImageSection>, name: &str) -> (r: Option<usize>)
    ensures
        match r {
            Some(i) => i < sections@.len() && elf_section(sections@, name@) == Some(i as int),
            None => elf_section(sections@, name@) is None,
        },
{
    match section_named(sections, name) {
        Some(i) => Some(i),
        None => if starts_with(name, ".debug_") {
            proof {
                reveal_strlit(".debug_");
            }
            let rest = crate::text::skip_first(name);
            let compressed = joined(".z", rest.as_str());
            section_named(sections, compressed.as_str())
        } else {
            None
        },
    }
}

} // verus!
