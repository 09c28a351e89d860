//! Loading a Mach-O image.
use std::collections::HashMap;
use vstd::prelude::*;

use super::cu::{DebugInfoSource, MachoCompilationUnit, MachoCuIndex, UnitView};
use super::dwarf::{build_cu_index, dwarf_index};
use super::image::{MachoArch, MachoContext, MachoError, MachoSection};
use super::stabs::{build_cu_index_from_stabs, stabs_units};
use super::stubs::{parse_stubs, stubs_of};
use super::starts::is_of;
use super::symbols::{section_range, unit_functions, unit_variables, MachoGlobalSymbols};
use super::symtab_split::{build_cu_index_from_symtab, table_units};
use crate::bytes::copy_range;
use crate::image::{
    image_header, image_sections, read_header, read_sections, section_views, ImageArch,
    ImageSection, ImageSectionView,
};
use crate::text::{owned, texts};

verus! {

/// A Mach-O section, with its names as text and its data as a sequence.
#[verifier::ext_equal]
pub ghost struct SectionView {
    pub segment: Seq<char>,
    pub name: Seq<char>,
    pub addr: u64,
    pub size: u64,
    pub data: Seq<u8>,
    pub flags: u32,
}

/// A Mach-O section as text and sequences.
pub open spec fn section_view(s: MachoSection) -> SectionView {
    SectionView {
        segment: s.segment@,
        name: s.name@,
        addr: s.addr,
        size: s.size,
        data: s.data@,
        flags: s.flags,
    }
}

/// `t`, or no text.
pub open spec fn text_or_none(t: Option<Seq<char>>) -> Seq<char> {
    match t {
        Some(t) => t,
        None => ""@,
    }
}

/// What a section of a file is in the loaded image: what is missing is empty.
pub open spec fn loaded_section(s: ImageSectionView) -> SectionView {
    SectionView {
        segment: text_or_none(s.segment),
        name: text_or_none(s.name),
        addr: s.addr,
        size: s.size,
        data: match s.data {
            Some(d) => d,
            None => Seq::empty(),
        },
        flags: match s.macho_flags {
            Some(f) => f,
            None => 0,
        },
    }
}

/// The sections of a file as the loaded image has them.
pub open spec fn loaded_sections(s: Seq<ImageSectionView>) -> Seq<SectionView> {
    s.map_values(|s: ImageSectionView| loaded_section(s))
}

fn text_or_empty(t: &Option<String>) -> (r: String)
    ensures
        r@ == text_or_none(crate::text::text_of(*t)),
{
    match t {
        Some(t) => owned(t.as_str()),
        None => owned(""),
    }
}

fn load_section(s: &ImageSection) -> (r: MachoSection)
    ensures
        section_view(r) == loaded_section(s@),
{
    let data = match &s.data {
        Some(d) => {
            let v = copy_range(d.as_slice(), 0, d.len());
            assert(v@ =~= d@);
            v
        },
        None => Vec::new(),
    };
    let flags: u32 = match s.macho_flags {
        Some(f) => f,
        None => 0,
    };
    MachoSection {
        segment: text_or_empty(&s.segment),
        name: text_or_empty(&s.name),
        addr: s.addr,
        size: s.size,
        data,
        flags,
    }
}

/// Loads the sections of a file.
pub fn parse_sections(sections: &Vec<ImageSection>) -> (r: Vec<MachoSection>)
    ensures
        r@.map_values(|s: MachoSection| section_view(s)) == loaded_sections(section_views(sections@)),
{
    let ghost f = |s: MachoSection| section_view(s);
    let ghost goal = loaded_sections(section_views(sections@));
    let mut r: Vec<MachoSection> = Vec::new();
    assert(r@.map_values(f) =~= goal.subrange(0, 0));
    let mut i: usize = 0;
    while i < sections.len()
        invariant
            i <= sections@.len(),
            f == (|s: MachoSection| section_view(s)),
            goal == loaded_sections(section_views(sections@)),
            goal.len() == sections@.len(),
            r@.map_values(f) == goal.subrange(0, i as int),
        decreases sections@.len() - i,
    {
        let s = load_section(&sections[i]);
        let ghost before = r@;
        let ghost view = section_view(s);
        assert(goal[i as int] == view) by {
            assert(section_views(sections@)[i as int] == sections@[i as int]@);
        }
        r.push(s);
        assert(r@.map_values(f) =~= before.map_values(f).push(view));
        assert(goal.subrange(0, i + 1) =~= goal.subrange(0, i as int).push(view));
        i = i + 1;
    }
    assert(goal.subrange(0, goal.len() as int) =~= goal);
    r
}

/// The architecture that an image is loaded for, if it is supported.
pub open spec fn supported_arch(arch: ImageArch) -> Option<MachoArch> {
    match arch {
        ImageArch::I386 => Some(MachoArch::X86),
        ImageArch::X86_64 => Some(MachoArch::X86_64),
        ImageArch::PowerPc => Some(MachoArch::PPC),
        ImageArch::PowerPc64 => Some(MachoArch::PPC64),
        ImageArch::Other => None,
    }
}

/// The units of an image: those of its DWARF information, or else of its STABS
/// entries, or else of its symbol table.
pub open spec fn loaded_units(data: Seq<u8>) -> Option<Seq<UnitView>> {
    match dwarf_index(image_sections(data)->0) {
        None => None,
        Some(units) => if units.len() > 0 {
            Some(units)
        } else if stabs_units(data).len() > 0 {
            Some(stabs_units(data))
        } else {
            table_units(data)
        },
    }
}

/// What the units of an image come from.
pub open spec fn units_source(data: Seq<u8>) -> DebugInfoSource {
    if dwarf_index(image_sections(data)->0)->0.len() > 0 {
        DebugInfoSource::Dwarf
    } else if stabs_units(data).len() > 0 {
        DebugInfoSource::Stabs
    } else {
        DebugInfoSource::Symtab
    }
}

/// Why the image in a file cannot be loaded, if it cannot.
pub open spec fn load_error(data: Seq<u8>) -> Option<MachoError> {
    match image_header(data) {
        None => Some(MachoError::Unparsable),
        Some(h) => if supported_arch(h.arch) is None {
            Some(MachoError::UnsupportedArchitecture)
        } else if image_sections(data) is None {
            Some(MachoError::Unparsable)
        } else if dwarf_index(image_sections(data)->0) is None {
            Some(MachoError::Dwarf)
        } else if loaded_units(data) is None {
            Some(MachoError::Unparsable)
        } else {
            None
        },
    }
}

/// True when `ctx` is the image in the file `data`.
pub open spec fn loaded(data: Seq<u8>, ctx: &MachoContext) -> bool {
    &&& image_header(data) is Some
    &&& Some(ctx.arch) == supported_arch(image_header(data)->0.arch)
    &&& ctx.little_endian == image_header(data)->0.little_endian
    &&& image_sections(data) is Some
    &&& ctx.sections@.map_values(|s: MachoSection| section_view(s)) == loaded_sections(
        image_sections(data)->0,
    )
    &&& loaded_units(data) == Some(
        ctx.cu_index.units@.map_values(|u: MachoCompilationUnit| u@),
    )
    &&& ctx.cu_index.source == units_source(data)
    &&& ctx.symbols.functions@ == unit_functions(Map::empty(), ctx.cu_index.units@, 0)
    &&& ctx.symbols.variables@ == unit_variables(Map::empty(), ctx.cu_index.units@, 0)
    &&& texts(ctx.symbols.stubs@) == stubs_of(data)
    &&& ctx.symbols.text_range == section_range(ctx.sections@, "__TEXT"@, "__text"@)
    &&& ctx.symbols.data_range == section_range(ctx.sections@, "__DATA"@, "__data"@)
    &&& ctx.symbols.const_range == section_range(ctx.sections@, "__DATA"@, "__const"@)
    &&& ctx.symbols.bss_range == section_range(ctx.sections@, "__DATA"@, "__bss"@)
    &&& ctx.symbols.cstring_range == section_range(ctx.sections@, "__TEXT"@, "__cstring"@)
    &&& is_of(ctx.symbols, ctx.sections@)
}

fn load_units(data: &[u8], sections: &Vec<ImageSection>) -> (r: Result<MachoCuIndex, MachoError>)
    requires
        image_sections(data@) == Some(section_views(sections@)),
    ensures
        match r {
            Ok(index) => loaded_units(data@) == Some(
                index.units@.map_values(|u: MachoCompilationUnit| u@),
            ) && dwarf_index(section_views(sections@)) is Some && index.source == units_source(data@),
            Err(e) => loaded_units(data@) is None && e == (if dwarf_index(
                section_views(sections@),
            ) is None {
                MachoError::Dwarf
            } else {
                MachoError::Unparsable
            }),
        },
{
    let index = match build_cu_index(sections) {
        Ok(i) => i,
        Err(e) => return Err(e),
    };
    let ghost f = |u: MachoCompilationUnit| u@;
    assert(index.units@.map_values(f).len() == index.units@.len());
    if index.units.len() > 0 {
        return Ok(index);
    }
    let stabs = build_cu_index_from_stabs(data);
    assert(stabs.units@.map_values(f).len() == stabs.units@.len());
    if stabs.units.len() > 0 {
        return Ok(stabs);
    }
    build_cu_index_from_symtab(data)
}

/// Loads the Mach-O image in the file `data`, with its units and symbols.
pub fn load_macho(data: &[u8]) -> (r: Result<MachoContext, MachoError>)
    ensures
        match r {
            Ok(ctx) => load_error(data@) is None && loaded(data@, &ctx),
            Err(e) => load_error(data@) == Some(e),
        },
{
    let header = match read_header(data) {
        Some(h) => h,
        None => return Err(MachoError::Unparsable),
    };
    let arch = match header.arch {
        ImageArch::I386 => MachoArch::X86,
        ImageArch::X86_64 => MachoArch::X86_64,
        ImageArch::PowerPc => MachoArch::PPC,
        ImageArch::PowerPc64 => MachoArch::PPC64,
        ImageArch::Other => return Err(MachoError::UnsupportedArchitecture),
    };
    let raw = match read_sections(data) {
        Some(s) => s,
        None => return Err(MachoError::Unparsable),
    };
    let sections = parse_sections(&raw);
    let stubs: HashMap<u64, String> = parse_stubs(data);
    let cu_index = match load_units(data, &raw) {
        Ok(i) => i,
        Err(e) => return Err(e),
    };
    let symbols = MachoGlobalSymbols::build(&cu_index, stubs, &sections);
    Ok(MachoContext { arch, little_endian: header.little_endian, sections, cu_index, symbols })
}

} // verus!
