//! What a 64-bit ELF file holds, as text: header, sections, symbols and
//! relocations.
use object::read::elf::{ElfFile64, FileHeader as _};
use object::{Endianness, Object as _, ObjectSection as _, ObjectSymbol as _};
use object::{RelocationFlags, RelocationTarget};
use vstd::prelude::*;

use super::binary::ElfError;
use super::inspect::{object_reloc_name, object_word, word_or_number};
use crate::text::{
    decimal, digits, hex, owned, pad_left, pad_right, pad_zeros, padded_left, padded_right, text_of,
    zero_padded,
};

verus! {

/// What the header of a file says.
#[derive(Debug, Clone, Copy, PartialEq, Eq, Structural)]
pub struct DumpHeader {
    pub e_type: u16,
    pub e_machine: u16,
}

/// What a relocation refers to.
#[derive(Debug)]
pub enum DumpTarget {
    /// The symbol of this number.
    Symbol(usize),
    /// Something else, in words.
    Other(String),
}

/// What a relocation refers to, with its words as text.
pub ghost enum DumpTargetView {
    Symbol(nat),
    Other(Seq<char>),
}

/// What a relocation does.
#[derive(Debug)]
pub enum DumpFlags {
    /// The ELF relocation of this type.
    Elf(u32),
    /// Something else, in words.
    Other(String),
}

/// What a relocation does, with its words as text.
pub ghost enum DumpFlagsView {
    Elf(u32),
    Other(Seq<char>),
}

/// A relocation.
#[derive(Debug)]
pub struct DumpReloc {
    pub offset: u64,
    pub target: DumpTarget,
    pub addend: i64,
    pub flags: DumpFlags,
}

/// A relocation, with its words as text.
pub ghost struct DumpRelocView {
    pub offset: u64,
    pub target: DumpTargetView,
    pub addend: i64,
    pub flags: DumpFlagsView,
}

/// A section. A name that is not valid text is missing.
#[derive(Debug)]
pub struct DumpSection {
    pub name: Option<String>,
    pub addr: u64,
    pub size: u64,
    /// What the section is for, as a word.
    pub kind: String,
}

/// A section, with names and words as text.
pub ghost struct DumpSectionView {
    pub name: Option<Seq<char>>,
    pub addr: u64,
    pub size: u64,
    pub kind: Seq<char>,
}

/// A symbol. A name that is not valid text is missing.
#[derive(Debug)]
pub struct DumpSymbol {
    /// Number of the symbol in the symbol table.
    pub index: usize,
    pub name: Option<String>,
    pub addr: u64,
    pub size: u64,
    /// What the symbol stands for, as a word.
    pub kind: String,
    /// Who sees the symbol, as a word.
    pub scope: String,
    /// Where the symbol is defined, in words.
    pub section: String,
}

/// A symbol, with names and words as text.
pub ghost struct DumpSymbolView {
    pub index: nat,
    pub name: Option<Seq<char>>,
    pub addr: u64,
    pub size: u64,
    pub kind: Seq<char>,
    pub scope: Seq<char>,
    pub section: Seq<char>,
}

/// What a file holds.
#[derive(Debug)]
pub struct ObjectDump {
    pub header: DumpHeader,
    pub sections: Vec<DumpSection>,
    /// The relocations of each section.
    pub relocs: Vec<Vec<DumpReloc>>,
    pub symbols: Vec<DumpSymbol>,
}

/// What a file holds, with names and words as text.
pub ghost struct DumpView {
    pub header: DumpHeader,
    pub sections: Seq<DumpSectionView>,
    pub relocs: Seq<Seq<DumpRelocView>>,
    pub symbols: Seq<DumpSymbolView>,
}

impl View for DumpTarget {
    type V = DumpTargetView;

    open spec fn view(&self) -> DumpTargetView {
        match self {
            DumpTarget::Symbol(i) => DumpTargetView::Symbol(*i as nat),
            DumpTarget::Other(s) => DumpTargetView::Other(s@),
        }
    }
}

impl View for DumpFlags {
    type V = DumpFlagsView;

    open spec fn view(&self) -> DumpFlagsView {
        match self {
            DumpFlags::Elf(t) => DumpFlagsView::Elf(*t),
            DumpFlags::Other(s) => DumpFlagsView::Other(s@),
        }
    }
}

impl View for DumpReloc {
    type V = DumpRelocView;

    open spec fn view(&self) -> DumpRelocView {
        DumpRelocView {
            offset: self.offset,
            target: self.target@,
            addend: self.addend,
            flags: self.flags@,
        }
    }
}

/// Relocations, with their words as text.
pub open spec fn dump_relocs(v: Seq<DumpReloc>) -> Seq<DumpRelocView> {
    v.map_values(|r: DumpReloc| r@)
}

/// Lists of relocations, with their words as text.
pub open spec fn dump_reloc_lists(v: Seq<Vec<DumpReloc>>) -> Seq<Seq<DumpRelocView>> {
    v.map_values(|r: Vec<DumpReloc>| dump_relocs(r@))
}

impl View for DumpSection {
    type V = DumpSectionView;

    open spec fn view(&self) -> DumpSectionView {
        DumpSectionView {
            name: text_of(self.name),
            addr: self.addr,
            size: self.size,
            kind: self.kind@,
        }
    }
}

/// Sections, with names and words as text.
pub open spec fn dump_sections(v: Seq<DumpSection>) -> Seq<DumpSectionView> {
    v.map_values(|s: DumpSection| s@)
}

impl View for DumpSymbol {
    type V = DumpSymbolView;

    open spec fn view(&self) -> DumpSymbolView {
        DumpSymbolView {
            index: self.index as nat,
            name: text_of(self.name),
            addr: self.addr,
            size: self.size,
            kind: self.kind@,
            scope: self.scope@,
            section: self.section@,
        }
    }
}

/// Symbols, with names and words as text.
pub open spec fn dump_symbols(v: Seq<DumpSymbol>) -> Seq<DumpSymbolView> {
    v.map_values(|s: DumpSymbol| s@)
}

impl View for ObjectDump {
    type V = DumpView;

    open spec fn view(&self) -> DumpView {
        DumpView {
            header: self.header,
            sections: dump_sections(self.sections@),
            relocs: dump_reloc_lists(self.relocs@),
            symbols: dump_symbols(self.symbols@),
        }
    }
}

/// The header of the 64-bit ELF file with these bytes, if it is one.
pub uninterp spec fn elf64_header(data: Seq<u8>) -> Option<DumpHeader>;

/// The sections of the 64-bit ELF file with these bytes, if it is one.
pub uninterp spec fn elf64_sections(data: Seq<u8>) -> Option<Seq<DumpSectionView>>;

/// The relocations of each section of the 64-bit ELF file with these bytes, if it is
/// one.
pub uninterp spec fn elf64_relocs(data: Seq<u8>) -> Option<Seq<Seq<DumpRelocView>>>;

/// The symbols of the 64-bit ELF file with these bytes, if it is one.
pub uninterp spec fn elf64_symbols(data: Seq<u8>) -> Option<Seq<DumpSymbolView>>;

/// What the 64-bit ELF file with these bytes holds, if it is one.
pub open spec fn elf64_dump(data: Seq<u8>) -> Option<DumpView> {
    match (elf64_header(data), elf64_sections(data), elf64_relocs(data), elf64_symbols(data)) {
        (Some(header), Some(sections), Some(relocs), Some(symbols)) => Some(
            DumpView { header, sections, relocs, symbols },
        ),
        _ => None,
    }
}

/// `ElfFile64::parse` with `elf_header`: the type and the machine in the header, or
/// nothing where `ElfFile64::parse` fails.
#[verifier::external_body]
fn read_header64(data: &[u8]) -> (r: Option<DumpHeader>)
    ensures
        r == elf64_header(data@),
{
    let elf = ElfFile64::<Endianness>::parse(data).ok()?;
    let endian = elf.endian();
    let e_type = elf.elf_header().e_type(endian);
    Some(DumpHeader { e_type, e_machine: elf.elf_header().e_machine(endian) })
}

/// `ElfFile64::parse` with `sections`: the sections in the order of the file, or nothing
/// where `ElfFile64::parse` fails.
#[verifier::external_body]
fn read_sections64(data: &[u8]) -> (r: Option<Vec<DumpSection>>)
    ensures
        match r {
            Some(v) => elf64_sections(data@) == Some(dump_sections(v@)),
            None => elf64_sections(data@) is None,
        },
{
    let elf = ElfFile64::<Endianness>::parse(data).ok()?;
    Some(elf.sections().map(|s| DumpSection {
        name: s.name().ok().map(|n| n.to_string()),
        addr: s.address(),
        size: s.size(),
        kind: format!("{:?}", s.kind()),
    }).collect())
}

/// `ElfFile64::parse` with `sections` and `relocations`: for each section in the order of
/// the file its relocations in the order of the file, or nothing where
/// `ElfFile64::parse` fails.
#[verifier::external_body]
fn read_relocs64(data: &[u8]) -> (r: Option<Vec<Vec<DumpReloc>>>)
    ensures
        match r {
            Some(v) => elf64_relocs(data@) == Some(dump_reloc_lists(v@)),
            None => elf64_relocs(data@) is None,
        },
{
    let record = |(offset, r): (u64, object::Relocation)| {
        let target = match r.target() {
            RelocationTarget::Symbol(i) => DumpTarget::Symbol(i.0),
            other => DumpTarget::Other(format!("{:?}", other)),
        };
        let flags = match r.flags() {
            RelocationFlags::Elf { r_type } => DumpFlags::Elf(r_type),
            other => DumpFlags::Other(format!("{:?}", other)),
        };
        DumpReloc { offset, target, addend: r.addend(), flags }
    };
    let elf = ElfFile64::<Endianness>::parse(data).ok()?;
    Some(elf.sections().map(|s| s.relocations().map(record).collect()).collect())
}

/// `ElfFile64::parse` with `symbols`: the symbols in the order of the file, or nothing
/// where `ElfFile64::parse` fails.
#[verifier::external_body]
fn read_symbols64(data: &[u8]) -> (r: Option<Vec<DumpSymbol>>)
    ensures
        match r {
            Some(v) => elf64_symbols(data@) == Some(dump_symbols(v@)),
            None => elf64_symbols(data@) is None,
        },
{
    let elf = ElfFile64::<Endianness>::parse(data).ok()?;
    Some(elf.symbols().map(|s| DumpSymbol {
        index: s.index().0,
        name: s.name().ok().map(|n| n.to_string()),
        addr: s.address(),
        size: s.size(),
        kind: format!("{:?}", s.kind()),
        scope: format!("{:?}", s.scope()),
        section: format!("{:?}", s.section()),
    }).collect())
}

/// Reads what a 64-bit ELF file holds.
pub fn read_elf64(data: &[u8]) -> (r: Option<ObjectDump>)
    ensures
        match r {
            Some(d) => elf64_dump(data@) == Some(d@),
            None => elf64_dump(data@) is None,
        },
{
    let header = match read_header64(data) {
        Some(h) => h,
        None => return None,
    };
    let sections = match read_sections64(data) {
        Some(s) => s,
        None => return None,
    };
    let relocs = match read_relocs64(data) {
        Some(r) => r,
        None => return None,
    };
    let symbols = match read_symbols64(data) {
        Some(s) => s,
        None => return None,
    };
    Some(ObjectDump { header, sections, relocs, symbols })
}

/// A name, or what stands in its place.
pub open spec fn shown_name(name: Option<Seq<char>>) -> Seq<char> {
    match name {
        Some(n) => n,
        None => "<?>"@,
    }
}

fn show_name(name: &Option<String>) -> (r: String)
    ensures
        r@ == shown_name(text_of(*name)),
{
    match name {
        Some(n) => owned(n.as_str()),
        None => owned("<?>"),
    }
}

/// An address in hexadecimal with at least eight digits.
pub open spec fn shown_address(a: u64) -> Seq<char> {
    "0x"@ + zero_padded(digits(a as nat, 16), 8)
}

fn add_address(out: &mut String, a: u64)
    ensures
        final(out)@ == old(out)@ + shown_address(a),
{
    let d = hex(a);
    let d = pad_zeros(d.as_str(), 8);
    out.append("0x");
    out.append(d.as_str());
    assert(out@ =~= old(out)@ + shown_address(a));
}

/// An addend: a plus sign and its 64 bits in hexadecimal.
pub open spec fn shown_addend(a: i64) -> Seq<char> {
    "+0x"@ + digits(
        if a >= 0 {
            a as nat
        } else {
            (a + 0x1_0000_0000_0000_0000) as nat
        },
        16,
    )
}

fn add_addend(out: &mut String, a: i64)
    ensures
        final(out)@ == old(out)@ + shown_addend(a),
{
    let bits: u64 = if a >= 0 {
        a as u64
    } else {
        u64::MAX - (-(a + 1)) as u64
    };
    let d = hex(bits);
    out.append("+0x");
    out.append(d.as_str());
    assert(out@ =~= old(out)@ + shown_addend(a));
}

/// With a line for each section from `i` on.
pub open spec fn with_sections(out: Seq<char>, v: Seq<DumpSectionView>, i: int) -> Seq<char>
    decreases v.len() - i,
{
    if i < 0 || i >= v.len() {
        out
    } else {
        let s = v[i];
        with_sections(
            out + "  "@ + padded_right(shown_name(s.name), 24) + " addr="@ + shown_address(s.addr)
                + " size="@ + padded_left(digits(s.size as nat, 10), 8) + " kind="@ + s.kind
                + "\n"@,
            v,
            i + 1,
        )
    }
}

fn add_sections(out: &mut String, v: &Vec<DumpSection>)
    ensures
        final(out)@ == with_sections(old(out)@, dump_sections(v@), 0),
{
    let ghost views = dump_sections(v@);
    let mut i: usize = 0;
    while i < v.len()
        invariant
            i <= v@.len(),
            views == dump_sections(v@),
            with_sections(old(out)@, views, 0) == with_sections(out@, views, i as int),
        decreases v@.len() - i,
    {
        let s = &v[i];
        assert(views[i as int] == s@);
        let name = show_name(&s.name);
        let name = pad_right(name.as_str(), 24);
        let size = decimal(s.size);
        let size = pad_left(size.as_str(), 8);
        out.append("  ");
        out.append(name.as_str());
        out.append(" addr=");
        add_address(out, s.addr);
        out.append(" size=");
        out.append(size.as_str());
        out.append(" kind=");
        out.append(s.kind.as_str());
        out.append("\n");
        i = i + 1;
    }
}

/// With a line for each symbol from `i` on that is not nameless.
pub open spec fn with_symbols(out: Seq<char>, v: Seq<DumpSymbolView>, i: int) -> Seq<char>
    decreases v.len() - i,
{
    if i < 0 || i >= v.len() {
        out
    } else {
        let s = v[i];
        let name = shown_name(s.name);
        let line = "  "@ + padded_right(name, 40) + " value="@ + shown_address(s.addr) + " size="@
            + padded_left(digits(s.size as nat, 10), 6) + " kind="@ + s.kind + " scope="@ + s.scope
            + " section="@ + s.section + "\n"@;
        with_symbols(
            if name.len() == 0 {
                out
            } else {
                out + line
            },
            v,
            i + 1,
        )
    }
}

fn add_symbol(out: &mut String, name: &str, s: &DumpSymbol)
    ensures
        final(out)@ == old(out)@ + ("  "@ + padded_right(name@, 40) + " value="@ + shown_address(
            s.addr,
        ) + " size="@ + padded_left(digits(s.size as nat, 10), 6) + " kind="@ + s.kind@
            + " scope="@ + s.scope@ + " section="@ + s.section@ + "\n"@),
{
    let mut line = owned("  ");
    let name = pad_right(name, 40);
    let size = decimal(s.size);
    let size = pad_left(size.as_str(), 6);
    line.append(name.as_str());
    line.append(" value=");
    add_address(&mut line, s.addr);
    line.append(" size=");
    line.append(size.as_str());
    line.append(" kind=");
    line.append(s.kind.as_str());
    line.append(" scope=");
    line.append(s.scope.as_str());
    line.append(" section=");
    line.append(s.section.as_str());
    line.append("\n");
    out.append(line.as_str());
}

fn add_symbols(out: &mut String, v: &Vec<DumpSymbol>)
    ensures
        final(out)@ == with_symbols(old(out)@, dump_symbols(v@), 0),
{
    let ghost views = dump_symbols(v@);
    let mut i: usize = 0;
    while i < v.len()
        invariant
            i <= v@.len(),
            views == dump_symbols(v@),
            with_symbols(old(out)@, views, 0) == with_symbols(out@, views, i as int),
        decreases v@.len() - i,
    {
        assert(views[i as int] == v@[i as int]@);
        let name = show_name(&v[i].name);
        if name.as_str().unicode_len() > 0 {
            add_symbol(out, name.as_str(), &v[i]);
        }
        i = i + 1;
    }
}

/// The name of the first symbol from `i` on that has this number.
pub open spec fn name_of_symbol(v: Seq<DumpSymbolView>, index: nat, i: int) -> Option<Seq<char>>
    decreases v.len() - i,
{
    if i < 0 || i >= v.len() {
        None
    } else if v[i].index == index {
        v[i].name
    } else {
        name_of_symbol(v, index, i + 1)
    }
}

/// What a relocation refers to, in words.
pub open spec fn shown_target(t: DumpTargetView, symbols: Seq<DumpSymbolView>) -> Seq<char> {
    match t {
        DumpTargetView::Symbol(index) => shown_name(name_of_symbol(symbols, index, 0)),
        DumpTargetView::Other(words) => words,
    }
}

fn show_target(t: &DumpTarget, symbols: &Vec<DumpSymbol>) -> (r: String)
    ensures
        r@ == shown_target(t@, dump_symbols(symbols@)),
{
    match t {
        DumpTarget::Symbol(index) => {
            let ghost views = dump_symbols(symbols@);
            let mut i: usize = 0;
            while i < symbols.len()
                invariant
                    i <= symbols@.len(),
                    views == dump_symbols(symbols@),
                    name_of_symbol(views, *index as nat, 0) == name_of_symbol(
                        views,
                        *index as nat,
                        i as int,
                    ),
                    t@ == DumpTargetView::Symbol(*index as nat),
                decreases symbols@.len() - i,
            {
                assert(views[i as int] == symbols@[i as int]@);
                if symbols[i].index == *index {
                    return show_name(&symbols[i].name);
                }
                i = i + 1;
            }
            owned("<?>")
        },
        DumpTarget::Other(words) => owned(words.as_str()),
    }
}

/// What a relocation does, in words.
pub open spec fn shown_flags(f: DumpFlagsView) -> Seq<char> {
    match f {
        DumpFlagsView::Elf(t) => "elf_type="@ + word_or_number(object_word(t), "R_AARCH64_"@, t),
        DumpFlagsView::Other(words) => words,
    }
}

fn show_flags(f: &DumpFlags) -> (r: String)
    ensures
        r@ == shown_flags(f@),
{
    match f {
        DumpFlags::Elf(t) => {
            let name = object_reloc_name(*t);
            crate::text::joined("elf_type=", name.as_str())
        },
        DumpFlags::Other(words) => owned(words.as_str()),
    }
}

/// With a line for each relocation from `i` on.
pub open spec fn with_relocs(
    out: Seq<char>,
    v: Seq<DumpRelocView>,
    symbols: Seq<DumpSymbolView>,
    i: int,
) -> Seq<char>
    decreases v.len() - i,
{
    if i < 0 || i >= v.len() {
        out
    } else {
        let r = v[i];
        with_relocs(
            out + "    "@ + shown_address(r.offset) + " -> "@ + padded_right(
                shown_target(r.target, symbols),
                40,
            ) + " addend="@ + shown_addend(r.addend) + " "@ + shown_flags(r.flags) + "\n"@,
            v,
            symbols,
            i + 1,
        )
    }
}

fn add_relocs(out: &mut String, v: &Vec<DumpReloc>, symbols: &Vec<DumpSymbol>)
    ensures
        final(out)@ == with_relocs(old(out)@, dump_relocs(v@), dump_symbols(symbols@), 0),
{
    let ghost views = dump_relocs(v@);
    let ghost known = dump_symbols(symbols@);
    let mut i: usize = 0;
    while i < v.len()
        invariant
            i <= v@.len(),
            views == dump_relocs(v@),
            known == dump_symbols(symbols@),
            with_relocs(old(out)@, views, known, 0) == with_relocs(out@, views, known, i as int),
        decreases v@.len() - i,
    {
        let r = &v[i];
        assert(views[i as int] == r@);
        let target = show_target(&r.target, symbols);
        let target = pad_right(target.as_str(), 40);
        let flags = show_flags(&r.flags);
        out.append("    ");
        add_address(out, r.offset);
        out.append(" -> ");
        out.append(target.as_str());
        out.append(" addend=");
        add_addend(out, r.addend);
        out.append(" ");
        out.append(flags.as_str());
        out.append("\n");
        i = i + 1;
    }
}

/// With the relocations of each section from `i` on that has some.
pub open spec fn with_section_relocs(
    out: Seq<char>,
    v: Seq<DumpSectionView>,
    relocs: Seq<Seq<DumpRelocView>>,
    symbols: Seq<DumpSymbolView>,
    i: int,
) -> Seq<char>
    decreases v.len() - i,
{
    if i < 0 || i >= v.len() || i >= relocs.len() {
        out
    } else {
        with_section_relocs(
            if relocs[i].len() == 0 {
                out
            } else {
                with_relocs(out + "  in "@ + shown_name(v[i].name) + ":\n"@, relocs[i], symbols, 0)
            },
            v,
            relocs,
            symbols,
            i + 1,
        )
    }
}

fn add_section_relocs(out: &mut String, d: &ObjectDump)
    ensures
        final(out)@ == with_section_relocs(
            old(out)@,
            d@.sections,
            d@.relocs,
            d@.symbols,
            0,
        ),
{
    let ghost view = d@;
    let mut i: usize = 0;
    while i < d.sections.len() && i < d.relocs.len()
        invariant
            i <= d.sections@.len(),
            i <= d.relocs@.len(),
            view == d@,
            with_section_relocs(old(out)@, view.sections, view.relocs, view.symbols, 0)
                == with_section_relocs(
                out@,
                view.sections,
                view.relocs,
                view.symbols,
                i as int,
            ),
        decreases d.sections@.len() - i,
    {
        assert(view.sections[i as int] == d.sections@[i as int]@);
        assert(view.relocs[i as int] == dump_relocs(d.relocs@[i as int]@));
        assert(view.relocs[i as int].len() == d.relocs@[i as int]@.len());
        if d.relocs[i].len() > 0 {
            let name = show_name(&d.sections[i].name);
            out.append("  in ");
            out.append(name.as_str());
            out.append(":\n");
            add_relocs(out, &d.relocs[i], &d.symbols);
        }
        i = i + 1;
    }
}

/// The text that shows what a file holds.
pub open spec fn spec_dump_text(d: DumpView) -> Seq<char> {
    let head = "ELF  e_type=0x"@ + digits(d.header.e_type as nat, 16) + " e_machine=0x"@ + digits(
        d.header.e_machine as nat,
        16,
    ) + "\n"@;
    let sections = with_sections(head + "\nSECTIONS\n"@, d.sections, 0);
    let symbols = with_symbols(sections + "\nSYMBOLS\n"@, d.symbols, 0);
    with_section_relocs(symbols + "\nRELOCATIONS\n"@, d.sections, d.relocs, d.symbols, 0)
}

/// Shows what a file holds.
pub fn dump_text(d: &ObjectDump) -> (s: String)
    ensures
        s@ == spec_dump_text(d@),
{
    let mut out = owned("ELF  e_type=0x");
    let e_type = hex(d.header.e_type as u64);
    let e_machine = hex(d.header.e_machine as u64);
    out.append(e_type.as_str());
    out.append(" e_machine=0x");
    out.append(e_machine.as_str());
    out.append("\n");
    out.append("\nSECTIONS\n");
    add_sections(&mut out, &d.sections);
    out.append("\nSYMBOLS\n");
    add_symbols(&mut out, &d.symbols);
    out.append("\nRELOCATIONS\n");
    add_section_relocs(&mut out, d);
    out
}

/// Shows what the 64-bit ELF file with these bytes holds.
pub fn readobj(data: &[u8]) -> (r: Result<String, ElfError>)
    ensures
        match r {
            Ok(s) => elf64_dump(data@) is Some && s@ == spec_dump_text(elf64_dump(data@)->0),
            Err(e) => elf64_dump(data@) is None && e == ElfError::Unparsable,
        },
{
    match read_elf64(data) {
        Some(d) => Ok(dump_text(&d)),
        None => Err(ElfError::Unparsable),
    }
}

} // verus!
