//! Compilation units of a Mach-O image, from its DWARF information.
use gimli::AttributeValue::{
    Addr, DebugAddrIndex, DebugRngListsIndex, Exprloc, Flag, RangeListsRef, Sdata, UnitRef,
};
use gimli::{DebugInfoOffset, DwAt, Dwarf, EndianSlice, Error, LittleEndian, Operation, UnitOffset};
use std::ops::Range;
use vstd::prelude::*;

use super::cu::{
    DebugInfoSource, FunctionView, MachoCompilationUnit, MachoCuIndex, MachoFunction,
    MachoVariable, UnitView, VariableView,
};
use super::image::MachoError;
use crate::bytes::{le_value, read_u32_le, read_u64_le};
use crate::image::{
    section_called, section_named, section_views, ImageSection, ImageSectionView,
};
use crate::text::{joined, owned, skip_first, text_of};

verus! {

use self::DieValue::{Address, AddressIndex, Entry, Number, Other, RangeList, RangeListIndex};

/// Tag of compilation units.
pub const DW_TAG_COMPILE_UNIT: u16 = 0x11;

/// Tag of functions.
pub const DW_TAG_SUBPROGRAM: u16 = 0x2e;

/// Tag of variables.
pub const DW_TAG_VARIABLE: u16 = 0x34;

/// Attribute: where a variable is.
pub const DW_AT_LOCATION: u16 = 0x02;

/// Attribute: where the ranges of an entry are listed.
pub const DW_AT_RANGES: u16 = 0x55;

/// Attribute: the name in the source.
pub const DW_AT_NAME: u16 = 0x03;

/// Attribute: the address of a function.
pub const DW_AT_LOW_PC: u16 = 0x11;

/// Attribute: the end of a function, or its size.
pub const DW_AT_HIGH_PC: u16 = 0x12;

/// Attribute: the directory that a unit was compiled in.
pub const DW_AT_COMP_DIR: u16 = 0x1b;

/// Attribute: whether a function is inlined.
pub const DW_AT_INLINE: u16 = 0x20;

/// Attribute: the entry that an inlined or copied entry comes from.
pub const DW_AT_ABSTRACT_ORIGIN: u16 = 0x31;

/// Attribute: whether other units see the entry.
pub const DW_AT_EXTERNAL: u16 = 0x3f;

/// Attribute: the declaration that an entry completes.
pub const DW_AT_SPECIFICATION: u16 = 0x47;

/// Attribute: the mangled name.
pub const DW_AT_LINKAGE_NAME: u16 = 0x6e;

/// Attribute: the mangled name, as older compilers give it.
pub const DW_AT_MIPS_LINKAGE_NAME: u16 = 0x2007;

/// What an entry is called that has no name.
pub const ANONYMOUS: &'static str = "<anon>";

/// Entries that names are looked up in, behind the entry itself.
pub const MAX_HOPS: usize = 5;

/// The value of an attribute.
#[derive(Debug, Clone, Copy, PartialEq, Eq, Structural)]
pub enum DieValue {
    Address(u64),
    /// An address by its number in the unit's table of addresses.
    AddressIndex(usize),
    Number(u64),
    Flag(bool),
    /// Another entry of the unit.
    Entry(usize),
    /// A list of ranges, by its offset.
    RangeList,
    /// A list of ranges, by its number in the unit's table of lists.
    RangeListIndex(usize),
    Other,
}

/// The outside error of reading DWARF information.
#[verifier::external_type_specification]
#[verifier::external_body]
pub struct ExGimliError(gimli::Error);

/// The name that a Mach-O image has for a debugging section.
pub open spec fn macho_name(name: Seq<char>) -> Seq<char> {
    "__"@ + name.subrange(1, name.len() as int)
}

/// Index, from `i` on, of the first section of this name.
pub open spec fn name_index(s: Seq<ImageSectionView>, name: Seq<char>, i: int) -> Option<int>
    decreases s.len() - i,
{
    if i < 0 || i >= s.len() {
        None
    } else if s[i].name == Some(name) {
        Some(i)
    } else {
        name_index(s, name, i + 1)
    }
}

proof fn lemma_name_index(sections: Seq<ImageSection>, name: Seq<char>, i: int)
    ensures
        section_called(sections, name, i) == name_index(section_views(sections), name, i),
    decreases sections.len() - i,
{
    if 0 <= i < sections.len() {
        assert(section_views(sections)[i] == sections[i]@);
        lemma_name_index(sections, name, i + 1);
    }
}

/// The bytes of the debugging section that other images call `name`.
pub open spec fn debug_bytes(s: Seq<ImageSectionView>, name: Seq<char>) -> Seq<u8> {
    match name_index(s, macho_name(name), 0) {
        Some(i) => match s[i].data {
            Some(d) => d,
            None => Seq::empty(),
        },
        None => Seq::empty(),
    }
}

/// Borrows the bytes of the debugging section that other images call `name`.
pub fn debug_section<'a>(sections: &'a Vec<ImageSection>, name: &str) -> (r: &'a [u8])
    requires
        name@.len() > 0,
    ensures
        r@ == debug_bytes(section_views(sections@), name@),
{
    let rest = skip_first(name);
    let wanted = joined("__", rest.as_str());
    proof {
        lemma_name_index(sections@, wanted@, 0);
    }
    if let Some(i) = section_named(sections, wanted.as_str()) {
        assert(section_views(sections@)[i as int] == sections@[i as int]@);
        if let Some(d) = &sections[i].data {
            return d.as_slice();
        }
    }
    let none: &'a [u8] = &[];
    assert(none@ =~= Seq::empty());
    none
}

/// Offsets of the units in the DWARF information of an image, in order, or
/// nothing where their headers cannot be read.
pub uninterp spec fn dwarf_units(sections: Seq<ImageSectionView>) -> Option<Seq<usize>>;

/// Offset and tag of the first entry of the unit at `unit`, if it has one, or
/// nothing where it cannot be read.
pub uninterp spec fn dwarf_root(sections: Seq<ImageSectionView>, unit: usize) -> Option<
    Option<(usize, u16)>,
>;

/// Offsets and tags of the entries of the unit at `unit`, parents before children,
/// or nothing where they cannot be read.
pub uninterp spec fn dwarf_entries(sections: Seq<ImageSectionView>, unit: usize) -> Option<
    Seq<(usize, u16)>,
>;

/// Starts and ends of the code of the unit at `unit`, or nothing where they cannot
/// be read.
pub uninterp spec fn dwarf_ranges(sections: Seq<ImageSectionView>, unit: usize) -> Option<
    Seq<(u64, u64)>,
>;

/// Where the table of the lists of ranges of the unit at `unit` begins, and how wide
/// its items are, or nothing where the unit cannot be read.
pub uninterp spec fn dwarf_lists(sections: Seq<ImageSectionView>, unit: usize) -> Option<
    (usize, u8),
>;

/// Attributes of the entry at `entry` of the unit at `unit`, with their values, or
/// nothing where there is no such entry.
pub uninterp spec fn dwarf_attrs(
    sections: Seq<ImageSectionView>,
    unit: usize,
    entry: usize,
) -> Option<Seq<(u16, DieValue)>>;

/// The text of attribute `at`, if the entry has it, or nothing where it is no text
/// that can be read.
pub uninterp spec fn dwarf_text(
    sections: Seq<ImageSectionView>,
    unit: usize,
    entry: usize,
    at: u16,
) -> Option<Option<Seq<char>>>;

/// Address number `index` of the unit's table of addresses, or nothing where it
/// cannot be read.
pub uninterp spec fn dwarf_address(
    sections: Seq<ImageSectionView>,
    unit: usize,
    index: usize,
) -> Option<u64>;

/// The address, or the number of one, that the expression in attribute `at` begins
/// with, if it is an expression that does; nothing where it cannot be read.
pub uninterp spec fn dwarf_place(
    sections: Seq<ImageSectionView>,
    unit: usize,
    entry: usize,
    at: u16,
) -> Option<Option<DieValue>>;

/// `Dwarf::units`: the offsets of the unit headers, which the sections alone
/// decide, or the error of the first header that cannot be read.
#[verifier::external_body]
fn read_units(s: &Vec<ImageSection>) -> (r: Result<Vec<usize>, Error>)
    ensures
        match r {
            Ok(v) => dwarf_units(section_views(s@)) == Some(v@),
            Err(_) => dwarf_units(section_views(s@)) is None,
        },
{
    let dwarf = Dwarf::load(|id| Ok::<_, Error>(EndianSlice::new(debug_section(s, id.name()), LittleEndian)))?;
    dwarf.units().map(|h| h.map(|h| h.offset().0)).collect()
}

/// `EntriesCursor::next_dfs`, once: the first entry of a unit, which the sections
/// and the unit's offset decide.
#[verifier::external_body]
fn read_root(s: &Vec<ImageSection>, unit: usize) -> (r: Result<Option<(usize, u16)>, Error>)
    ensures
        match r {
            Ok(v) => dwarf_root(section_views(s@), unit) == Some(v),
            Err(_) => dwarf_root(section_views(s@), unit) is None,
        },
{
    let dwarf = Dwarf::load(|id| Ok::<_, Error>(EndianSlice::new(debug_section(s, id.name()), LittleEndian)))?;
    let unit = dwarf.unit(dwarf.unit_header(DebugInfoOffset(unit))?)?;
    let mut all = unit.entries();
    all.next_dfs().map(|e| e.map(|e| (e.offset().0, e.tag().0)))
}

/// `EntriesCursor::next_dfs`, until it ends: the entries of a unit, which the
/// sections and the unit's offset decide.
#[verifier::external_body]
fn read_entries(s: &Vec<ImageSection>, unit: usize) -> (r: Result<Vec<(usize, u16)>, Error>)
    ensures
        match r {
            Ok(v) => dwarf_entries(section_views(s@), unit) == Some(v@),
            Err(_) => dwarf_entries(section_views(s@), unit) is None,
        },
{
    let dwarf = Dwarf::load(|id| Ok::<_, Error>(EndianSlice::new(debug_section(s, id.name()), LittleEndian)))?;
    let unit = dwarf.unit(dwarf.unit_header(DebugInfoOffset(unit))?)?;
    let mut all = unit.entries();
    std::iter::from_fn(|| all.next_dfs().map(|e| e.map(|e| (e.offset().0, e.tag().0))).transpose()).collect()
}

/// `Unit::rnglists_base` and `Format::word_size`: where the unit's table of lists of
/// ranges begins, and how wide its items are, which the sections and the unit's offset
/// decide. An item has four bytes or eight.
#[verifier::external_body]
fn read_lists(s: &Vec<ImageSection>, unit: usize) -> (r: Result<(usize, u8), Error>)
    ensures
        match r {
            Ok(v) => dwarf_lists(section_views(s@), unit) == Some(v) && (v.1 == 4 || v.1 == 8),
            Err(_) => dwarf_lists(section_views(s@), unit) is None,
        },
{
    let dwarf = Dwarf::load(|id| Ok::<_, Error>(EndianSlice::new(debug_section(s, id.name()), LittleEndian)))?;
    let unit = dwarf.unit(dwarf.unit_header(DebugInfoOffset(unit))?)?;
    Ok((unit.rnglists_base.0, unit.encoding().format.word_size()))
}

/// `Dwarf::unit_ranges`: the ranges of a unit, which the sections and the unit's
/// offset decide. It adds a size to an address, and what an item of the table of lists
/// holds to where the table begins, without a test; such sums have to fit.
#[verifier::external_body]
fn read_ranges(s: &Vec<ImageSection>, unit: usize) -> (r: Result<Vec<(u64, u64)>, Error>)
    requires
        ranges_fit(section_views(s@), unit),
    ensures
        match r {
            Ok(v) => dwarf_ranges(section_views(s@), unit) == Some(v@),
            Err(_) => dwarf_ranges(section_views(s@), unit) is None,
        },
{
    let dwarf = Dwarf::load(|id| Ok::<_, Error>(EndianSlice::new(debug_section(s, id.name()), LittleEndian)))?;
    let unit = dwarf.unit(dwarf.unit_header(DebugInfoOffset(unit))?)?;
    dwarf.unit_ranges(&unit)?.map(|r| r.map(|r| (r.begin, r.end))).collect()
}

/// `Unit::entry` and `DebuggingInformationEntry::attrs`: the attributes of an entry
/// with their values, which the sections and the offsets decide. Unsigned numbers
/// of all sizes are alike.
#[verifier::external_body]
fn read_attrs(s: &Vec<ImageSection>, unit: usize, entry: usize) -> (r: Result<
    Vec<(u16, DieValue)>,
    Error,
>)
    ensures
        match r {
            Ok(v) => dwarf_attrs(section_views(s@), unit, entry) == Some(v@),
            Err(_) => dwarf_attrs(section_views(s@), unit, entry) is None,
        },
{
    let dwarf = Dwarf::load(|id| Ok::<_, Error>(EndianSlice::new(debug_section(s, id.name()), LittleEndian)))?;
    let unit = dwarf.unit(dwarf.unit_header(DebugInfoOffset(unit))?)?;
    Ok(unit.entry(UnitOffset(entry))?.attrs().iter().map(|a| (a.name().0, match a.value() {
        Addr(a) => Address(a),
        DebugAddrIndex(i) => AddressIndex(i.0),
        Flag(f) => DieValue::Flag(f),
        UnitRef(o) => Entry(o.0),
        RangeListsRef(_) => RangeList,
        DebugRngListsIndex(i) => RangeListIndex(i.0),
        Sdata(_) => Other,
        v => v.udata_value().map_or(Other, Number),
    })).collect())
}

/// `Dwarf::attr_string` of the first attribute `at` of an entry, decoded with
/// `EndianSlice::to_string_lossy`: the sections and the offsets decide what it is.
#[verifier::external_body]
fn read_text(s: &Vec<ImageSection>, unit: usize, entry: usize, at: u16) -> (r: Result<
    Option<String>,
    Error,
>)
    ensures
        match r {
            Ok(v) => dwarf_text(section_views(s@), unit, entry, at) == Some(text_of(v)),
            Err(_) => dwarf_text(section_views(s@), unit, entry, at) is None,
        },
{
    let dwarf = Dwarf::load(|id| Ok::<_, Error>(EndianSlice::new(debug_section(s, id.name()), LittleEndian)))?;
    let unit = dwarf.unit(dwarf.unit_header(DebugInfoOffset(unit))?)?;
    let entry = unit.entry(UnitOffset(entry))?;
    let text = entry.attr_value(DwAt(at)).map(|v| dwarf.attr_string(&unit, v)).transpose()?;
    Ok(text.map(|t| t.to_string_lossy().into_owned()))
}

/// `Dwarf::address`: an address of the unit's table, which the sections, the unit's
/// offset and the number decide.
#[verifier::external_body]
fn read_address(s: &Vec<ImageSection>, unit: usize, index: usize) -> (r: Result<u64, Error>)
    ensures
        match r {
            Ok(v) => dwarf_address(section_views(s@), unit, index) == Some(v),
            Err(_) => dwarf_address(section_views(s@), unit, index) is None,
        },
{
    let dwarf = Dwarf::load(|id| Ok::<_, Error>(EndianSlice::new(debug_section(s, id.name()), LittleEndian)))?;
    let unit = dwarf.unit(dwarf.unit_header(DebugInfoOffset(unit))?)?;
    dwarf.address(&unit, gimli::DebugAddrIndex(index))
}

/// `Expression::operations` of the first attribute `at` of an entry, where that is
/// an expression: the first operation, where that is an address or the number of
/// one. The sections and the offsets decide what it is.
#[verifier::external_body]
fn read_place(s: &Vec<ImageSection>, unit: usize, entry: usize, at: u16) -> (r: Result<
    Option<DieValue>,
    Error,
>)
    ensures
        match r {
            Ok(v) => dwarf_place(section_views(s@), unit, entry, at) == Some(v),
            Err(_) => dwarf_place(section_views(s@), unit, entry, at) is None,
        },
{
    let dwarf = Dwarf::load(|id| Ok::<_, Error>(EndianSlice::new(debug_section(s, id.name()), LittleEndian)))?;
    let unit = dwarf.unit(dwarf.unit_header(DebugInfoOffset(unit))?)?;
    let code = match unit.entry(UnitOffset(entry))?.attr_value(DwAt(at)) {
        Some(Exprloc(code)) => code,
        _ => return Ok(None),
    };
    Ok(match code.operations(unit.encoding()).next()? {
        Some(Operation::Address { address }) => Some(DieValue::Address(address)),
        Some(Operation::AddressIndex { index }) => Some(DieValue::AddressIndex(index.0)),
        _ => None,
    })
}

/// The list of ranges that the attributes from `i` on give first.
pub open spec fn list_from(attrs: Seq<(u16, DieValue)>, i: int) -> Option<DieValue>
    decreases attrs.len() - i,
{
    if i < 0 || i >= attrs.len() {
        None
    } else if attrs[i].0 == DW_AT_RANGES && (attrs[i].1 == DieValue::RangeList
        || attrs[i].1 is RangeListIndex) {
        Some(attrs[i].1)
    } else {
        list_from(attrs, i + 1)
    }
}

/// The address that the first `n` attributes give last for the start.
pub open spec fn start_of(attrs: Seq<(u16, DieValue)>, n: int) -> Option<DieValue>
    decreases n,
{
    if n <= 0 {
        None
    } else if attrs[n - 1].0 == DW_AT_LOW_PC {
        Some(attrs[n - 1].1)
    } else {
        start_of(attrs, n - 1)
    }
}

/// The size that the first `n` attributes give last.
pub open spec fn size_of(attrs: Seq<(u16, DieValue)>, n: int) -> Option<u64>
    decreases n,
{
    if n <= 0 {
        None
    } else if attrs[n - 1].0 == DW_AT_HIGH_PC && attrs[n - 1].1 is Number {
        Some(attrs[n - 1].1->Number_0)
    } else {
        size_of(attrs, n - 1)
    }
}

/// True when the place of list number `index` of the unit is a number of the machine,
/// where the table has that list.
pub open spec fn list_fits(s: Seq<ImageSectionView>, unit: usize, index: usize) -> bool {
    match dwarf_lists(s, unit) {
        Some((base, width)) => {
            let bytes = debug_bytes(s, ".debug_rnglists"@);
            let at = base + index * width;
            at + width <= bytes.len() ==> base + le_value(bytes, at, width as nat) <= usize::MAX
        },
        None => true,
    }
}

/// True when the start and the size that the attributes give add up to an address.
pub open spec fn span_fits(
    s: Seq<ImageSectionView>,
    unit: usize,
    attrs: Seq<(u16, DieValue)>,
) -> bool {
    match (
        address_of(s, unit, start_of(attrs, attrs.len() as int)),
        size_of(attrs, attrs.len() as int),
    ) {
        (Some(Some(start)), Some(size)) => start + size <= u64::MAX,
        _ => true,
    }
}

/// True when what the attributes say of ranges does not go beyond the numbers of the
/// machine: a list goes before a start and a size.
pub open spec fn attrs_fit(
    s: Seq<ImageSectionView>,
    unit: usize,
    attrs: Seq<(u16, DieValue)>,
) -> bool {
    match list_from(attrs, 0) {
        Some(DieValue::RangeListIndex(index)) => list_fits(s, unit, index),
        Some(_) => true,
        None => span_fits(s, unit, attrs),
    }
}

/// True when the first entry of a unit can be read, and what it says of ranges does not
/// go beyond the numbers of the machine.
pub open spec fn ranges_fit(s: Seq<ImageSectionView>, unit: usize) -> bool {
    match dwarf_root(s, unit) {
        Some(Some((root, _))) => match dwarf_attrs(s, unit, root) {
            Some(attrs) => attrs_fit(s, unit, attrs),
            None => false,
        },
        _ => false,
    }
}

fn find_list(attrs: &Vec<(u16, DieValue)>) -> (r: Option<DieValue>)
    ensures
        r == list_from(attrs@, 0),
{
    let mut i: usize = 0;
    while i < attrs.len()
        invariant
            i <= attrs@.len(),
            list_from(attrs@, 0) == list_from(attrs@, i as int),
        decreases attrs@.len() - i,
    {
        if attrs[i].0 == DW_AT_RANGES {
            match attrs[i].1 {
                DieValue::RangeList | DieValue::RangeListIndex(_) => return Some(attrs[i].1),
                _ => {},
            }
        }
        i = i + 1;
    }
    None
}

fn test_span(s: &Vec<ImageSection>, unit: usize, attrs: &Vec<(u16, DieValue)>) -> (b: bool)
    ensures
        b == span_fits(section_views(s@), unit, attrs@),
{
    let mut start: Option<DieValue> = None;
    let mut size: Option<u64> = None;
    let mut i: usize = 0;
    while i < attrs.len()
        invariant
            i <= attrs@.len(),
            start == start_of(attrs@, i as int),
            size == size_of(attrs@, i as int),
        decreases attrs@.len() - i,
    {
        let (at, value): (u16, DieValue) = attrs[i];
        if at == DW_AT_LOW_PC {
            start = Some(value);
        } else if at == DW_AT_HIGH_PC {
            if let DieValue::Number(n) = value {
                size = Some(n);
            }
        }
        i = i + 1;
    }
    match (attr_address(s, unit, start), size) {
        (Ok(Some(a)), Some(n)) => n <= u64::MAX - a,
        _ => true,
    }
}

fn test_list(s: &Vec<ImageSection>, unit: usize, index: usize) -> (b: bool)
    ensures
        b == list_fits(section_views(s@), unit, index),
{
    let (base, width): (usize, u8) = match read_lists(s, unit) {
        Ok(v) => v,
        Err(_) => return true,
    };
    proof {
        reveal_strlit(".debug_rnglists");
    }
    let bytes = debug_section(s, ".debug_rnglists");
    let n: usize = bytes.len();
    let w: usize = width as usize;
    proof {
        assert(index * width <= usize::MAX <==> index <= usize::MAX / w) by (nonlinear_arith)
            requires
                w == width,
                w == 4 || w == 8,
        ;
        assert(index * width >= 0) by (nonlinear_arith);
    }
    if index > usize::MAX / w || base > n || index * w > n - base || w > n - base - index * w {
        return true;
    }
    let at: usize = base + index * w;
    let x: u64 = if w == 4 {
        read_u32_le(bytes, at) as u64
    } else {
        read_u64_le(bytes, at)
    };
    x <= (usize::MAX - base) as u64
}

/// The value, from attribute `i` on, of the first attribute `at`.
pub open spec fn attr_from(attrs: Seq<(u16, DieValue)>, at: u16, i: int) -> Option<DieValue>
    decreases attrs.len() - i,
{
    if i < 0 || i >= attrs.len() {
        None
    } else if attrs[i].0 == at {
        Some(attrs[i].1)
    } else {
        attr_from(attrs, at, i + 1)
    }
}

fn attr_value(attrs: &Vec<(u16, DieValue)>, at: u16) -> (r: Option<DieValue>)
    ensures
        r == attr_from(attrs@, at, 0),
{
    let mut i: usize = 0;
    while i < attrs.len()
        invariant
            i <= attrs@.len(),
            attr_from(attrs@, at, 0) == attr_from(attrs@, at, i as int),
        decreases attrs@.len() - i,
    {
        if attrs[i].0 == at {
            return Some(attrs[i].1);
        }
        i = i + 1;
    }
    None
}

/// The entry that the names of an entry are completed from: its declaration, or
/// else its origin.
pub open spec fn reference(attrs: Seq<(u16, DieValue)>) -> Option<usize> {
    match attr_from(attrs, DW_AT_SPECIFICATION, 0) {
        Some(DieValue::Entry(o)) => Some(o),
        _ => match attr_from(attrs, DW_AT_ABSTRACT_ORIGIN, 0) {
            Some(DieValue::Entry(o)) => Some(o),
            _ => None,
        },
    }
}

fn referenced(attrs: &Vec<(u16, DieValue)>) -> (r: Option<usize>)
    ensures
        r == reference(attrs@),
{
    match attr_value(attrs, DW_AT_SPECIFICATION) {
        Some(DieValue::Entry(o)) => Some(o),
        _ => match attr_value(attrs, DW_AT_ABSTRACT_ORIGIN) {
            Some(DieValue::Entry(o)) => Some(o),
            _ => None,
        },
    }
}

/// True when other units see an entry with these attributes.
pub open spec fn is_external(attrs: Seq<(u16, DieValue)>) -> bool {
    attr_from(attrs, DW_AT_EXTERNAL, 0) == Some(DieValue::Flag(true))
}

fn marked_external(attrs: &Vec<(u16, DieValue)>) -> (b: bool)
    ensures
        b == is_external(attrs@),
{
    match attr_value(attrs, DW_AT_EXTERNAL) {
        Some(DieValue::Flag(f)) => f,
        _ => false,
    }
}

/// The address that the value of an attribute gives, if it gives one, or nothing
/// where it cannot be read.
pub open spec fn address_of(s: Seq<ImageSectionView>, unit: usize, v: Option<DieValue>) -> Option<
    Option<u64>,
> {
    match v {
        Some(DieValue::Address(a)) => Some(Some(a)),
        Some(DieValue::AddressIndex(i)) => match dwarf_address(s, unit, i) {
            Some(a) => Some(Some(a)),
            None => None,
        },
        _ => Some(None),
    }
}

fn attr_address(s: &Vec<ImageSection>, unit: usize, v: Option<DieValue>) -> (r: Result<
    Option<u64>,
    MachoError,
>)
    ensures
        match r {
            Ok(a) => address_of(section_views(s@), unit, v) == Some(a),
            Err(e) => e == MachoError::Dwarf && address_of(section_views(s@), unit, v) is None,
        },
{
    match v {
        Some(DieValue::Address(a)) => Ok(Some(a)),
        Some(DieValue::AddressIndex(i)) => match read_address(s, unit, i) {
            Ok(a) => Ok(Some(a)),
            Err(_) => Err(MachoError::Dwarf),
        },
        _ => Ok(None),
    }
}

fn attr_string(s: &Vec<ImageSection>, unit: usize, entry: usize, at: u16) -> (r: Result<
    Option<String>,
    MachoError,
>)
    ensures
        match r {
            Ok(t) => dwarf_text(section_views(s@), unit, entry, at) == Some(text_of(t)),
            Err(e) => e == MachoError::Dwarf && dwarf_text(section_views(s@), unit, entry, at)
                is None,
        },
{
    match read_text(s, unit, entry, at) {
        Ok(t) => Ok(t),
        Err(_) => Err(MachoError::Dwarf),
    }
}

/// The mangled name of an entry, if it has one, or nothing where it cannot be read.
pub open spec fn linkage_text(s: Seq<ImageSectionView>, unit: usize, entry: usize) -> Option<
    Option<Seq<char>>,
> {
    match (
        dwarf_text(s, unit, entry, DW_AT_LINKAGE_NAME),
        dwarf_text(s, unit, entry, DW_AT_MIPS_LINKAGE_NAME),
    ) {
        (Some(a), Some(b)) => Some(
            if a is Some {
                a
            } else {
                b
            },
        ),
        _ => None,
    }
}

fn linkage_name(s: &Vec<ImageSection>, unit: usize, entry: usize) -> (r: Result<
    Option<String>,
    MachoError,
>)
    ensures
        match r {
            Ok(t) => linkage_text(section_views(s@), unit, entry) == Some(text_of(t)),
            Err(e) => e == MachoError::Dwarf && linkage_text(section_views(s@), unit, entry)
                is None,
        },
{
    let a = match attr_string(s, unit, entry, DW_AT_LINKAGE_NAME) {
        Ok(t) => t,
        Err(e) => return Err(e),
    };
    let b = match attr_string(s, unit, entry, DW_AT_MIPS_LINKAGE_NAME) {
        Ok(t) => t,
        Err(e) => return Err(e),
    };
    if a.is_some() {
        Ok(a)
    } else {
        Ok(b)
    }
}

/// What an entry is called.
struct Names {
    name: Option<String>,
    linkage: Option<String>,
    external: bool,
}

/// What an entry is called, as text.
pub ghost struct NamesModel {
    pub name: Option<Seq<char>>,
    pub linkage: Option<Seq<char>>,
    pub external: bool,
}

impl View for Names {
    type V = NamesModel;

    closed spec fn view(&self) -> NamesModel {
        NamesModel {
            name: text_of(self.name),
            linkage: text_of(self.linkage),
            external: self.external,
        }
    }
}

/// Names, completed from an entry: what is not known yet, the entry gives. Nothing
/// where a name cannot be read.
pub open spec fn with_names(
    n: NamesModel,
    s: Seq<ImageSectionView>,
    unit: usize,
    entry: usize,
    attrs: Seq<(u16, DieValue)>,
) -> Option<NamesModel> {
    let name = if n.name is Some {
        Some(n.name)
    } else {
        dwarf_text(s, unit, entry, DW_AT_NAME)
    };
    let linkage = if n.linkage is Some {
        Some(n.linkage)
    } else {
        linkage_text(s, unit, entry)
    };
    match (name, linkage) {
        (Some(name), Some(linkage)) => Some(
            NamesModel { name, linkage, external: n.external || is_external(attrs) },
        ),
        _ => None,
    }
}

fn add_names(
    n: &mut Names,
    s: &Vec<ImageSection>,
    unit: usize,
    entry: usize,
    attrs: &Vec<(u16, DieValue)>,
) -> (ok: bool)
    ensures
        ok == (with_names(old(n)@, section_views(s@), unit, entry, attrs@) is Some),
        ok ==> with_names(old(n)@, section_views(s@), unit, entry, attrs@) == Some(final(n)@),
{
    if n.name.is_none() {
        n.name = match attr_string(s, unit, entry, DW_AT_NAME) {
            Ok(t) => t,
            Err(_) => return false,
        };
    }
    if n.linkage.is_none() {
        n.linkage = match linkage_name(s, unit, entry) {
            Ok(t) => t,
            Err(_) => return false,
        };
    }
    if !n.external {
        n.external = marked_external(attrs);
    }
    true
}

/// Names, completed from the entries that are reached through references, at most
/// `hops` of them. A reference that leads nowhere ends the search; a name that
/// cannot be read makes it fail.
pub open spec fn followed(
    n: NamesModel,
    s: Seq<ImageSectionView>,
    unit: usize,
    at: Option<usize>,
    hops: nat,
) -> Option<NamesModel>
    decreases hops,
{
    if hops == 0 || at is None || dwarf_attrs(s, unit, at->0) is None {
        Some(n)
    } else {
        let attrs = dwarf_attrs(s, unit, at->0)->0;
        match with_names(n, s, unit, at->0, attrs) {
            None => None,
            Some(m) => followed(m, s, unit, reference(attrs), (hops - 1) as nat),
        }
    }
}

/// What the entry at `entry` is called, or nothing where a name cannot be read.
pub open spec fn names_of(
    s: Seq<ImageSectionView>,
    unit: usize,
    entry: usize,
    attrs: Seq<(u16, DieValue)>,
) -> Option<NamesModel> {
    let none = NamesModel { name: None, linkage: None, external: false };
    match with_names(none, s, unit, entry, attrs) {
        None => None,
        Some(n) => followed(n, s, unit, reference(attrs), MAX_HOPS as nat),
    }
}

fn resolve_names(
    s: &Vec<ImageSection>,
    unit: usize,
    entry: usize,
    attrs: &Vec<(u16, DieValue)>,
) -> (r: Result<Names, MachoError>)
    ensures
        match r {
            Ok(n) => names_of(section_views(s@), unit, entry, attrs@) == Some(n@),
            Err(e) => e == MachoError::Dwarf && names_of(section_views(s@), unit, entry, attrs@)
                is None,
        },
{
    let ghost sv = section_views(s@);
    let mut n = Names { name: None, linkage: None, external: false };
    if !add_names(&mut n, s, unit, entry, attrs) {
        return Err(MachoError::Dwarf);
    }
    let ghost goal = names_of(sv, unit, entry, attrs@);
    let mut at = referenced(attrs);
    let mut hops: usize = MAX_HOPS;
    while hops > 0 && at.is_some()
        invariant
            sv == section_views(s@),
            goal == names_of(sv, unit, entry, attrs@),
            goal == followed(n@, sv, unit, at, hops as nat),
        decreases hops,
    {
        let o: usize = match at {
            Some(o) => o,
            None => 0,
        };
        match read_attrs(s, unit, o) {
            Ok(more) => {
                if !add_names(&mut n, s, unit, o, &more) {
                    return Err(MachoError::Dwarf);
                }
                at = referenced(&more);
            },
            Err(_) => {
                at = None;
            },
        }
        hops = hops - 1;
    }
    Ok(n)
}

/// The size of a function at `addr` with the high address `v`.
pub open spec fn size_from(v: Option<DieValue>, addr: u64) -> u64 {
    match v {
        Some(DieValue::Address(end)) => if end >= addr {
            (end - addr) as u64
        } else {
            0
        },
        Some(DieValue::Number(n)) => n,
        _ => 0,
    }
}

/// `name`, or what an entry is called that has none.
pub open spec fn named_or_anonymous(name: Option<Seq<char>>) -> Seq<char> {
    match name {
        Some(t) => t,
        None => ANONYMOUS@,
    }
}

fn or_anonymous(name: Option<String>) -> (r: String)
    ensures
        r@ == named_or_anonymous(text_of(name)),
{
    match name {
        Some(t) => t,
        None => owned(ANONYMOUS),
    }
}

/// The function that an entry describes, if it describes one that is in the image,
/// or nothing where the entry cannot be read.
pub open spec fn function_of(s: Seq<ImageSectionView>, unit: usize, entry: usize) -> Option<
    Option<FunctionView>,
> {
    match dwarf_attrs(s, unit, entry) {
        None => None,
        Some(attrs) => if attr_from(attrs, DW_AT_INLINE, 0) is Some && attr_from(
            attrs,
            DW_AT_LOW_PC,
            0,
        ) is None {
            Some(None)
        } else {
            match address_of(s, unit, attr_from(attrs, DW_AT_LOW_PC, 0)) {
                None => None,
                Some(None) => Some(None),
                Some(Some(addr)) => match names_of(s, unit, entry, attrs) {
                    None => None,
                    Some(n) => Some(
                        Some(
                            FunctionView {
                                name: named_or_anonymous(n.name),
                                linkage_name: n.linkage,
                                addr,
                                size: size_from(attr_from(attrs, DW_AT_HIGH_PC, 0), addr),
                                external: n.external,
                            },
                        ),
                    ),
                },
            }
        },
    }
}

fn extract_function(s: &Vec<ImageSection>, unit: usize, entry: usize) -> (r: Result<
    Option<MachoFunction>,
    MachoError,
>)
    ensures
        match r {
            Ok(Some(f)) => function_of(section_views(s@), unit, entry) == Some(Some(f@)),
            Ok(None) => function_of(section_views(s@), unit, entry) == Some(None::<FunctionView>),
            Err(e) => e == MachoError::Dwarf && function_of(section_views(s@), unit, entry) is None,
        },
{
    let attrs = match read_attrs(s, unit, entry) {
        Ok(a) => a,
        Err(_) => return Err(MachoError::Dwarf),
    };
    let low = attr_value(&attrs, DW_AT_LOW_PC);
    if attr_value(&attrs, DW_AT_INLINE).is_some() && low.is_none() {
        return Ok(None);
    }
    let addr: u64 = match attr_address(s, unit, low) {
        Ok(Some(a)) => a,
        Ok(None) => return Ok(None),
        Err(e) => return Err(e),
    };
    let size: u64 = match attr_value(&attrs, DW_AT_HIGH_PC) {
        Some(DieValue::Address(end)) => if end >= addr {
            end - addr
        } else {
            0
        },
        Some(DieValue::Number(n)) => n,
        _ => 0,
    };
    let n = match resolve_names(s, unit, entry, &attrs) {
        Ok(n) => n,
        Err(e) => return Err(e),
    };
    Ok(
        Some(
            MachoFunction {
                name: or_anonymous(n.name),
                linkage_name: n.linkage,
                addr,
                size,
                external: n.external,
            },
        ),
    )
}

/// The address of the variable that an entry describes, if it has a fixed one, or
/// nothing where that cannot be read.
pub open spec fn variable_place(s: Seq<ImageSectionView>, unit: usize, entry: usize) -> Option<
    Option<u64>,
> {
    match dwarf_place(s, unit, entry, DW_AT_LOCATION) {
        None => None,
        Some(v) => address_of(s, unit, v),
    }
}

fn variable_address(s: &Vec<ImageSection>, unit: usize, entry: usize) -> (r: Result<
    Option<u64>,
    MachoError,
>)
    ensures
        match r {
            Ok(a) => variable_place(section_views(s@), unit, entry) == Some(a),
            Err(e) => e == MachoError::Dwarf && variable_place(section_views(s@), unit, entry)
                is None,
        },
{
    match read_place(s, unit, entry, DW_AT_LOCATION) {
        Ok(v) => attr_address(s, unit, v),
        Err(_) => Err(MachoError::Dwarf),
    }
}

/// The variable that an entry describes, if it has a fixed address, or nothing
/// where the entry cannot be read.
pub open spec fn variable_of(s: Seq<ImageSectionView>, unit: usize, entry: usize) -> Option<
    Option<VariableView>,
> {
    match variable_place(s, unit, entry) {
        None => None,
        Some(None) => Some(None),
        Some(Some(addr)) => match (
            dwarf_text(s, unit, entry, DW_AT_NAME),
            linkage_text(s, unit, entry),
            dwarf_attrs(s, unit, entry),
        ) {
            (Some(name), Some(linkage), Some(attrs)) => Some(
                Some(
                    VariableView {
                        name: named_or_anonymous(name),
                        linkage_name: linkage,
                        addr,
                        external: is_external(attrs),
                    },
                ),
            ),
            _ => None,
        },
    }
}

fn extract_variable(s: &Vec<ImageSection>, unit: usize, entry: usize) -> (r: Result<
    Option<MachoVariable>,
    MachoError,
>)
    ensures
        match r {
            Ok(Some(v)) => variable_of(section_views(s@), unit, entry) == Some(Some(v@)),
            Ok(None) => variable_of(section_views(s@), unit, entry) == Some(None::<VariableView>),
            Err(e) => e == MachoError::Dwarf && variable_of(section_views(s@), unit, entry) is None,
        },
{
    let addr: u64 = match variable_address(s, unit, entry) {
        Ok(Some(a)) => a,
        Ok(None) => return Ok(None),
        Err(e) => return Err(e),
    };
    let name = match attr_string(s, unit, entry, DW_AT_NAME) {
        Ok(t) => t,
        Err(e) => return Err(e),
    };
    let linkage_name = match linkage_name(s, unit, entry) {
        Ok(t) => t,
        Err(e) => return Err(e),
    };
    let attrs = match read_attrs(s, unit, entry) {
        Ok(a) => a,
        Err(_) => return Err(MachoError::Dwarf),
    };
    Ok(
        Some(
            MachoVariable {
                name: or_anonymous(name),
                linkage_name,
                addr,
                external: marked_external(&attrs),
            },
        ),
    )
}

/// The functions and variables of a unit.
#[verifier::ext_equal]
pub ghost struct BodyModel {
    pub functions: Seq<FunctionView>,
    pub variables: Seq<VariableView>,
}

/// With the functions and variables that the entries from `i` on describe, or
/// nothing where one cannot be read.
pub open spec fn with_entries(
    b: BodyModel,
    s: Seq<ImageSectionView>,
    unit: usize,
    entries: Seq<(usize, u16)>,
    i: int,
) -> Option<BodyModel>
    decreases entries.len() - i,
{
    if i < 0 || i >= entries.len() {
        Some(b)
    } else if entries[i].1 == DW_TAG_SUBPROGRAM {
        match function_of(s, unit, entries[i].0) {
            None => None,
            Some(None) => with_entries(b, s, unit, entries, i + 1),
            Some(Some(f)) => with_entries(
                BodyModel { functions: b.functions.push(f), ..b },
                s,
                unit,
                entries,
                i + 1,
            ),
        }
    } else if entries[i].1 == DW_TAG_VARIABLE {
        match variable_of(s, unit, entries[i].0) {
            None => None,
            Some(None) => with_entries(b, s, unit, entries, i + 1),
            Some(Some(v)) => with_entries(
                BodyModel { variables: b.variables.push(v), ..b },
                s,
                unit,
                entries,
                i + 1,
            ),
        }
    } else {
        with_entries(b, s, unit, entries, i + 1)
    }
}

/// The functions and variables of a unit.
struct Body {
    functions: Vec<MachoFunction>,
    variables: Vec<MachoVariable>,
}

impl View for Body {
    type V = BodyModel;

    closed spec fn view(&self) -> BodyModel {
        BodyModel {
            functions: self.functions@.map_values(|f: MachoFunction| f@),
            variables: self.variables@.map_values(|v: MachoVariable| v@),
        }
    }
}

fn read_body(s: &Vec<ImageSection>, unit: usize, entries: &Vec<(usize, u16)>) -> (r: Result<
    Body,
    MachoError,
>)
    ensures
        ({
            let none = BodyModel { functions: Seq::empty(), variables: Seq::empty() };
            match r {
                Ok(b) => with_entries(none, section_views(s@), unit, entries@, 0) == Some(b@),
                Err(e) => e == MachoError::Dwarf && with_entries(
                    none,
                    section_views(s@),
                    unit,
                    entries@,
                    0,
                ) is None,
            }
        }),
{
    let ghost sv = section_views(s@);
    let mut b = Body { functions: Vec::new(), variables: Vec::new() };
    let ghost none = BodyModel { functions: Seq::empty(), variables: Seq::empty() };
    assert(b@ =~= none);
    let mut i: usize = 0;
    while i < entries.len()
        invariant
            sv == section_views(s@),
            none == (BodyModel { functions: Seq::empty(), variables: Seq::empty() }),
            i <= entries@.len(),
            with_entries(none, sv, unit, entries@, 0) == with_entries(
                b@,
                sv,
                unit,
                entries@,
                i as int,
            ),
        decreases entries@.len() - i,
    {
        let (at, tag): (usize, u16) = entries[i];
        let ghost before = b@;
        if tag == DW_TAG_SUBPROGRAM {
            match extract_function(s, unit, at) {
                Ok(Some(f)) => {
                    let ghost view = f@;
                    b.functions.push(f);
                    assert(b@ =~= (BodyModel { functions: before.functions.push(view), ..before }));
                },
                Ok(None) => {},
                Err(e) => return Err(e),
            }
        } else if tag == DW_TAG_VARIABLE {
            match extract_variable(s, unit, at) {
                Ok(Some(v)) => {
                    let ghost view = v@;
                    b.variables.push(v);
                    assert(b@ =~= (BodyModel { variables: before.variables.push(view), ..before }));
                },
                Ok(None) => {},
                Err(e) => return Err(e),
            }
        }
        i = i + 1;
    }
    Ok(b)
}

/// The ranges among the first `n` that are not empty.
pub open spec fn filled_ranges(ranges: Seq<(u64, u64)>, n: int) -> Seq<Range<u64>>
    decreases n,
{
    if n <= 0 {
        Seq::empty()
    } else {
        let before = filled_ranges(ranges, n - 1);
        if ranges[n - 1].0 < ranges[n - 1].1 {
            before.push((Range { start: ranges[n - 1].0, end: ranges[n - 1].1 }))
        } else {
            before
        }
    }
}

fn keep_filled(ranges: &Vec<(u64, u64)>) -> (r: Vec<Range<u64>>)
    ensures
        r@ == filled_ranges(ranges@, ranges@.len() as int),
{
    let mut r: Vec<Range<u64>> = Vec::new();
    let mut i: usize = 0;
    while i < ranges.len()
        invariant
            i <= ranges@.len(),
            r@ == filled_ranges(ranges@, i as int),
        decreases ranges@.len() - i,
    {
        if ranges[i].0 < ranges[i].1 {
            r.push(Range { start: ranges[i].0, end: ranges[i].1 });
        }
        i = i + 1;
    }
    r
}

/// The unit at `unit`, under the number `id`, if it is a compilation unit with
/// something in it, or nothing where it cannot be read or its ranges do not fit.
pub open spec fn unit_of(s: Seq<ImageSectionView>, unit: usize, id: nat) -> Option<Option<UnitView>> {
    match dwarf_root(s, unit) {
        None => None,
        Some(None) => Some(None),
        Some(Some((root, tag))) => if tag != DW_TAG_COMPILE_UNIT {
            Some(None)
        } else {
            match (
                dwarf_text(s, unit, root, DW_AT_NAME),
                dwarf_text(s, unit, root, DW_AT_COMP_DIR),
                dwarf_ranges(s, unit),
                dwarf_entries(s, unit),
            ) {
                (Some(name), Some(comp_dir), Some(pairs), Some(entries)) if ranges_fit(
                    s,
                    unit,
                ) => {
                    let none = BodyModel { functions: Seq::empty(), variables: Seq::empty() };
                    let ranges = filled_ranges(pairs, pairs.len() as int);
                    match with_entries(none, s, unit, entries, 0) {
                        None => None,
                        Some(b) => if b.functions.len() == 0 && b.variables.len() == 0
                            && ranges.len() == 0 {
                            Some(None)
                        } else {
                            Some(
                                Some(
                                    UnitView {
                                        id,
                                        name: named_or_anonymous(name),
                                        comp_dir,
                                        oso_path: None,
                                        ranges,
                                        functions: b.functions,
                                        variables: b.variables,
                                    },
                                ),
                            )
                        },
                    }
                },
                _ => None,
            }
        },
    }
}

fn build_unit(s: &Vec<ImageSection>, unit: usize, id: usize) -> (r: Result<
    Option<MachoCompilationUnit>,
    MachoError,
>)
    ensures
        match r {
            Ok(Some(u)) => unit_of(section_views(s@), unit, id as nat) == Some(Some(u@)),
            Ok(None) => unit_of(section_views(s@), unit, id as nat) == Some(None::<UnitView>),
            Err(e) => e == MachoError::Dwarf && unit_of(section_views(s@), unit, id as nat) is None,
        },
{
    let (root, tag): (usize, u16) = match read_root(s, unit) {
        Ok(Some(e)) => e,
        Ok(None) => return Ok(None),
        Err(_) => return Err(MachoError::Dwarf),
    };
    if tag != DW_TAG_COMPILE_UNIT {
        return Ok(None);
    }
    let name = match attr_string(s, unit, root, DW_AT_NAME) {
        Ok(t) => t,
        Err(e) => return Err(e),
    };
    let comp_dir = match attr_string(s, unit, root, DW_AT_COMP_DIR) {
        Ok(t) => t,
        Err(e) => return Err(e),
    };
    let attrs = match read_attrs(s, unit, root) {
        Ok(a) => a,
        Err(_) => return Err(MachoError::Dwarf),
    };
    let fits = match find_list(&attrs) {
        Some(DieValue::RangeListIndex(index)) => test_list(s, unit, index),
        Some(_) => true,
        None => test_span(s, unit, &attrs),
    };
    if !fits {
        return Err(MachoError::Dwarf);
    }
    let pairs = match read_ranges(s, unit) {
        Ok(p) => p,
        Err(_) => return Err(MachoError::Dwarf),
    };
    let ranges = keep_filled(&pairs);
    let entries = match read_entries(s, unit) {
        Ok(e) => e,
        Err(_) => return Err(MachoError::Dwarf),
    };
    let b = match read_body(s, unit, &entries) {
        Ok(b) => b,
        Err(e) => return Err(e),
    };
    assert(b@.functions.len() == b.functions@.len());
    assert(b@.variables.len() == b.variables@.len());
    if b.functions.len() == 0 && b.variables.len() == 0 && ranges.len() == 0 {
        return Ok(None);
    }
    Ok(
        Some(
            MachoCompilationUnit {
                id,
                name: or_anonymous(name),
                comp_dir,
                oso_path: None,
                ranges,
                functions: b.functions,
                variables: b.variables,
            },
        ),
    )
}

/// With the units at the offsets from `i` on, numbered in order, or nothing where
/// one cannot be read.
pub open spec fn with_units(
    out: Seq<UnitView>,
    s: Seq<ImageSectionView>,
    units: Seq<usize>,
    i: int,
) -> Option<Seq<UnitView>>
    decreases units.len() - i,
{
    if i < 0 || i >= units.len() {
        Some(out)
    } else {
        match unit_of(s, units[i], out.len()) {
            None => None,
            Some(None) => with_units(out, s, units, i + 1),
            Some(Some(u)) => with_units(out.push(u), s, units, i + 1),
        }
    }
}

/// The compilation units of an image, from its DWARF information, or nothing where
/// that cannot be read.
pub open spec fn dwarf_index(s: Seq<ImageSectionView>) -> Option<Seq<UnitView>> {
    match dwarf_units(s) {
        None => None,
        Some(units) => with_units(Seq::empty(), s, units, 0),
    }
}

/// Builds the compilation units of an image from its DWARF information.
pub fn build_cu_index(s: &Vec<ImageSection>) -> (r: Result<MachoCuIndex, MachoError>)
    ensures
        match r {
            Ok(index) => dwarf_index(section_views(s@)) == Some(
                index.units@.map_values(|u: MachoCompilationUnit| u@),
            ) && index.source == DebugInfoSource::Dwarf,
            Err(e) => e == MachoError::Dwarf && dwarf_index(section_views(s@)) is None,
        },
{
    let ghost sv = section_views(s@);
    let offsets = match read_units(s) {
        Ok(v) => v,
        Err(_) => return Err(MachoError::Dwarf),
    };
    let mut units: Vec<MachoCompilationUnit> = Vec::new();
    let ghost f = |u: MachoCompilationUnit| u@;
    assert(units@.map_values(f) =~= Seq::empty());
    let mut i: usize = 0;
    while i < offsets.len()
        invariant
            sv == section_views(s@),
            f == (|u: MachoCompilationUnit| u@),
            i <= offsets@.len(),
            with_units(Seq::empty(), sv, offsets@, 0) == with_units(
                units@.map_values(f),
                sv,
                offsets@,
                i as int,
            ),
            dwarf_units(sv) == Some(offsets@),
        decreases offsets@.len() - i,
    {
        let ghost before = units@;
        let id: usize = units.len();
        assert(units@.map_values(f).len() == id);
        match build_unit(s, offsets[i], id) {
            Ok(Some(u)) => {
                let ghost view = u@;
                units.push(u);
                assert(units@.map_values(f) =~= before.map_values(f).push(view));
            },
            Ok(None) => {},
            Err(e) => return Err(e),
        }
        i = i + 1;
    }
    Ok(MachoCuIndex { units, source: DebugInfoSource::Dwarf })
}

} // verus!
