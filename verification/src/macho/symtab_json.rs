//! The editable grouping of functions into objects: output file name to the
//! names of the symbols that go into it.
//!
//! By default each function has a file of its own. What a symbol stands for is
//! read from the image again when it is split, see [`build_lookup`].
use std::collections::HashSet;
use vstd::hash_map::StringHashMap;
use vstd::prelude::*;

use super::cu::{MachoCompilationUnit, MachoCuIndex, MachoFunction};
use super::emit::{object_name, spec_object_name};
use super::strtab::{
    commands_end, find_commands_end, tail, tail_of, HEADER_SIZE, LC_SEGMENT, LC_SYMTAB,
    NLIST32_SIZE, SECTION32_SIZE, SEGMENT_CMD32_SIZE,
};
use crate::bytes::{le_value, read_u16, read_u32, read_u32_le, value_at};
use crate::cstr::{cstr, field_text, read_string, string_at};
use crate::naming::{
    ended, is_plain, keys_fit, lemma_ended, lemma_one_more, lemma_stem_is_plain, one_each,
    own_name, own_names,
};
use crate::ordered::{lemma_sorted_map, stable_sorted};
use crate::table::NamedTable;
use crate::text::{
    digits, has_suffix, hex, hex2, joined, owned, spec_symbol_file, str_eq, symbol_file, text_le,
    text_list, zero_padded,
};

verus! {

broadcast use {
    vstd::std_specs::hash::group_hash_axioms,
    vstd::hash_map::group_hash_map_axioms,
};

/// Bit of `n_type` for symbols visible to other images.
pub const N_EXT: u8 = 0x01;

/// Bit of `n_type` for symbols visible to the objects of this image alone.
pub const N_PEXT: u8 = 0x10;

/// Bits of `n_type` with the kind of the symbol.
pub const N_TYPE_MASK: u8 = 0x0e;

/// Bits of `n_type` that mark debugging entries.
pub const N_STAB_MASK: u8 = 0xe0;

/// Kind of symbols defined in a section.
pub const N_SECT_VAL: u8 = 0x0e;

/// The grouping of symbols into output files: the names of the symbols under the name
/// of each file.
pub type SymtabJson = NamedTable<Vec<String>>;

/// A grouping as a map from file names to the names of symbols.
pub open spec fn groups(json: SymtabJson) -> Map<Seq<char>, Seq<Seq<char>>> {
    json@.map_values(|v: Vec<String>| text_list(v@))
}

/// What the image's symbol table says of a symbol.
#[derive(Debug)]
pub struct SymtabInfo {
    pub addr: u64,
    pub size: u64,
    pub n_type: String,
    pub n_sect: u8,
    pub n_desc: Vec<String>,
    pub external: bool,
    pub private_external: bool,
}

/// What the symbol table says of a symbol, as text.
#[verifier::ext_equal]
pub ghost struct SymtabInfoView {
    pub addr: u64,
    pub size: u64,
    pub n_type: Seq<char>,
    pub n_sect: u8,
    pub n_desc: Seq<Seq<char>>,
    pub external: bool,
    pub private_external: bool,
}

impl View for SymtabInfo {
    type V = SymtabInfoView;

    open spec fn view(&self) -> SymtabInfoView {
        SymtabInfoView {
            addr: self.addr,
            size: self.size,
            n_type: self.n_type@,
            n_sect: self.n_sect,
            n_desc: text_list(self.n_desc@),
            external: self.external,
            private_external: self.private_external,
        }
    }
}

/// Symbol name to what the symbol table says of it.
pub type SymtabLookup = StringHashMap<SymtabInfo>;

/// A symbol of the code section.
#[derive(Debug)]
pub struct TextSymbol {
    pub name: String,
    pub addr: u64,
    /// Distance to the next symbol; 0 for the last.
    pub size: u64,
    pub n_type: u8,
    pub n_sect: u8,
    pub n_desc: u16,
}

/// A symbol of the code section, with its name as text.
pub ghost struct TextSymbolView {
    pub name: Seq<char>,
    pub addr: u64,
    pub size: u64,
    pub n_type: u8,
    pub n_sect: u8,
    pub n_desc: u16,
}

impl View for TextSymbol {
    type V = TextSymbolView;

    open spec fn view(&self) -> TextSymbolView {
        TextSymbolView {
            name: self.name@,
            addr: self.addr,
            size: self.size,
            n_type: self.n_type,
            n_sect: self.n_sect,
            n_desc: self.n_desc,
        }
    }
}

/// The symbols of a list, with their names as text.
pub open spec fn symbol_views(v: Seq<TextSymbol>) -> Seq<TextSymbolView> {
    v.map_values(|s: TextSymbol| s@)
}

/// Where the symbol and string tables are, and which sections hold code.
#[verifier::ext_equal]
pub ghost struct TableModel {
    pub symtab_off: u32,
    pub nsyms: u32,
    pub stroff: u32,
    pub text_sections: Set<u8>,
    pub next_section: u8,
}

/// The word at `at`.
pub open spec fn word(data: Seq<u8>, at: int, little: bool) -> u32 {
    value_at(data, at, 4, little) as u32
}

/// With the sections, from `i` on, of the segment command at `pos`. Sections are
/// numbered through all segments.
pub open spec fn with_sections(t: TableModel, data: Seq<u8>, pos: int, little: bool, i: int) -> TableModel
    decreases word(data, pos + 48, little) - i,
{
    let base = pos + SEGMENT_CMD32_SIZE + i * SECTION32_SIZE;
    if i < 0 || i >= word(data, pos + 48, little) || base + SECTION32_SIZE > commands_end(
        data,
        little,
    ) {
        t
    } else {
        let name = field_text(data.subrange(base, base + 16));
        let segment = field_text(data.subrange(base + 16, base + 32));
        with_sections(
            TableModel {
                text_sections: if segment == "__TEXT"@ && name == "__text"@ {
                    t.text_sections.insert(t.next_section)
                } else {
                    t.text_sections
                },
                next_section: if t.next_section == 255 {
                    255
                } else {
                    (t.next_section + 1) as u8
                },
                ..t
            },
            data,
            pos,
            little,
            i + 1,
        )
    }
}

/// What the load command at `pos` adds; none where it is cut off.
pub open spec fn with_command(t: TableModel, data: Seq<u8>, pos: int, little: bool) -> Option<
    TableModel,
> {
    let cmd = word(data, pos, little);
    let size = word(data, pos + 4, little);
    if cmd == LC_SYMTAB && size >= 24 {
        if pos + 20 > data.len() {
            None
        } else {
            Some(
                TableModel {
                    symtab_off: word(data, pos + 8, little),
                    nsyms: word(data, pos + 12, little),
                    stroff: word(data, pos + 16, little),
                    ..t
                },
            )
        }
    } else if cmd == LC_SEGMENT && size >= SEGMENT_CMD32_SIZE {
        if pos + 52 > data.len() {
            None
        } else {
            Some(with_sections(t, data, pos, little, 0))
        }
    } else {
        Some(t)
    }
}

/// What the load commands from number `count`, at `pos`, on add; none where one
/// of them is cut off.
pub open spec fn with_commands(t: TableModel, data: Seq<u8>, pos: int, count: int, little: bool) -> Option<
    TableModel,
>
    decreases commands_end(data, little) - pos,
{
    let size = word(data, pos + 4, little);
    if pos < 0 || pos + 8 > commands_end(data, little) || count >= word(data, 16, little) || size
        == 0 {
        Some(t)
    } else {
        match with_command(t, data, pos, little) {
            None => None,
            Some(next) => if pos + size > commands_end(data, little) {
                Some(next)
            } else {
                with_commands(next, data, pos + size, count + 1, little)
            },
        }
    }
}

/// No tables known yet.
pub open spec fn no_tables() -> TableModel {
    TableModel {
        symtab_off: 0,
        nsyms: 0,
        stroff: 0,
        text_sections: Set::empty(),
        next_section: 1,
    }
}

/// The symbol table of a file, where it has one inside the file.
pub open spec fn table_of(data: Seq<u8>, little: bool) -> Option<TableModel> {
    if data.len() < HEADER_SIZE {
        None
    } else {
        match with_commands(no_tables(), data, HEADER_SIZE as int, 0, little) {
            None => None,
            Some(t) => if t.nsyms == 0 || t.symtab_off + NLIST32_SIZE * t.nsyms > data.len() {
                None
            } else {
                Some(t)
            },
        }
    }
}

struct Tables {
    symtab_off: u32,
    nsyms: u32,
    stroff: u32,
    text_sections: HashSet<u8>,
    next_section: u8,
}

impl View for Tables {
    type V = TableModel;

    closed spec fn view(&self) -> TableModel {
        TableModel {
            symtab_off: self.symtab_off,
            nsyms: self.nsyms,
            stroff: self.stroff,
            text_sections: self.text_sections@,
            next_section: self.next_section,
        }
    }
}

fn add_sections(t: &mut Tables, data: &[u8], pos: u64, end: u64, little: bool)
    requires
        end == commands_end(data@, little),
        end <= data@.len(),
        pos + 52 <= data@.len(),
        pos + 8 <= end,
    ensures
        final(t)@ == with_sections(old(t)@, data@, pos as int, little, 0),
{
    let n: usize = data.len();
    if end - pos < SEGMENT_CMD32_SIZE {
        return ;
    }
    let count = read_u32(data, pos as usize + 48, little);
    let mut i: u32 = 0;
    let mut base: u64 = pos + SEGMENT_CMD32_SIZE;
    while i < count && end - base >= SECTION32_SIZE
        invariant
            n == data@.len(),
            end == commands_end(data@, little),
            end <= n,
            count == word(data@, pos + 48, little),
            i <= count,
            base == pos + SEGMENT_CMD32_SIZE + i * SECTION32_SIZE,
            base <= end,
            with_sections(old(t)@, data@, pos as int, little, 0) == with_sections(
                t@,
                data@,
                pos as int,
                little,
                i as int,
            ),
        decreases count - i,
    {
        let at: usize = base as usize;
        let name = cstr(vstd::slice::slice_subrange(data, at, at + 16));
        let segment = cstr(vstd::slice::slice_subrange(data, at + 16, at + 32));
        if str_eq(segment.as_str(), "__TEXT") && str_eq(name.as_str(), "__text") {
            t.text_sections.insert(t.next_section);
        }
        if t.next_section < 255 {
            t.next_section = t.next_section + 1;
        }
        assert((i + 1) * SECTION32_SIZE == i * SECTION32_SIZE + SECTION32_SIZE) by (nonlinear_arith);
        i = i + 1;
        base = base + SECTION32_SIZE;
    }
}

fn parse_symtab_raw(data: &[u8], little: bool) -> (r: Option<Tables>)
    ensures
        match r {
            Some(t) => table_of(data@, little) == Some(t@),
            None => table_of(data@, little) is None,
        },
{
    let n: usize = data.len();
    if (n as u64) < HEADER_SIZE {
        return None;
    }
    let end = find_commands_end(data, little);
    let ncmds = read_u32(data, 16, little);
    let mut t = Tables {
        symtab_off: 0,
        nsyms: 0,
        stroff: 0,
        text_sections: HashSet::new(),
        next_section: 1,
    };
    assert(t@ =~= no_tables());
    let mut pos: u64 = HEADER_SIZE;
    let mut count: u32 = 0;
    let mut more: bool = true;
    while more
        invariant
            n == data@.len(),
            n >= HEADER_SIZE,
            end == commands_end(data@, little),
            end <= n,
            ncmds == word(data@, 16, little),
            pos <= end,
            count <= ncmds,
            with_commands(no_tables(), data@, HEADER_SIZE as int, 0, little) == (if more {
                with_commands(t@, data@, pos as int, count as int, little)
            } else {
                Some(t@)
            }),
        decreases (if more { end - pos + 1 } else { 0 }),
    {
        if end - pos < 8 || count >= ncmds {
            more = false;
        } else {
            let at: usize = pos as usize;
            let cmd = read_u32(data, at, little);
            let size = read_u32(data, at + 4, little);
            if size == 0 {
                more = false;
            } else {
                if cmd == LC_SYMTAB && size >= 24 {
                    if n - at < 20 {
                        return None;
                    }
                    t.symtab_off = read_u32(data, at + 8, little);
                    t.nsyms = read_u32(data, at + 12, little);
                    t.stroff = read_u32(data, at + 16, little);
                } else if cmd == LC_SEGMENT && size as u64 >= SEGMENT_CMD32_SIZE {
                    if n - at < 52 {
                        return None;
                    }
                    add_sections(&mut t, data, pos, end, little);
                }
                if size as u64 > end - pos {
                    more = false;
                } else {
                    pos = pos + size as u64;
                    count = count + 1;
                }
            }
        }
    }
    if t.nsyms == 0 || t.symtab_off as u64 + NLIST32_SIZE * t.nsyms as u64 > n as u64 {
        return None;
    }
    Some(t)
}

/// True when a file begins like a little-endian Mach-O file. So does, by
/// convention, one that is too short to tell.
pub open spec fn spec_little_endian(data: Seq<u8>) -> bool {
    data.len() < 4 || le_value(data, 0, 4) == 0xfeed_face || le_value(data, 0, 4) == 0xfeed_facf
}

/// Tells the byte order of a Mach-O file from its first word.
pub fn detect_little_endian(data: &[u8]) -> (b: bool)
    ensures
        b == spec_little_endian(data@),
{
    if data.len() < 4 {
        return true;
    }
    let magic = read_u32_le(data, 0);
    magic == 0xfeed_face || magic == 0xfeed_facf
}

/// The symbol of the table entry at `at`, if it is a named symbol of the code
/// section.
pub open spec fn entry_symbol(data: Seq<u8>, t: TableModel, at: int, little: bool) -> Option<
    TextSymbolView,
> {
    let n_type = data[at + 4];
    let n_sect = data[at + 5];
    let name = string_at(tail_of(data, t.stroff as int), word(data, at, little) as int);
    if n_type & N_STAB_MASK != 0 || n_type & N_TYPE_MASK != N_SECT_VAL
        || !t.text_sections.contains(n_sect) || name.len() == 0 {
        None
    } else {
        Some(
            TextSymbolView {
                name,
                addr: word(data, at + 8, little) as u64,
                size: 0,
                n_type,
                n_sect,
                n_desc: value_at(data, at + 6, 2, little) as u16,
            },
        )
    }
}

/// The named symbols of the code section among the first `n` of the table.
pub open spec fn table_symbols(data: Seq<u8>, t: TableModel, n: int, little: bool) -> Seq<
    TextSymbolView,
>
    decreases n,
{
    if n <= 0 {
        Seq::empty()
    } else {
        let before = table_symbols(data, t, n - 1, little);
        match entry_symbol(data, t, t.symtab_off + NLIST32_SIZE * (n - 1), little) {
            Some(s) => before.push(s),
            None => before,
        }
    }
}

/// Orders symbols by address, then by name.
pub open spec fn by_address_and_name() -> spec_fn(TextSymbol, TextSymbol) -> bool {
    |a: TextSymbol, b: TextSymbol|
        a.addr < b.addr || a.addr == b.addr && text_le(a.name@, b.name@)
}

/// The same order on symbols with their names as text.
pub open spec fn view_order() -> spec_fn(TextSymbolView, TextSymbolView) -> bool {
    |a: TextSymbolView, b: TextSymbolView|
        a.addr < b.addr || a.addr == b.addr && text_le(a.name, b.name)
}

/// What symbols are sorted by.
fn symbol_key(s: &TextSymbol) -> (k: (u64, String))
    ensures
        k.0 == s.addr,
        k.1@ == s.name@,
{
    (s.addr, s.name.clone())
}

/// `slice::sort_by_key` with [`symbol_key`] as its key: a stable sort. Tuples compare
/// by their first difference, and strings compare by their code points.
#[verifier::external_body]
fn sort_symbols(v: &mut Vec<TextSymbol>)
    ensures
        final(v)@ == stable_sorted(old(v)@, by_address_and_name()),
{
    v.sort_by_key(|s| symbol_key(s));
}

/// The first symbol of each address among the first `n`.
pub open spec fn first_of_address(s: Seq<TextSymbolView>, n: int) -> Seq<TextSymbolView>
    decreases n,
{
    if n <= 0 {
        Seq::empty()
    } else {
        let before = first_of_address(s, n - 1);
        if before.len() > 0 && before.last().addr == s[n - 1].addr {
            before
        } else {
            before.push(s[n - 1])
        }
    }
}

/// Each symbol with its distance to the next as its size.
pub open spec fn with_sizes(s: Seq<TextSymbolView>) -> Seq<TextSymbolView> {
    Seq::new(
        s.len(),
        |i: int|
            TextSymbolView {
                size: if i + 1 < s.len() {
                    (s[i + 1].addr - s[i].addr) as u64
                } else {
                    0
                },
                ..s[i]
            },
    )
}

/// The named symbols of the code section, one per address, in ascending order.
pub open spec fn text_symbols(data: Seq<u8>) -> Seq<TextSymbolView> {
    let little = spec_little_endian(data);
    match table_of(data, little) {
        None => Seq::empty(),
        Some(t) => {
            let sorted = stable_sorted(
                table_symbols(data, t, t.nsyms as int, little),
                view_order(),
            );
            with_sizes(first_of_address(sorted, sorted.len() as int))
        },
    }
}

fn read_entry(data: &[u8], t: &Tables, at: usize, little: bool) -> (r: Option<TextSymbol>)
    requires
        at + 12 <= data@.len(),
    ensures
        match r {
            Some(s) => entry_symbol(data@, t@, at as int, little) == Some(s@),
            None => entry_symbol(data@, t@, at as int, little) is None,
        },
{
    let n: usize = data.len();
    let n_type = data[at + 4];
    let n_sect = data[at + 5];
    if n_type & N_STAB_MASK != 0 {
        return None;
    }
    if n_type & N_TYPE_MASK != N_SECT_VAL {
        return None;
    }
    if !t.text_sections.contains(&n_sect) {
        return None;
    }
    let strx = read_u32(data, at, little);
    let n_desc = read_u16(data, at + 6, little);
    let addr = read_u32(data, at + 8, little) as u64;
    let name = read_string(tail(data, t.stroff), strx);
    if name.as_str().is_empty() {
        return None;
    }
    Some(TextSymbol { name, addr, size: 0, n_type, n_sect, n_desc })
}

/// Strictly ascending addresses.
pub open spec fn ascending_addresses(s: Seq<TextSymbolView>) -> bool {
    forall|i: int, j: int|
        0 <= i < j < s.len() ==> (#[trigger] s[i]).addr < (#[trigger] s[j]).addr
}

/// What sorting by address and name yields ascends by address.
proof fn lemma_sorted_addresses(s: Seq<TextSymbolView>)
    ensures
        forall|i: int, j: int|
            0 <= i < j < stable_sorted(s, view_order()).len() ==> (#[trigger] stable_sorted(
                s,
                view_order(),
            )[i]).addr <= (#[trigger] stable_sorted(s, view_order())[j]).addr,
{
    let leq = view_order();
    assert(crate::ordered::total_preorder(leq)) by {
        assert forall|a: TextSymbolView, b: TextSymbolView| #[trigger] leq(a, b) || leq(b, a) by {
            crate::text::lemma_text_le_total(a.name, b.name);
        }
        assert forall|a: TextSymbolView, b: TextSymbolView, c: TextSymbolView| #[trigger]
            leq(a, b) && #[trigger] leq(b, c) implies leq(a, c) by {
            if a.addr == b.addr && b.addr == c.addr {
                crate::text::lemma_text_le_transitive(a.name, b.name, c.name);
            }
        }
    }
    crate::ordered::lemma_stable_sorted(s, leq);
    let t = stable_sorted(s, leq);
    assert forall|i: int, j: int| 0 <= i < j < t.len() implies (#[trigger] t[i]).addr <= (
    #[trigger] t[j]).addr by {
        assert(leq(t[i], t[j]));
    }
}

/// Keeping the first of each address makes ascending addresses strictly so.
proof fn lemma_first_ascending(s: Seq<TextSymbolView>, n: int)
    requires
        0 <= n <= s.len(),
        forall|i: int, j: int|
            0 <= i < j < s.len() ==> (#[trigger] s[i]).addr <= (#[trigger] s[j]).addr,
    ensures
        ascending_addresses(first_of_address(s, n)),
        n > 0 ==> first_of_address(s, n).len() > 0 && first_of_address(s, n).last().addr
            == s[n - 1].addr,
        n == 0 ==> first_of_address(s, n).len() == 0,
    decreases n,
{
    if n > 0 {
        lemma_first_ascending(s, n - 1);
        let before = first_of_address(s, n - 1);
        let after = first_of_address(s, n);
        if n > 1 {
            assert(s[n - 2].addr <= s[n - 1].addr);
            assert forall|i: int, j: int| 0 <= i < j < after.len() implies (
            #[trigger] after[i]).addr < (#[trigger] after[j]).addr by {
                if j < before.len() {
                    assert(before[i].addr < before[j].addr);
                } else if i < before.len() - 1 {
                    assert(before[i].addr < before[before.len() - 1].addr);
                }
            }
        }
    }
}

/// The symbols of the code section ascend strictly by address, and each but the
/// last ends where the next begins.
pub proof fn law_text_symbols_partition(data: Seq<u8>)
    ensures
        ascending_addresses(text_symbols(data)),
        forall|i: int|
            0 <= i < text_symbols(data).len() - 1 ==> (#[trigger] text_symbols(data)[i]).addr
                + text_symbols(data)[i].size == text_symbols(data)[i + 1].addr,
        text_symbols(data).len() > 0 ==> text_symbols(data).last().size == 0,
{
    let little = spec_little_endian(data);
    match table_of(data, little) {
        None => {},
        Some(t) => {
            let raw = table_symbols(data, t, t.nsyms as int, little);
            lemma_sorted_addresses(raw);
            let sorted = stable_sorted(raw, view_order());
            lemma_first_ascending(sorted, sorted.len() as int);
            let first = first_of_address(sorted, sorted.len() as int);
            let all = text_symbols(data);
            assert forall|i: int| 0 <= i < all.len() - 1 implies (#[trigger] all[i]).addr
                + all[i].size == all[i + 1].addr by {
                assert(first[i].addr < first[i + 1].addr);
                assert(all[i + 1].addr == first[i + 1].addr);
            }
            assert forall|i: int, j: int| 0 <= i < j < all.len() implies (#[trigger] all[i]).addr
                < (#[trigger] all[j]).addr by {
                assert(first[i].addr < first[j].addr);
            }
        },
    }
}

/// Reads the named symbols of the code section, one per address, in ascending
/// order.
pub fn parse_text_symbols(data: &[u8]) -> (r: Vec<TextSymbol>)
    ensures
        symbol_views(r@) == text_symbols(data@),
{
    let n: usize = data.len();
    let little = detect_little_endian(data);
    let t = match parse_symtab_raw(data, little) {
        Some(t) => t,
        None => {
            let r: Vec<TextSymbol> = Vec::new();
            assert(symbol_views(r@) =~= Seq::empty());
            return r;
        },
    };
    let mut raw: Vec<TextSymbol> = Vec::new();
    let mut at: u64 = t.symtab_off as u64;
    let mut i: u32 = 0;
    assert(symbol_views(raw@) =~= Seq::empty());
    while i < t.nsyms
        invariant
            n == data@.len(),
            t.symtab_off + NLIST32_SIZE * t.nsyms <= n,
            i <= t.nsyms,
            at == t.symtab_off + NLIST32_SIZE * i,
            symbol_views(raw@) == table_symbols(data@, t@, i as int, little),
        decreases t.nsyms - i,
    {
        let ghost before = raw@;
        if let Some(s) = read_entry(data, &t, at as usize, little) {
            let ghost v = s@;
            raw.push(s);
            assert(symbol_views(raw@) =~= symbol_views(before).push(v));
        }
        i = i + 1;
        at = at + NLIST32_SIZE;
    }
    let ghost unsorted = raw@;
    sort_symbols(&mut raw);
    proof {
        lemma_sorted_map(
            unsorted,
            |s: TextSymbol| s@,
            by_address_and_name(),
            view_order(),
        );
        lemma_sorted_addresses(symbol_views(unsorted));
    }
    let ghost sorted = symbol_views(raw@);
    let mut first: Vec<TextSymbol> = Vec::new();
    let mut k: usize = 0;
    assert(symbol_views(first@) =~= Seq::empty());
    while k < raw.len()
        invariant
            sorted == symbol_views(raw@),
            k <= raw@.len(),
            symbol_views(first@) == first_of_address(sorted, k as int),
        decreases raw@.len() - k,
    {
        let s = &raw[k];
        assert(sorted[k as int] == s@);
        let ghost before = first@;
        let kept: usize = first.len();
        assert(kept > 0 ==> symbol_views(before).last() == before.last()@);
        if kept == 0 || first[kept - 1].addr != s.addr {
            let copy = TextSymbol {
                name: s.name.clone(),
                addr: s.addr,
                size: s.size,
                n_type: s.n_type,
                n_sect: s.n_sect,
                n_desc: s.n_desc,
            };
            first.push(copy);
            assert(symbol_views(first@) =~= symbol_views(before).push(s@));
        }
        k = k + 1;
    }
    proof {
        lemma_first_ascending(sorted, sorted.len() as int);
    }
    let ghost unsized_symbols = symbol_views(first@);
    let mut j: usize = 0;
    while j < first.len()
        invariant
            ascending_addresses(unsized_symbols),
            first@.len() == unsized_symbols.len(),
            j <= first@.len(),
            forall|m: int|
                0 <= m < j ==> (#[trigger] first@[m])@ == with_sizes(unsized_symbols)[m],
            forall|m: int| j <= m < first@.len() ==> (#[trigger] first@[m])@ == unsized_symbols[m],
        decreases first@.len() - j,
    {
        let size: u64 = if j + 1 < first.len() {
            proof {
                assert(first@[j as int]@ == unsized_symbols[j as int]);
                assert(first@[j + 1]@ == unsized_symbols[j + 1]);
                assert(unsized_symbols[j as int].addr < unsized_symbols[j + 1].addr);
            }
            first[j + 1].addr - first[j].addr
        } else {
            0
        };
        assert(first@[j as int]@ == unsized_symbols[j as int]);
        first[j].size = size;
        j = j + 1;
    }
    assert(symbol_views(first@) =~= with_sizes(unsized_symbols));
    first
}

/// Stems and addresses of symbols.
pub open spec fn symbol_keys(s: Seq<TextSymbolView>) -> Seq<(Seq<char>, u64)> {
    s.map_values(|x: TextSymbolView| (spec_symbol_file(x.name), x.addr))
}

/// The default files of symbols. A symbol whose file another one has gets its address
/// into the name of its own.
pub open spec fn default_files(s: Seq<TextSymbolView>) -> Seq<Seq<char>> {
    ended(own_names(symbol_keys(s)), ".o"@)
}

/// Each symbol in a list of its own.
pub open spec fn single_lists(s: Seq<TextSymbolView>) -> Seq<Seq<Seq<char>>> {
    s.map_values(|x: TextSymbolView| seq![x.name])
}

proof fn lemma_symbol_keys(s: Seq<TextSymbolView>)
    requires
        ascending_addresses(s),
    ensures
        keys_fit(symbol_keys(s)),
{
    let keys = symbol_keys(s);
    assert forall|i: int| 0 <= i < keys.len() implies is_plain((#[trigger] keys[i]).0) by {
        lemma_stem_is_plain(s[i].name);
    }
    assert forall|i: int, j: int| 0 <= i < j < keys.len() implies (#[trigger] keys[i]).1 != (
    #[trigger] keys[j]).1 by {
        assert(s[i].addr < s[j].addr);
    }
}

/// Groups the code symbols of an image by default: a file for each symbol, and in it
/// that symbol alone.
pub fn generate(data: &[u8]) -> (json: SymtabJson)
    ensures
        json.wf(),
        one_each(
            groups(json),
            default_files(text_symbols(data@)),
            single_lists(text_symbols(data@)),
        ),
        forall|file: Seq<char>| #[trigger]
            groups(json).contains_key(file) ==> groups(json)[file].len() == 1 && has_suffix(
                file,
                ".o"@,
            ),
{
    let symbols = parse_text_symbols(data);
    let ghost views = text_symbols(data@);
    let mut json: SymtabJson = NamedTable::new();
    proof {
        law_text_symbols_partition(data@);
        assert(groups(json) =~= Map::empty());
        assert(views.subrange(0, 0) =~= Seq::empty());
        assert(symbol_keys(views.subrange(0, 0)) =~= Seq::empty());
    }
    let mut i: usize = 0;
    while i < symbols.len()
        invariant
            views == symbol_views(symbols@),
            ascending_addresses(views),
            json.wf(),
            i <= symbols@.len(),
            one_each(
                groups(json),
                default_files(views.subrange(0, i as int)),
                single_lists(views.subrange(0, i as int)),
            ),
        decreases symbols@.len() - i,
    {
        let s = &symbols[i];
        let ghost done = views.subrange(0, i as int);
        let ghost next = views.subrange(0, i + 1);
        let ghost names = own_names(symbol_keys(done));
        let ghost before = json;
        proof {
            assert(views[i as int] == s@);
            assert(next =~= done.push(s@));
            assert(symbol_keys(next).drop_last() =~= symbol_keys(done));
            assert(ascending_addresses(next));
            lemma_symbol_keys(next);
            lemma_ended(names, ".o"@);
        }
        let stem = symbol_file(s.name.as_str());
        let mut file = joined(stem.as_str(), ".o");
        let taken = json.position(file.as_str()).is_some();
        proof {
            assert(groups(json).contains_key(stem@ + ".o"@) <==> json@.contains_key(
                stem@ + ".o"@,
            ));
            assert(taken <==> names.contains(stem@));
        }
        if taken {
            let mut name = stem;
            name.push('@');
            let name = joined(name.as_str(), hex(s.addr).as_str());
            file = joined(name.as_str(), ".o");
        }
        assert(file@ == own_name(names, spec_symbol_file(s.name@), s.addr) + ".o"@);
        let ghost key = file@;
        let mut list: Vec<String> = Vec::new();
        list.push(s.name.clone());
        assert(text_list(list@) =~= seq![s@.name]);
        json.set(file, list);
        proof {
            assert(groups(json) =~= groups(before).insert(key, seq![s@.name]));
            lemma_one_more(
                groups(before),
                symbol_keys(next),
                ".o"@,
                single_lists(done),
                seq![s@.name],
            );
            assert(single_lists(next) =~= single_lists(done).push(seq![s@.name]));
        }
        i = i + 1;
    }
    proof {
        assert(views.subrange(0, views.len() as int) =~= views);
        let files = default_files(views);
        assert forall|file: Seq<char>| #[trigger] groups(json).contains_key(
            file,
        ) implies groups(json)[file].len() == 1 && has_suffix(file, ".o"@) by {
            assert(files.contains(file));
            let k = choose|k: int| 0 <= k < files.len() && files[k] == file;
            assert(groups(json)[files[k]] == single_lists(views)[k]);
            let name = own_names(symbol_keys(views))[k];
            assert(file == name + ".o"@);
            assert(file.subrange(file.len() - ".o"@.len(), file.len() as int) =~= ".o"@);
        }
    }
    json
}

/// Names of the functions, among the first `n`, that take up space.
pub open spec fn code_names(functions: Seq<MachoFunction>, n: int) -> Seq<Seq<char>>
    decreases n,
{
    if n <= 0 {
        Seq::empty()
    } else if functions[n - 1].size > 0 {
        code_names(functions, n - 1).push(functions[n - 1].spec_symbol_name())
    } else {
        code_names(functions, n - 1)
    }
}

/// The grouping of the units from `i` on, added to `m`: a file per unit with code.
pub open spec fn with_unit_files(
    m: Map<Seq<char>, Seq<Seq<char>>>,
    units: Seq<MachoCompilationUnit>,
    i: int,
) -> Map<Seq<char>, Seq<Seq<char>>>
    decreases units.len() - i,
{
    if i < 0 || i >= units.len() {
        m
    } else {
        let u = units[i];
        let names = code_names(u.functions@, u.functions@.len() as int);
        with_unit_files(
            if names.len() == 0 {
                m
            } else {
                m.insert(spec_object_name(u.id as nat, u.name@), names)
            },
            units,
            i + 1,
        )
    }
}

/// Groups functions by their compilation units. The file names are those of the
/// units' objects.
pub fn generate_from_cu_index(cu_index: &MachoCuIndex) -> (json: SymtabJson)
    ensures
        json.wf(),
        groups(json) == with_unit_files(Map::empty(), cu_index.units@, 0),
{
    let mut json: SymtabJson = NamedTable::new();
    assert(groups(json) =~= Map::empty());
    let mut i: usize = 0;
    while i < cu_index.units.len()
        invariant
            json.wf(),
            i <= cu_index.units@.len(),
            with_unit_files(Map::empty(), cu_index.units@, 0) == with_unit_files(
                groups(json),
                cu_index.units@,
                i as int,
            ),
        decreases cu_index.units@.len() - i,
    {
        let u = &cu_index.units[i];
        let mut names: Vec<String> = Vec::new();
        let mut k: usize = 0;
        assert(text_list(names@) =~= Seq::empty());
        while k < u.functions.len()
            invariant
                k <= u.functions@.len(),
                text_list(names@) == code_names(u.functions@, k as int),
            decreases u.functions@.len() - k,
        {
            let f = &u.functions[k];
            if f.size > 0 {
                let ghost before = names@;
                names.push(owned(f.symbol_name()));
                assert(text_list(names@) =~= text_list(before).push(f.spec_symbol_name()));
            }
            k = k + 1;
        }
        assert(text_list(names@).len() == names@.len());
        if names.len() > 0 {
            let file = object_name(u.id, u.name.as_str());
            let ghost key = file@;
            let ghost list = text_list(names@);
            let ghost before = json;
            json.set(file, names);
            assert(groups(json) =~= groups(before).insert(key, list));
        }
        i = i + 1;
    }
    json
}

/// `n_type` in words.
pub open spec fn type_text(n_type: u8) -> Seq<char> {
    let base = n_type & N_TYPE_MASK;
    if n_type & N_STAB_MASK != 0 {
        "N_STAB(0x"@ + zero_padded(digits(n_type as nat, 16), 2) + ")"@
    } else if base == 0x00 || base == 0x02 || base == 0x0a || base == 0x0c || base == 0x0e {
        let name = if base == 0x00 {
            "N_UNDF"@
        } else if base == 0x02 {
            "N_ABS"@
        } else if base == 0x0a {
            "N_INDR"@
        } else if base == 0x0c {
            "N_PBUD"@
        } else {
            "N_SECT"@
        };
        let private = if n_type & N_PEXT != 0 {
            name + "|N_PEXT"@
        } else {
            name
        };
        if n_type & N_EXT != 0 {
            private + "|N_EXT"@
        } else {
            private
        }
    } else {
        "0x"@ + zero_padded(digits(base as nat, 16), 2)
    }
}

/// Puts `n_type` into words.
pub fn decode_n_type(n_type: u8) -> (r: String)
    ensures
        r@ == type_text(n_type),
{
    if n_type & N_STAB_MASK != 0 {
        let code = hex2(n_type);
        let a = joined("N_STAB(0x", code.as_str());
        return joined(a.as_str(), ")");
    }
    let base = n_type & N_TYPE_MASK;
    let name = if base == 0x00 {
        "N_UNDF"
    } else if base == 0x02 {
        "N_ABS"
    } else if base == 0x0a {
        "N_INDR"
    } else if base == 0x0c {
        "N_PBUD"
    } else if base == 0x0e {
        "N_SECT"
    } else {
        let code = hex2(base);
        return joined("0x", code.as_str());
    };
    let private = if n_type & N_PEXT != 0 {
        joined(name, "|N_PEXT")
    } else {
        owned(name)
    };
    if n_type & N_EXT != 0 {
        joined(private.as_str(), "|N_EXT")
    } else {
        private
    }
}

/// `list` with `word` where `flag` says so.
pub open spec fn flagged(list: Seq<Seq<char>>, flag: bool, word: Seq<char>) -> Seq<Seq<char>> {
    if flag {
        list.push(word)
    } else {
        list
    }
}

/// The reference type of `n_desc` in words, unless it is the plain one.
pub open spec fn reference_text(n_desc: u16) -> Seq<Seq<char>> {
    let n = n_desc & 0x000f;
    if n == 0 {
        Seq::empty()
    } else if n == 1 {
        seq!["REF_LAZY"@]
    } else if n == 2 {
        seq!["REF_DEFINED"@]
    } else if n == 3 {
        seq!["REF_PRIVATE_DEFINED"@]
    } else if n == 4 {
        seq!["REF_PRIVATE_UNDEF_NON_LAZY"@]
    } else if n == 5 {
        seq!["REF_PRIVATE_UNDEF_LAZY"@]
    } else {
        seq!["REF(0x"@ + digits(n as nat, 16) + ")"@]
    }
}

/// `n_desc` in words.
pub open spec fn desc_text(n_desc: u16) -> Seq<Seq<char>> {
    let a = reference_text(n_desc);
    let b = flagged(a, n_desc & 0x0010 != 0, "REFERENCED_DYNAMICALLY"@);
    let c = flagged(b, n_desc & 0x0020 != 0, "N_NO_DEAD_STRIP"@);
    let d = flagged(c, n_desc & 0x0040 != 0, "N_DESC_DISCARDED"@);
    let e = flagged(d, n_desc & 0x0080 != 0, "N_WEAK_REF"@);
    let f = flagged(e, n_desc & 0x0100 != 0, "N_WEAK_DEF"@);
    let g = flagged(f, n_desc & 0x0200 != 0, "N_REF_TO_WEAK"@);
    let h = flagged(g, n_desc & 0x0800 != 0, "N_ARM_THUMB_DEF"@);
    let i = flagged(h, n_desc & 0x1000 != 0, "N_SYMBOL_RESOLVER"@);
    flagged(i, n_desc & 0x2000 != 0, "N_ALT_ENTRY"@)
}

fn push_flag(list: &mut Vec<String>, flag: bool, word: &str)
    ensures
        text_list(final(list)@) == flagged(text_list(old(list)@), flag, word@),
{
    if flag {
        let ghost before = list@;
        list.push(owned(word));
        assert(text_list(list@) =~= text_list(before).push(word@));
    }
}

/// Puts `n_desc` into words.
pub fn decode_n_desc(n_desc: u16) -> (r: Vec<String>)
    ensures
        text_list(r@) == desc_text(n_desc),
{
    let mut flags: Vec<String> = Vec::new();
    let n = n_desc & 0x000f;
    assert(text_list(flags@) =~= Seq::empty());
    if n == 0 {
    } else if n == 1 {
        push_flag(&mut flags, true, "REF_LAZY");
    } else if n == 2 {
        push_flag(&mut flags, true, "REF_DEFINED");
    } else if n == 3 {
        push_flag(&mut flags, true, "REF_PRIVATE_DEFINED");
    } else if n == 4 {
        push_flag(&mut flags, true, "REF_PRIVATE_UNDEF_NON_LAZY");
    } else if n == 5 {
        push_flag(&mut flags, true, "REF_PRIVATE_UNDEF_LAZY");
    } else {
        let code = hex(n as u64);
        let a = joined("REF(0x", code.as_str());
        let b = joined(a.as_str(), ")");
        push_flag(&mut flags, true, b.as_str());
    }
    assert(text_list(flags@) =~= reference_text(n_desc));
    push_flag(&mut flags, n_desc & 0x0010 != 0, "REFERENCED_DYNAMICALLY");
    push_flag(&mut flags, n_desc & 0x0020 != 0, "N_NO_DEAD_STRIP");
    push_flag(&mut flags, n_desc & 0x0040 != 0, "N_DESC_DISCARDED");
    push_flag(&mut flags, n_desc & 0x0080 != 0, "N_WEAK_REF");
    push_flag(&mut flags, n_desc & 0x0100 != 0, "N_WEAK_DEF");
    push_flag(&mut flags, n_desc & 0x0200 != 0, "N_REF_TO_WEAK");
    push_flag(&mut flags, n_desc & 0x0800 != 0, "N_ARM_THUMB_DEF");
    push_flag(&mut flags, n_desc & 0x1000 != 0, "N_SYMBOL_RESOLVER");
    push_flag(&mut flags, n_desc & 0x2000 != 0, "N_ALT_ENTRY");
    flags
}

/// What the symbol table says of a code symbol.
pub open spec fn symbol_info(s: TextSymbolView) -> SymtabInfoView {
    SymtabInfoView {
        addr: s.addr,
        size: s.size,
        n_type: type_text(s.n_type),
        n_sect: s.n_sect,
        n_desc: desc_text(s.n_desc),
        external: s.n_type & N_EXT != 0,
        private_external: s.n_type & N_PEXT != 0,
    }
}

/// What the symbol table says of the symbols from `i` on, added to `m`. The last
/// symbol of a name stays.
pub open spec fn with_infos(
    m: Map<Seq<char>, SymtabInfoView>,
    s: Seq<TextSymbolView>,
    i: int,
) -> Map<Seq<char>, SymtabInfoView>
    decreases s.len() - i,
{
    if i < 0 || i >= s.len() {
        m
    } else {
        with_infos(m.insert(s[i].name, symbol_info(s[i])), s, i + 1)
    }
}

/// What a lookup holds, as text.
pub open spec fn lookup_view(m: Map<Seq<char>, SymtabInfo>) -> Map<Seq<char>, SymtabInfoView> {
    m.map_values(|i: SymtabInfo| i@)
}

/// Reads what the image's symbol table says of each code symbol.
pub fn build_lookup(data: &[u8]) -> (lookup: SymtabLookup)
    ensures
        lookup_view(lookup@) == with_infos(Map::empty(), text_symbols(data@), 0),
{
    let symbols = parse_text_symbols(data);
    let ghost views = text_symbols(data@);
    let mut map: StringHashMap<SymtabInfo> = StringHashMap::new();
    assert(lookup_view(map@) =~= Map::empty());
    let mut i: usize = 0;
    while i < symbols.len()
        invariant
            views == symbol_views(symbols@),
            i <= symbols@.len(),
            with_infos(Map::empty(), views, 0) == with_infos(
                lookup_view(map@),
                views,
                i as int,
            ),
        decreases symbols@.len() - i,
    {
        let s = &symbols[i];
        assert(views[i as int] == s@);
        let info = SymtabInfo {
            addr: s.addr,
            size: s.size,
            n_type: decode_n_type(s.n_type),
            n_sect: s.n_sect,
            n_desc: decode_n_desc(s.n_desc),
            external: s.n_type & N_EXT != 0,
            private_external: s.n_type & N_PEXT != 0,
        };
        let ghost before = lookup_view(map@);
        let ghost v = info@;
        map.insert(s.name.clone(), info);
        assert(v =~= symbol_info(s@));
        assert(lookup_view(map@) =~= before.insert(s.name@, v));
        i = i + 1;
    }
    map
}

} // verus!
