//! Symbol stubs of a Mach-O image: addresses that stand for symbols outside it.
use std::collections::HashMap;
use vstd::prelude::*;

use super::strtab::{
    commands_end, find_commands_end, tail, tail_of, HEADER_SIZE, LC_DYSYMTAB, LC_SEGMENT, LC_SYMTAB,
    NLIST32_SIZE, SECTION32_SIZE, SEGMENT_CMD32_SIZE,
};
use crate::bytes::{le_value, read_u32_le};
use crate::cstr::{read_string, string_at};
use crate::text::texts;

verus! {

broadcast use vstd::std_specs::hash::group_hash_axioms;

/// First word of a 32-bit little-endian Mach-O file.
pub const MH_MAGIC: u32 = 0xfeed_face;

/// A section of stubs: where it is, the entry of the indirect symbol table that
/// its first stub goes by, and the size of each stub.
#[derive(Debug, Clone, Copy, PartialEq, Eq, Structural)]
pub struct StubSection {
    pub addr: u64,
    pub size: u64,
    pub first: u32,
    pub stub_size: u32,
}

/// What the load commands say of symbols.
#[derive(Debug, Clone, Copy, PartialEq, Eq, Structural)]
pub struct SymbolTables {
    pub symtab_off: u32,
    pub nsyms: u32,
    pub stroff: u32,
    pub indirect_off: u32,
    pub nindirect: u32,
}

/// What the load commands say of symbols and stubs.
#[verifier::ext_equal]
pub ghost struct StubModel {
    pub tables: SymbolTables,
    pub sections: Seq<StubSection>,
}

/// The word at `at`.
pub open spec fn word(data: Seq<u8>, at: int) -> u32 {
    le_value(data, at, 4) as u32
}

/// With the stub sections, from `i` on, of the segment command at `pos`.
pub open spec fn with_stub_sections(
    sections: Seq<StubSection>,
    data: Seq<u8>,
    pos: int,
    i: int,
) -> Seq<StubSection>
    decreases word(data, pos + 48) - i,
{
    let base = pos + SEGMENT_CMD32_SIZE + i * SECTION32_SIZE;
    if i < 0 || i >= word(data, pos + 48) || base + SECTION32_SIZE > commands_end(data, true) {
        sections
    } else {
        let size = word(data, base + 36) as u64;
        let stub_size = word(data, base + 64);
        with_stub_sections(
            if word(data, base + 56) % 0x100 == 8 && stub_size > 0 && size > 0 {
                sections.push(
                    StubSection {
                        addr: word(data, base + 32) as u64,
                        size,
                        first: word(data, base + 60),
                        stub_size,
                    },
                )
            } else {
                sections
            },
            data,
            pos,
            i + 1,
        )
    }
}

/// What the load command at `pos` adds.
pub open spec fn with_command(s: StubModel, data: Seq<u8>, pos: int) -> StubModel {
    let cmd = word(data, pos);
    let size = word(data, pos + 4);
    if cmd == LC_SYMTAB && size >= 24 {
        StubModel {
            tables: SymbolTables {
                symtab_off: word(data, pos + 8),
                nsyms: word(data, pos + 12),
                stroff: word(data, pos + 16),
                ..s.tables
            },
            ..s
        }
    } else if cmd == LC_DYSYMTAB && size >= 64 {
        StubModel {
            tables: SymbolTables {
                indirect_off: word(data, pos + 56),
                nindirect: word(data, pos + 60),
                ..s.tables
            },
            ..s
        }
    } else if cmd == LC_SEGMENT && size >= SEGMENT_CMD32_SIZE {
        StubModel { sections: with_stub_sections(s.sections, data, pos, 0), ..s }
    } else {
        s
    }
}

/// What the load commands from number `count`, at `pos`, on add.
pub open spec fn with_commands(s: StubModel, data: Seq<u8>, pos: int, count: int) -> StubModel
    decreases commands_end(data, true) - pos,
{
    let size = word(data, pos + 4);
    if pos < 0 || pos + 8 > commands_end(data, true) || count >= word(data, 16) || size < 8 || pos
        + size > commands_end(data, true) {
        s
    } else {
        with_commands(with_command(s, data, pos), data, pos + size, count + 1)
    }
}

fn add_stub_sections(sections: &mut Vec<StubSection>, data: &[u8], pos: u64, end: u64)
    requires
        end == commands_end(data@, true),
        end <= data@.len(),
        pos + 56 <= end,
    ensures
        final(sections)@ == with_stub_sections(old(sections)@, data@, pos as int, 0),
{
    let n: usize = data.len();
    let count = read_u32_le(data, pos as usize + 48);
    let mut i: u32 = 0;
    let mut base: u64 = pos + SEGMENT_CMD32_SIZE;
    while i < count && end - base >= SECTION32_SIZE
        invariant
            n == data@.len(),
            end == commands_end(data@, true),
            end <= n,
            count == word(data@, pos + 48),
            i <= count,
            base == pos + SEGMENT_CMD32_SIZE + i * SECTION32_SIZE,
            base <= end,
            with_stub_sections(old(sections)@, data@, pos as int, 0) == with_stub_sections(
                sections@,
                data@,
                pos as int,
                i as int,
            ),
        decreases count - i,
    {
        let at: usize = base as usize;
        let size = read_u32_le(data, at + 36);
        let stub_size = read_u32_le(data, at + 64);
        if read_u32_le(data, at + 56) % 0x100 == 8 && stub_size > 0 && size > 0 {
            sections.push(
                StubSection {
                    addr: read_u32_le(data, at + 32) as u64,
                    size: size as u64,
                    first: read_u32_le(data, at + 60),
                    stub_size,
                },
            );
        }
        assert((i + 1) * SECTION32_SIZE == i * SECTION32_SIZE + SECTION32_SIZE) by (nonlinear_arith);
        i = i + 1;
        base = base + SECTION32_SIZE;
    }
}

/// No symbols known yet.
pub open spec fn no_tables() -> SymbolTables {
    SymbolTables { symtab_off: 0, nsyms: 0, stroff: 0, indirect_off: 0, nindirect: 0 }
}

/// All that the load commands of a 32-bit file say of symbols and stubs.
pub open spec fn stub_model(data: Seq<u8>) -> StubModel {
    with_commands(
        StubModel { tables: no_tables(), sections: Seq::empty() },
        data,
        HEADER_SIZE as int,
        0,
    )
}

fn read_commands(data: &[u8]) -> (r: (SymbolTables, Vec<StubSection>))
    requires
        data@.len() >= HEADER_SIZE,
    ensures
        (StubModel { tables: r.0, sections: r.1@ }) == stub_model(data@),
        sized(r.1@),
{
    let n: usize = data.len();
    let end = find_commands_end(data, true);
    let ncmds = read_u32_le(data, 16);
    let mut tables = SymbolTables {
        symtab_off: 0,
        nsyms: 0,
        stroff: 0,
        indirect_off: 0,
        nindirect: 0,
    };
    let mut sections: Vec<StubSection> = Vec::new();
    let mut pos: u64 = HEADER_SIZE;
    let mut count: u32 = 0;
    let mut more: bool = true;
    while more
        invariant
            n == data@.len(),
            end == commands_end(data@, true),
            end <= n,
            ncmds == word(data@, 16),
            pos <= end,
            count <= ncmds,
            stub_model(data@) == (if more {
                with_commands(
                    StubModel { tables, sections: sections@ },
                    data@,
                    pos as int,
                    count as int,
                )
            } else {
                StubModel { tables, sections: sections@ }
            }),
        decreases (if more { end - pos + 1 } else { 0 }),
    {
        if end - pos < 8 || count >= ncmds {
            more = false;
        } else {
            let at: usize = pos as usize;
            let cmd = read_u32_le(data, at);
            let size = read_u32_le(data, at + 4);
            if size < 8 || size as u64 > end - pos {
                more = false;
            } else {
                if cmd == LC_SYMTAB {
                    if size >= 24 {
                        tables.symtab_off = read_u32_le(data, at + 8);
                        tables.nsyms = read_u32_le(data, at + 12);
                        tables.stroff = read_u32_le(data, at + 16);
                    }
                } else if cmd == LC_DYSYMTAB {
                    if size >= 64 {
                        tables.indirect_off = read_u32_le(data, at + 56);
                        tables.nindirect = read_u32_le(data, at + 60);
                    }
                } else if cmd == LC_SEGMENT && size as u64 >= SEGMENT_CMD32_SIZE {
                    add_stub_sections(&mut sections, data, pos, end);
                }
                pos = pos + size as u64;
                count = count + 1;
            }
        }
    }
    proof {
        lemma_stub_sizes(
            StubModel { tables: no_tables(), sections: Seq::empty() },
            data@,
            HEADER_SIZE as int,
            0,
        );
    }
    (tables, sections)
}

/// Stubs that take up space, at addresses and of sizes that 32 bits hold.
pub open spec fn sized(sections: Seq<StubSection>) -> bool {
    forall|i: int|
        0 <= i < sections.len() ==> (#[trigger] sections[i]).stub_size > 0 && sections[i].addr
            <= u32::MAX && sections[i].size <= u32::MAX
}

proof fn lemma_section_sizes(sections: Seq<StubSection>, data: Seq<u8>, pos: int, i: int)
    requires
        sized(sections),
    ensures
        sized(with_stub_sections(sections, data, pos, i)),
    decreases word(data, pos + 48) - i,
{
    let base = pos + SEGMENT_CMD32_SIZE + i * SECTION32_SIZE;
    if !(i < 0 || i >= word(data, pos + 48) || base + SECTION32_SIZE > commands_end(data, true)) {
        let size = word(data, base + 36) as u64;
        let stub_size = word(data, base + 64);
        let next = if word(data, base + 56) % 0x100 == 8 && stub_size > 0 && size > 0 {
            sections.push(
                StubSection {
                    addr: word(data, base + 32) as u64,
                    size,
                    first: word(data, base + 60),
                    stub_size,
                },
            )
        } else {
            sections
        };
        lemma_section_sizes(next, data, pos, i + 1);
    }
}

pub proof fn lemma_stub_sizes(s: StubModel, data: Seq<u8>, pos: int, count: int)
    requires
        sized(s.sections),
    ensures
        sized(with_commands(s, data, pos, count).sections),
    decreases commands_end(data, true) - pos,
{
    let size = word(data, pos + 4);
    if !(pos < 0 || pos + 8 > commands_end(data, true) || count >= word(data, 16) || size < 8 || pos
        + size > commands_end(data, true)) {
        lemma_section_sizes(s.sections, data, pos, 0);
        lemma_stub_sizes(with_command(s, data, pos), data, pos + size, count + 1);
    }
}

/// The indirect symbol table, where it lies in the file.
pub open spec fn indirect_table(data: Seq<u8>, t: SymbolTables) -> Seq<u8> {
    let end = t.indirect_off + 4 * t.nindirect;
    if end <= data.len() {
        data.subrange(t.indirect_off as int, end)
    } else {
        Seq::empty()
    }
}

/// The name of symbol `i`, if the table has the symbol and it has a name.
pub open spec fn symbol_text(data: Seq<u8>, t: SymbolTables, i: u32) -> Option<Seq<char>> {
    let name = string_at(
        tail_of(data, t.stroff as int),
        word(data, t.symtab_off + NLIST32_SIZE * i) as int,
    );
    if i >= t.nsyms || name.len() == 0 {
        None
    } else {
        Some(name)
    }
}

/// With the stubs, from number `i` on, of a section. Entries for local or
/// absolute symbols name nothing.
pub open spec fn with_stubs(
    m: Map<u64, Seq<char>>,
    data: Seq<u8>,
    t: SymbolTables,
    s: StubSection,
    i: int,
) -> Map<u64, Seq<char>>
    decreases s.size / s.stub_size as u64 - i,
{
    let table = indirect_table(data, t);
    let entry = 4 * s.first.wrapping_add(i as u32);
    if i < 0 || i >= s.size / s.stub_size as u64 || entry + 4 > table.len() {
        m
    } else {
        let sym = word(table, entry);
        with_stubs(
            match symbol_text(data, t, sym) {
                Some(name) if sym < 0x4000_0000 => m.insert(
                    (s.addr + i * s.stub_size) as u64,
                    name,
                ),
                _ => m,
            },
            data,
            t,
            s,
            i + 1,
        )
    }
}

/// With the stubs of the sections from `i` on.
pub open spec fn with_all_stubs(
    m: Map<u64, Seq<char>>,
    data: Seq<u8>,
    s: StubModel,
    i: int,
) -> Map<u64, Seq<char>>
    decreases s.sections.len() - i,
{
    if i < 0 || i >= s.sections.len() {
        m
    } else {
        with_all_stubs(with_stubs(m, data, s.tables, s.sections[i], 0), data, s, i + 1)
    }
}

/// The stubs of a Mach-O file by address. Only 32-bit files with a symbol table
/// inside the file have any.
pub open spec fn stubs_of(data: Seq<u8>) -> Map<u64, Seq<char>> {
    let s = stub_model(data);
    if data.len() < HEADER_SIZE || word(data, 0) != MH_MAGIC || s.tables.symtab_off + NLIST32_SIZE
        * s.tables.nsyms > data.len() {
        Map::empty()
    } else {
        with_all_stubs(Map::empty(), data, s, 0)
    }
}

fn read_symbol_text(data: &[u8], t: &SymbolTables, i: u32) -> (r: Option<String>)
    requires
        t.symtab_off + NLIST32_SIZE * t.nsyms <= data@.len(),
    ensures
        match r {
            Some(s) => symbol_text(data@, *t, i) == Some(s@),
            None => symbol_text(data@, *t, i) is None,
        },
{
    if i >= t.nsyms {
        return None;
    }
    let n: usize = data.len();
    assert(NLIST32_SIZE * i + NLIST32_SIZE <= NLIST32_SIZE * t.nsyms) by (nonlinear_arith)
        requires
            i < t.nsyms,
    ;
    let at: u64 = t.symtab_off as u64 + NLIST32_SIZE * i as u64;
    let strx = read_u32_le(data, at as usize);
    let s = read_string(tail(data, t.stroff), strx);
    if s.as_str().is_empty() {
        None
    } else {
        Some(s)
    }
}

fn add_stubs(map: &mut HashMap<u64, String>, data: &[u8], t: &SymbolTables, s: &StubSection)
    requires
        t.symtab_off + NLIST32_SIZE * t.nsyms <= data@.len(),
        s.stub_size > 0,
        s.size <= u32::MAX,
        s.addr <= u32::MAX,
    ensures
        texts(final(map)@) == with_stubs(texts(old(map)@), data@, *t, *s, 0),
{
    let n: usize = data.len();
    let indirect_end: u64 = t.indirect_off as u64 + 4 * t.nindirect as u64;
    let table = if indirect_end <= n as u64 {
        vstd::slice::slice_subrange(data, t.indirect_off as usize, indirect_end as usize)
    } else {
        let empty = vstd::slice::slice_subrange(data, 0, 0);
        assert(empty@ =~= Seq::<u8>::empty());
        empty
    };
    assert(table@ == indirect_table(data@, *t));
    let table_len: u64 = table.len() as u64;
    let stub_size: u64 = s.stub_size as u64;
    let count: u64 = s.size / stub_size;
    assert(count <= s.size) by (nonlinear_arith)
        requires
            count == s.size / stub_size,
            stub_size > 0,
    ;
    let mut i: u64 = 0;
    let mut more: bool = true;
    while more
        invariant
            t.symtab_off + NLIST32_SIZE * t.nsyms <= data@.len(),
            stub_size == s.stub_size,
            stub_size > 0,
            s.size <= u32::MAX,
            s.addr <= u32::MAX,
            count == s.size / stub_size,
            count <= u32::MAX,
            table@ == indirect_table(data@, *t),
            table_len == table@.len(),
            table_len <= usize::MAX,
            i <= count,
            with_stubs(texts(old(map)@), data@, *t, *s, 0) == (if more {
                with_stubs(texts(map@), data@, *t, *s, i as int)
            } else {
                texts(map@)
            }),
        decreases (if more { count - i + 1 } else { 0 }),
    {
        let entry: u64 = if i < count {
            4 * s.first.wrapping_add(i as u32) as u64
        } else {
            0
        };
        if i >= count || entry + 4 > table_len {
            more = false;
        } else {
            let sym = read_u32_le(table, entry as usize);
            if sym < 0x4000_0000 {
                if let Some(name) = read_symbol_text(data, t, sym) {
                    assert(i * stub_size <= u32::MAX) by (nonlinear_arith)
                        requires
                            i < count,
                            count == s.size / stub_size,
                            s.size <= u32::MAX,
                            stub_size > 0,
                    ;
                    let addr: u64 = s.addr + i * stub_size;
                    let ghost before = texts(map@);
                    let ghost text = name@;
                    map.insert(addr, name);
                    assert(texts(map@) =~= before.insert(addr, text));
                }
            }
            i = i + 1;
        }
    }
}

fn parse_stubs_32(data: &[u8]) -> (r: HashMap<u64, String>)
    requires
        data@.len() >= HEADER_SIZE,
        word(data@, 0) == MH_MAGIC,
    ensures
        texts(r@) == stubs_of(data@),
{
    let mut map: HashMap<u64, String> = HashMap::new();
    assert(texts(map@) =~= Map::empty());
    let (tables, sections) = read_commands(data);
    let symtab_end: u64 = tables.symtab_off as u64 + NLIST32_SIZE * tables.nsyms as u64;
    if symtab_end > data.len() as u64 {
        return map;
    }
    let ghost model = stub_model(data@);
    let mut i: usize = 0;
    while i < sections.len()
        invariant
            model == (StubModel { tables, sections: sections@ }),
            tables.symtab_off + NLIST32_SIZE * tables.nsyms <= data@.len(),
            sized(sections@),
            i <= sections@.len(),
            with_all_stubs(Map::empty(), data@, model, 0) == with_all_stubs(
                texts(map@),
                data@,
                model,
                i as int,
            ),
        decreases sections@.len() - i,
    {
        let s = sections[i];
        add_stubs(&mut map, data, &tables, &s);
        i = i + 1;
    }
    map
}

/// Reads the symbol stubs of a Mach-O file: stub address to the name of the
/// symbol outside the image.
pub fn parse_stubs(data: &[u8]) -> (r: HashMap<u64, String>)
    ensures
        texts(r@) == stubs_of(data@),
{
    let n: usize = data.len();
    if n as u64 >= HEADER_SIZE {
        if read_u32_le(data, 0) == MH_MAGIC {
            return parse_stubs_32(data);
        }
    }
    let map: HashMap<u64, String> = HashMap::new();
    assert(texts(map@) =~= Map::empty());
    map
}

} // verus!
