//! Compilation units from the STABS entries of a Mach-O symbol table, for images
//! without DWARF.
use vstd::prelude::*;

use super::cu::{
    code_ranges, ranges_of, DebugInfoSource, FunctionView, MachoCompilationUnit, MachoCuIndex,
    MachoFunction, MachoVariable, UnitView, VariableView,
};
use super::strtab::{
    commands_end, find_commands_end, tail, tail_of, HEADER_SIZE, LC_SYMTAB, NLIST32_SIZE,
};
use crate::bytes::{le_value, read_u32_le};
use crate::cstr::{read_string, string_at};
use crate::text::{from_chars, to_chars};

verus! {

/// Function: its start has a name and the address, its end no name and the size.
pub const N_FUN: u8 = 0x24;

/// File-scope initialized datum.
pub const N_STSYM: u8 = 0x26;

/// File-scope zero-filled datum.
pub const N_LCSYM: u8 = 0x28;

/// Source directory, then source file; without a name, the end of a unit.
pub const N_SO: u8 = 0x64;

/// Path of the object file.
pub const N_OSO: u8 = 0x66;

/// Where the symbol and string tables are.
#[derive(Debug, Clone, Copy, PartialEq, Eq, Structural)]
pub struct SymtabCommand {
    pub symtab_off: u32,
    pub nsyms: u32,
    pub stroff: u32,
}

/// An entry of the symbol table.
#[derive(Debug, Clone, Copy, PartialEq, Eq, Structural)]
pub struct Nlist {
    pub strx: u32,
    pub ntype: u8,
    pub value: u32,
}

/// The word at `at`.
pub open spec fn word(data: Seq<u8>, at: int) -> u32 {
    le_value(data, at, 4) as u32
}

/// The first symbol-table command from the one at `pos`, number `count`, on. A
/// command that is cut off ends the search.
pub open spec fn symtab_command(data: Seq<u8>, pos: int, count: int) -> Option<SymtabCommand>
    decreases commands_end(data, true) - pos,
{
    let size = word(data, pos + 4);
    if pos < 0 || pos + 8 > commands_end(data, true) || count >= word(data, 16) {
        None
    } else if word(data, pos) == LC_SYMTAB && size >= 24 {
        if pos + 20 > data.len() {
            None
        } else {
            Some(
                SymtabCommand {
                    symtab_off: word(data, pos + 8),
                    nsyms: word(data, pos + 12),
                    stroff: word(data, pos + 16),
                },
            )
        }
    } else if size == 0 || pos + size > commands_end(data, true) {
        None
    } else {
        symtab_command(data, pos + size, count + 1)
    }
}

/// The symbol table of a file, where it has one inside the file.
pub open spec fn table_of(data: Seq<u8>) -> Option<SymtabCommand> {
    if data.len() < HEADER_SIZE {
        None
    } else {
        match symtab_command(data, HEADER_SIZE as int, 0) {
            Some(t) => if t.nsyms == 0 || t.symtab_off + NLIST32_SIZE * t.nsyms > data.len() {
                None
            } else {
                Some(t)
            },
            None => None,
        }
    }
}

/// Entry `i` of the table. Of an entry that is not for debugging only the type is
/// kept.
pub open spec fn entry(data: Seq<u8>, t: SymtabCommand, i: int) -> Nlist {
    let at = t.symtab_off + NLIST32_SIZE * i;
    let ntype = data[at + 4];
    if ntype < 0x20 || ntype % 2 != 0 {
        Nlist { strx: 0, ntype, value: 0 }
    } else {
        Nlist { strx: word(data, at), ntype, value: word(data, at + 8) }
    }
}

/// All entries of the table.
pub open spec fn entries(data: Seq<u8>, t: SymtabCommand) -> Seq<Nlist> {
    Seq::new(t.nsyms as nat, |i: int| entry(data, t, i))
}

fn find_symtab(data: &[u8]) -> (r: Option<SymtabCommand>)
    ensures
        r == table_of(data@),
{
    let n: usize = data.len();
    if (n as u64) < HEADER_SIZE {
        return None;
    }
    let end = find_commands_end(data, true);
    let ncmds = read_u32_le(data, 16);
    let mut pos: u64 = HEADER_SIZE;
    let mut count: u32 = 0;
    while end - pos >= 8 && count < ncmds
        invariant
            n == data@.len(),
            n >= HEADER_SIZE,
            end == commands_end(data@, true),
            end <= n,
            ncmds == word(data@, 16),
            pos <= end,
            count <= ncmds,
            symtab_command(data@, HEADER_SIZE as int, 0) == symtab_command(
                data@,
                pos as int,
                count as int,
            ),
        decreases end - pos,
    {
        let at: usize = pos as usize;
        let cmd = read_u32_le(data, at);
        let size = read_u32_le(data, at + 4);
        if cmd == LC_SYMTAB && size >= 24 {
            if n - at < 20 {
                return None;
            }
            let t = SymtabCommand {
                symtab_off: read_u32_le(data, at + 8),
                nsyms: read_u32_le(data, at + 12),
                stroff: read_u32_le(data, at + 16),
            };
            if t.nsyms == 0 || t.symtab_off as u64 + NLIST32_SIZE * t.nsyms as u64 > n as u64 {
                return None;
            }
            return Some(t);
        }
        if size == 0 || size as u64 > end - pos {
            return None;
        }
        pos = pos + size as u64;
        count = count + 1;
    }
    None
}

fn read_entries(data: &[u8], t: &SymtabCommand) -> (r: Vec<Nlist>)
    requires
        t.symtab_off + NLIST32_SIZE * t.nsyms <= data@.len(),
    ensures
        r@ == entries(data@, *t),
{
    let n: usize = data.len();
    let mut r: Vec<Nlist> = Vec::new();
    let mut at: u64 = t.symtab_off as u64;
    let mut i: u32 = 0;
    while i < t.nsyms
        invariant
            n == data@.len(),
            t.symtab_off + NLIST32_SIZE * t.nsyms <= n,
            i <= t.nsyms,
            at == t.symtab_off + NLIST32_SIZE * i,
            r@.len() == i,
            forall|j: int| 0 <= j < i ==> (#[trigger] r@[j]) == entry(data@, *t, j),
        decreases t.nsyms - i,
    {
        let p: usize = at as usize;
        let ntype = data[p + 4];
        if ntype < 0x20 || ntype % 2 != 0 {
            r.push(Nlist { strx: 0, ntype, value: 0 });
        } else {
            r.push(
                Nlist { strx: read_u32_le(data, p), ntype, value: read_u32_le(data, p + 8) },
            );
        }
        i = i + 1;
        at = at + NLIST32_SIZE;
    }
    assert(r@ =~= entries(data@, *t));
    r
}

/// Index, from `i` on, of the first colon, or the length.
pub open spec fn colon_index(s: Seq<char>, i: int) -> int
    decreases s.len() - i,
{
    if i < 0 || i >= s.len() || s[i] == ':' {
        i
    } else {
        colon_index(s, i + 1)
    }
}

/// A STABS name without its type descriptor: what comes before the first colon.
pub open spec fn plain_name(raw: Seq<char>) -> Seq<char> {
    raw.subrange(0, colon_index(raw, 0))
}

/// Strips the type descriptor of a STABS name (`main:F(0,1)` becomes `main`).
pub fn stabs_name(raw: &str) -> (r: String)
    ensures
        r@ == plain_name(raw@),
{
    let v = to_chars(raw);
    let mut end: usize = 0;
    while end < v.len() && v[end] != ':'
        invariant
            v@ == raw@,
            end <= v@.len(),
            colon_index(raw@, 0) == colon_index(raw@, end as int),
        decreases v@.len() - end,
    {
        end = end + 1;
    }
    from_chars(&v, 0, end)
}

/// A function as STABS describe it.
pub open spec fn stabs_function(name: Seq<char>, addr: u64, size: u64) -> FunctionView {
    FunctionView { name, linkage_name: Some(name), addr, size, external: true }
}

fn make_fn(name: String, addr: u64, size: u64) -> (f: MachoFunction)
    ensures
        f@ == stabs_function(name@, addr, size),
{
    MachoFunction { name: name.clone(), linkage_name: Some(name), addr, size, external: true }
}

/// What a unit's entries came to so far: its functions and data, and a function
/// whose end was not met yet.
#[verifier::ext_equal]
pub ghost struct BodyModel {
    pub functions: Seq<FunctionView>,
    pub variables: Seq<VariableView>,
    pub open: Option<(Seq<char>, u64)>,
}

/// The functions once the open one ends with the given size.
pub open spec fn closed(b: BodyModel, size: u64) -> Seq<FunctionView> {
    match b.open {
        Some((name, addr)) => b.functions.push(stabs_function(name, addr, size)),
        None => b.functions,
    }
}

/// Size of the open function when the next one begins at `next`.
pub open spec fn size_up_to(b: BodyModel, next: u64) -> u64 {
    match b.open {
        Some((_, addr)) => if addr <= next {
            (next - addr) as u64
        } else {
            0
        },
        None => 0,
    }
}

/// What an entry adds to its unit.
pub open spec fn body_step(b: BodyModel, e: Nlist, table: Seq<u8>) -> BodyModel {
    let text = string_at(table, e.strx as int);
    if e.ntype == N_FUN {
        if text.len() == 0 {
            BodyModel { functions: closed(b, e.value as u64), open: None, ..b }
        } else {
            BodyModel {
                functions: closed(b, size_up_to(b, e.value as u64)),
                open: Some((plain_name(text), e.value as u64)),
                ..b
            }
        }
    } else if e.ntype == N_STSYM || e.ntype == N_LCSYM {
        let name = plain_name(text);
        if e.value != 0 && name.len() > 0 {
            BodyModel {
                variables: b.variables.push(
                    VariableView {
                        name,
                        linkage_name: Some(name),
                        addr: e.value as u64,
                        external: false,
                    },
                ),
                ..b
            }
        } else {
            b
        }
    } else {
        b
    }
}

/// Index, from `i` on, of the entry that ends a unit, or the length.
pub open spec fn unit_end(syms: Seq<Nlist>, i: int) -> int
    decreases syms.len() - i,
{
    if i < 0 || i >= syms.len() || syms[i].ntype == N_SO {
        i
    } else {
        unit_end(syms, i + 1)
    }
}

/// What the entries from `i` on, up to the end of the unit, add to it.
pub open spec fn body_from(b: BodyModel, syms: Seq<Nlist>, table: Seq<u8>, i: int) -> BodyModel
    decreases syms.len() - i,
{
    if i < 0 || i >= syms.len() || syms[i].ntype == N_SO {
        b
    } else {
        body_from(body_step(b, syms[i], table), syms, table, i + 1)
    }
}

/// The functions of a unit at its end. One that never ended counts with size 0,
/// unless it has no address.
pub open spec fn finished(b: BodyModel) -> Seq<FunctionView> {
    match b.open {
        Some((_, addr)) => if addr != 0 {
            closed(b, 0)
        } else {
            b.functions
        },
        None => b.functions,
    }
}

/// Text of entry `i`.
pub open spec fn entry_text(syms: Seq<Nlist>, table: Seq<u8>, i: int) -> Seq<char> {
    string_at(table, syms[i].strx as int)
}

/// True when entry `i` names a source directory or file.
pub open spec fn names_source(syms: Seq<Nlist>, table: Seq<u8>, i: int) -> bool {
    i < syms.len() && syms[i].ntype == N_SO && entry_text(syms, table, i).len() > 0
}

/// Where the entries behind the names of the unit at `i` begin, after a directory
/// and an object path.
pub open spec fn after_names(syms: Seq<Nlist>, table: Seq<u8>, i: int) -> int {
    if names_source(syms, table, i + 1) {
        i + 2
    } else {
        i + 1
    }
}

/// True when the names of the unit at `i` end with an object path.
pub open spec fn has_object_path(syms: Seq<Nlist>, table: Seq<u8>, i: int) -> bool {
    let k = after_names(syms, table, i);
    k < syms.len() && syms[k].ntype == N_OSO
}

/// Where the body of the unit at `i` begins.
pub open spec fn body_start(syms: Seq<Nlist>, table: Seq<u8>, i: int) -> int {
    if has_object_path(syms, table, i) {
        after_names(syms, table, i) + 1
    } else {
        after_names(syms, table, i)
    }
}

/// What the entries of the unit at `i` come to.
pub open spec fn unit_body(syms: Seq<Nlist>, table: Seq<u8>, i: int) -> BodyModel {
    body_from(
        BodyModel { functions: Seq::empty(), variables: Seq::empty(), open: None },
        syms,
        table,
        body_start(syms, table, i),
    )
}

/// The unit at `i`.
pub open spec fn unit_at(syms: Seq<Nlist>, table: Seq<u8>, i: int, id: nat) -> UnitView {
    let first = entry_text(syms, table, i);
    let b = unit_body(syms, table, i);
    let functions = finished(b);
    let two = names_source(syms, table, i + 1);
    UnitView {
        id,
        name: if two {
            entry_text(syms, table, i + 1)
        } else {
            first
        },
        comp_dir: if two {
            Some(first)
        } else {
            None
        },
        oso_path: if has_object_path(syms, table, i) {
            Some(entry_text(syms, table, after_names(syms, table, i)))
        } else {
            None
        },
        ranges: code_ranges(functions, functions.len() as int),
        functions,
        variables: b.variables,
    }
}

/// The units from entry `i` on, added to `units`. A unit without functions and
/// data is left out.
pub open spec fn units_from(
    units: Seq<UnitView>,
    syms: Seq<Nlist>,
    table: Seq<u8>,
    i: int,
) -> Seq<UnitView>
    decreases syms.len() - i,
    via units_from_decreases
{
    if i < 0 || i >= syms.len() {
        units
    } else if !names_source(syms, table, i) {
        units_from(units, syms, table, i + 1)
    } else {
        let u = unit_at(syms, table, i, units.len());
        let next = unit_end(syms, body_start(syms, table, i));
        units_from(
            if u.functions.len() == 0 && u.variables.len() == 0 {
                units
            } else {
                units.push(u)
            },
            syms,
            table,
            next,
        )
    }
}

#[via_fn]
proof fn units_from_decreases(
    units: Seq<UnitView>,
    syms: Seq<Nlist>,
    table: Seq<u8>,
    i: int,
) {
    if 0 <= i < syms.len() {
        lemma_unit_end(syms, body_start(syms, table, i));
    }
}

proof fn lemma_unit_end(syms: Seq<Nlist>, i: int)
    requires
        0 <= i,
    ensures
        unit_end(syms, i) >= i,
        i <= syms.len() ==> unit_end(syms, i) <= syms.len(),
    decreases syms.len() - i,
{
    if i < syms.len() && syms[i].ntype != N_SO {
        lemma_unit_end(syms, i + 1);
    }
}

/// The compilation units that the STABS of a file describe.
pub open spec fn stabs_units(data: Seq<u8>) -> Seq<UnitView> {
    match table_of(data) {
        None => Seq::empty(),
        Some(t) => units_from(
            Seq::empty(),
            entries(data, t),
            tail_of(data, t.stroff as int),
            0,
        ),
    }
}

struct Body {
    functions: Vec<MachoFunction>,
    variables: Vec<MachoVariable>,
    open: Option<(String, u64)>,
}

impl View for Body {
    type V = BodyModel;

    closed spec fn view(&self) -> BodyModel {
        BodyModel {
            functions: self.functions@.map_values(|f: MachoFunction| f@),
            variables: self.variables@.map_values(|v: MachoVariable| v@),
            open: match self.open {
                Some((name, addr)) => Some((name@, addr)),
                None => None,
            },
        }
    }
}

impl Body {
    fn close(&mut self, size: u64)
        ensures
            final(self)@ == (BodyModel {
                functions: closed(old(self)@, size),
                open: None,
                ..old(self)@
            }),
    {
        let ghost before = self@;
        let open = self.open.take();
        if let Some((name, addr)) = open {
            let f = make_fn(name, addr, size);
            let ghost v = f@;
            self.functions.push(f);
            assert(self@.functions =~= before.functions.push(v));
        }
        assert(self@.variables =~= before.variables);
        assert(self@.functions =~= closed(before, size));
    }

    fn add(&mut self, e: &Nlist, table: &[u8])
        ensures
            final(self)@ == body_step(old(self)@, *e, table@),
    {
        let ghost before = self@;
        if e.ntype == N_FUN {
            let text = read_string(table, e.strx);
            if text.as_str().is_empty() {
                self.close(e.value as u64);
            } else {
                let size: u64 = match &self.open {
                    Some((_, addr)) => (e.value as u64).saturating_sub(*addr),
                    None => 0,
                };
                self.close(size);
                self.open = Some((stabs_name(text.as_str()), e.value as u64));
            }
        } else if e.ntype == N_STSYM || e.ntype == N_LCSYM {
            let text = read_string(table, e.strx);
            let name = stabs_name(text.as_str());
            if e.value != 0 && !name.as_str().is_empty() {
                let v = MachoVariable {
                    name: name.clone(),
                    linkage_name: Some(name),
                    addr: e.value as u64,
                    external: false,
                };
                let ghost view = v@;
                self.variables.push(v);
                assert(self@.variables =~= before.variables.push(view));
            }
        }
        assert(self@ =~= body_step(before, *e, table@));
    }
}

/// Reads the compilation units that the STABS of a file describe.
pub fn build_cu_index_from_stabs(data: &[u8]) -> (r: MachoCuIndex)
    ensures
        r.units@.map_values(|u: MachoCompilationUnit| u@) == stabs_units(data@),
        r.source == DebugInfoSource::Stabs,
{
    let mut units: Vec<MachoCompilationUnit> = Vec::new();
    assert(units@.map_values(|u: MachoCompilationUnit| u@) =~= Seq::empty());
    let t = match find_symtab(data) {
        Some(t) => t,
        None => return MachoCuIndex { units, source: DebugInfoSource::Stabs },
    };
    let syms = read_entries(data, &t);
    let table = tail(data, t.stroff);
    let mut i: usize = 0;
    while i < syms.len()
        invariant
            stabs_units(data@) == units_from(Seq::empty(), syms@, table@, 0),
            i <= syms@.len(),
            units_from(Seq::empty(), syms@, table@, 0) == units_from(
                units@.map_values(|u: MachoCompilationUnit| u@),
                syms@,
                table@,
                i as int,
            ),
        decreases syms@.len() - i,
    {
        if syms[i].ntype != N_SO {
            i = i + 1;
            continue;
        }
        let first = read_string(table, syms[i].strx);
        if first.as_str().is_empty() {
            i = i + 1;
            continue;
        }
        let ghost start = i as int;
        let ghost views = units@.map_values(|u: MachoCompilationUnit| u@);
        i = i + 1;
        let mut comp_dir: Option<String> = None;
        let mut name = first;
        if i < syms.len() && syms[i].ntype == N_SO {
            let second = read_string(table, syms[i].strx);
            if !second.as_str().is_empty() {
                comp_dir = Some(name);
                name = second;
                i = i + 1;
            }
        }
        assert(i == after_names(syms@, table@, start));
        let mut oso_path: Option<String> = None;
        if i < syms.len() && syms[i].ntype == N_OSO {
            oso_path = Some(read_string(table, syms[i].strx));
            i = i + 1;
        }
        assert(i == body_start(syms@, table@, start));
        let mut body = Body { functions: Vec::new(), variables: Vec::new(), open: None };
        let ghost empty = BodyModel {
            functions: Seq::empty(),
            variables: Seq::empty(),
            open: None,
        };
        assert(body@ =~= empty);
        let ghost first_entry = i as int;
        while i < syms.len() && syms[i].ntype != N_SO
            invariant
                first_entry <= i <= syms@.len(),
                unit_end(syms@, first_entry) == unit_end(syms@, i as int),
                body_from(empty, syms@, table@, first_entry) == body_from(
                    body@,
                    syms@,
                    table@,
                    i as int,
                ),
            decreases syms@.len() - i,
        {
            let e = syms[i];
            body.add(&e, table);
            i = i + 1;
        }
        let ghost b = body@;
        let unfinished: bool = match &body.open {
            Some((_, addr)) => *addr != 0,
            None => false,
        };
        if unfinished {
            body.close(0);
        }
        assert(body@.functions == finished(b));
        let Body { functions, variables, open: _ } = body;
        assert(functions@.map_values(|f: MachoFunction| f@) == finished(b));
        assert(variables@.map_values(|v: MachoVariable| v@) == b.variables);
        assert(functions@.len() == finished(b).len());
        assert(variables@.len() == b.variables.len());
        if functions.len() == 0 && variables.len() == 0 {
            continue;
        }
        let ranges = ranges_of(&functions);
        let id: usize = units.len();
        let unit = MachoCompilationUnit {
            id,
            name,
            comp_dir,
            oso_path,
            ranges,
            functions,
            variables,
        };
        assert(unit@ =~= unit_at(syms@, table@, start, views.len()));
        let ghost u = unit@;
        units.push(unit);
        assert(units@.map_values(|u: MachoCompilationUnit| u@) =~= views.push(u));
    }
    MachoCuIndex { units, source: DebugInfoSource::Stabs }
}

} // verus!
