//! What the debugging entries of a symbol table describe.
use vstd::prelude::*;

use super::cu::{FunctionView, UnitView, VariableView};
use super::stabs::{
    body_from, body_start, body_step, colon_index, entries, entry, entry_text, finished,
    names_source, plain_name, stabs_function, stabs_units, table_of, unit_at, unit_body, unit_end,
    units_from, BodyModel, Nlist, SymtabCommand, N_FUN, N_SO,
};
use super::strtab::tail_of;
use crate::bytes::le_value;
use crate::cstr::string_at;

verus! {

/// The number in the four bytes at `at`, the low byte first.
pub open spec fn number(data: Seq<u8>, at: int) -> int {
    data[at] + 0x100 * data[at + 1] + 0x1_0000 * data[at + 2] + 0x100_0000 * data[at + 3]
}

/// The type of entry `i` of the symbol table, behind the four bytes of its name.
pub open spec fn type_of(data: Seq<u8>, t: SymtabCommand, i: int) -> int {
    data[t.symtab_off + 12 * i + 4] as int
}

/// The value of entry `i` of the symbol table, its last four bytes.
pub open spec fn value_of(data: Seq<u8>, t: SymtabCommand, i: int) -> int {
    number(data, t.symtab_off + 12 * i + 8)
}

/// The string of entry `i` of the symbol table.
pub open spec fn text_of(data: Seq<u8>, t: SymtabCommand, i: int) -> Seq<char> {
    string_at(tail_of(data, t.stroff as int), number(data, t.symtab_off + 12 * i))
}

/// True when entry `i` is of a source and has a name.
pub open spec fn is_source(data: Seq<u8>, t: SymtabCommand, i: int) -> bool {
    0 <= i < t.nsyms && type_of(data, t, i) == 0x64 && text_of(data, t, i).len() > 0
}

/// True when a unit begins with entry `u`: it names a source, and the one before does not.
pub open spec fn begins_unit(data: Seq<u8>, t: SymtabCommand, u: int) -> bool {
    is_source(data, t, u) && !is_source(data, t, u - 1)
}

/// True when entry `f` lies in the unit that begins with entry `u`: no entry of a source stands
/// between them but for a second name.
pub open spec fn lies_in_unit(data: Seq<u8>, t: SymtabCommand, u: int, f: int) -> bool {
    &&& begins_unit(data, t, u)
    &&& u < f < t.nsyms
    &&& type_of(data, t, f) != 0x66
    &&& forall|j: int|
        u < j <= f ==> #[trigger] type_of(data, t, j) == 0x64 ==> j == u + 1 && j < f && is_source(
            data,
            t,
            j,
        )
}

/// True when `e` is the first entry behind `f` that is of a function or ends the unit.
pub open spec fn is_next(data: Seq<u8>, t: SymtabCommand, f: int, e: int) -> bool {
    &&& f < e <= t.nsyms
    &&& e < t.nsyms ==> type_of(data, t, e) == 0x24 || type_of(data, t, e) == 0x64
    &&& forall|j: int|
        f < j < e ==> #[trigger] type_of(data, t, j) != 0x24 && type_of(data, t, j) != 0x64
}

/// True when `name` is what comes before the first colon of `text`.
pub open spec fn is_before_colon(name: Seq<char>, text: Seq<char>) -> bool {
    &&& name.len() <= text.len()
    &&& forall|i: int| 0 <= i < name.len() ==> #[trigger] name[i] == text[i] && name[i] != ':'
    &&& name.len() < text.len() ==> text[name.len() as int] == ':'
}

/// The size of the function that begins with entry `f` and is followed by entry `e`: what the
/// entry of its end says, or else the way to the next function, if that is behind it.
pub open spec fn size_of(data: Seq<u8>, t: SymtabCommand, f: int, e: int) -> int {
    if e == t.nsyms || type_of(data, t, e) == 0x64 {
        0
    } else if text_of(data, t, e).len() == 0 {
        value_of(data, t, e)
    } else if value_of(data, t, e) >= value_of(data, t, f) {
        value_of(data, t, e) - value_of(data, t, f)
    } else {
        0
    }
}

/// True when `v` is the function that begins with entry `f`, with the given size.
pub open spec fn is_function_of(
    data: Seq<u8>,
    t: SymtabCommand,
    f: int,
    size: int,
    v: FunctionView,
) -> bool {
    &&& is_before_colon(v.name, text_of(data, t, f))
    &&& v.linkage_name == Some(v.name)
    &&& v.addr == value_of(data, t, f)
    &&& v.size == size
    &&& v.external
}

/// True when `v` is the datum of entry `f`.
pub open spec fn is_variable_of(data: Seq<u8>, t: SymtabCommand, f: int, v: VariableView) -> bool {
    &&& is_before_colon(v.name, text_of(data, t, f))
    &&& v.linkage_name == Some(v.name)
    &&& v.addr == value_of(data, t, f)
    &&& !v.external
}

/// True when `unit` has the names that stand where it begins: the directory and the file, or
/// the file alone.
pub open spec fn is_unit_of(data: Seq<u8>, t: SymtabCommand, u: int, unit: UnitView) -> bool {
    if is_source(data, t, u + 1) {
        unit.comp_dir == Some(text_of(data, t, u)) && unit.name == text_of(data, t, u + 1)
    } else {
        unit.comp_dir is None && unit.name == text_of(data, t, u)
    }
}

/// True when the unit that begins with entry `u` has the function that begins with entry `f`.
pub open spec fn has_function(
    units: Seq<UnitView>,
    data: Seq<u8>,
    t: SymtabCommand,
    u: int,
    f: int,
    size: int,
) -> bool {
    exists|x: int, y: int|
        0 <= x < units.len() && is_unit_of(data, t, u, units[x]) && 0 <= y
            < units[x].functions.len() && is_function_of(
            data,
            t,
            f,
            size,
            #[trigger] units[x].functions[y],
        )
}

/// True when the unit that begins with entry `u` has the datum of entry `f`.
pub open spec fn has_variable(
    units: Seq<UnitView>,
    data: Seq<u8>,
    t: SymtabCommand,
    u: int,
    f: int,
) -> bool {
    exists|x: int, y: int|
        0 <= x < units.len() && is_unit_of(data, t, u, units[x]) && 0 <= y
            < units[x].variables.len() && is_variable_of(
            data,
            t,
            f,
            #[trigger] units[x].variables[y],
        )
}

proof fn lemma_entry(data: Seq<u8>, t: SymtabCommand, i: int)
    requires
        0 <= i < t.nsyms,
    ensures
        entries(data, t)[i].ntype == type_of(data, t, i),
        type_of(data, t, i) >= 0x20 && type_of(data, t, i) % 2 == 0 ==> entries(data, t)[i].value
            == value_of(data, t, i) && entry_text(
            entries(data, t),
            tail_of(data, t.stroff as int),
            i,
        ) == text_of(data, t, i),
{
    reveal_with_fuel(le_value, 5);
    assert(entries(data, t)[i] == entry(data, t, i));
}

proof fn lemma_source(data: Seq<u8>, t: SymtabCommand, i: int)
    requires
        0 <= i,
    ensures
        names_source(entries(data, t), tail_of(data, t.stroff as int), i) == is_source(data, t, i),
{
    if i < t.nsyms {
        lemma_entry(data, t, i);
    }
}

proof fn lemma_colon(s: Seq<char>, i: int)
    requires
        0 <= i <= s.len(),
        forall|j: int| 0 <= j < i ==> #[trigger] s[j] != ':',
    ensures
        i <= colon_index(s, i) <= s.len(),
        forall|j: int| 0 <= j < colon_index(s, i) ==> #[trigger] s[j] != ':',
        colon_index(s, i) < s.len() ==> s[colon_index(s, i)] == ':',
    decreases s.len() - i,
{
    if i < s.len() && s[i] != ':' {
        lemma_colon(s, i + 1);
    }
}

proof fn lemma_grows(b: BodyModel, syms: Seq<Nlist>, table: Seq<u8>, i: int)
    ensures
        b.functions.len() <= finished(body_from(b, syms, table, i)).len(),
        forall|j: int|
            0 <= j < b.functions.len() ==> #[trigger] finished(body_from(b, syms, table, i))[j]
                == b.functions[j],
        b.variables.len() <= body_from(b, syms, table, i).variables.len(),
        forall|j: int|
            0 <= j < b.variables.len() ==> #[trigger] body_from(b, syms, table, i).variables[j]
                == b.variables[j],
    decreases syms.len() - i,
{
    if !(i < 0 || i >= syms.len() || syms[i].ntype == N_SO) {
        let next = body_step(b, syms[i], table);
        assert(b.functions.len() <= next.functions.len());
        assert(forall|j: int|
            0 <= j < b.functions.len() ==> #[trigger] next.functions[j] == b.functions[j]);
        assert(forall|j: int|
            0 <= j < b.variables.len() ==> #[trigger] next.variables[j] == b.variables[j]);
        lemma_grows(next, syms, table, i + 1);
    }
}

proof fn lemma_reach(b: BodyModel, syms: Seq<Nlist>, table: Seq<u8>, i: int, f: int) -> (r:
    BodyModel)
    requires
        0 <= i <= f <= syms.len(),
        forall|j: int| i <= j < f ==> (#[trigger] syms[j]).ntype != N_SO,
    ensures
        body_from(b, syms, table, i) == body_from(r, syms, table, f),
        (forall|j: int| i <= j < f ==> (#[trigger] syms[j]).ntype != N_FUN) ==> r.open == b.open
            && r.functions == b.functions,
    decreases f - i,
{
    if i < f {
        lemma_reach(body_step(b, syms[i], table), syms, table, i + 1, f)
    } else {
        b
    }
}

proof fn lemma_unit_end(syms: Seq<Nlist>, k: int, u: int)
    requires
        0 <= k <= u < syms.len(),
        syms[u].ntype == N_SO,
    ensures
        k <= unit_end(syms, k) <= u,
    decreases u - k,
{
    if syms[k].ntype != N_SO {
        lemma_unit_end(syms, k + 1, u);
    }
}

proof fn lemma_units_stay(units: Seq<UnitView>, syms: Seq<Nlist>, table: Seq<u8>, i: int)
    requires
        0 <= i,
    ensures
        units.len() <= units_from(units, syms, table, i).len(),
        forall|x: int|
            0 <= x < units.len() ==> #[trigger] units_from(units, syms, table, i)[x] == units[x],
    decreases syms.len() - i,
{
    if i < syms.len() {
        if !names_source(syms, table, i) {
            lemma_units_stay(units, syms, table, i + 1);
        } else {
            let u = unit_at(syms, table, i, units.len());
            let next = unit_end(syms, body_start(syms, table, i));
            lemma_end_behind(syms, body_start(syms, table, i));
            lemma_units_stay(
                if u.functions.len() == 0 && u.variables.len() == 0 {
                    units
                } else {
                    units.push(u)
                },
                syms,
                table,
                next,
            );
        }
    }
}

proof fn lemma_end_behind(syms: Seq<Nlist>, k: int)
    requires
        0 <= k,
    ensures
        unit_end(syms, k) >= k,
        k <= syms.len() ==> unit_end(syms, k) <= syms.len(),
    decreases syms.len() - k,
{
    if k < syms.len() && syms[k].ntype != N_SO {
        lemma_end_behind(syms, k + 1);
    }
}

proof fn lemma_units(units: Seq<UnitView>, syms: Seq<Nlist>, table: Seq<u8>, i: int, u: int) -> (r: (
    int,
    nat,
))
    requires
        0 <= i <= u < syms.len(),
        names_source(syms, table, u),
        u > 0 ==> !names_source(syms, table, u - 1),
        unit_at(syms, table, u, 0).functions.len() + unit_at(syms, table, u, 0).variables.len() > 0,
    ensures
        0 <= r.0 < units_from(units, syms, table, i).len(),
        units_from(units, syms, table, i)[r.0] == unit_at(syms, table, u, r.1),
    decreases u - i,
{
    if i == u {
        let unit = unit_at(syms, table, i, units.len());
        let next = unit_end(syms, body_start(syms, table, i));
        lemma_end_behind(syms, body_start(syms, table, i));
        lemma_units_stay(units.push(unit), syms, table, next);
        assert(units_from(units, syms, table, i) == units_from(
            units.push(unit),
            syms,
            table,
            next,
        ));
        assert(units.push(unit)[units.len() as int] == unit);
        (units.len() as int, units.len())
    } else if !names_source(syms, table, i) {
        lemma_units(units, syms, table, i + 1, u)
    } else {
        let unit = unit_at(syms, table, i, units.len());
        lemma_unit_end(syms, body_start(syms, table, i), u);
        let next = unit_end(syms, body_start(syms, table, i));
        lemma_units(
            if unit.functions.len() == 0 && unit.variables.len() == 0 {
                units
            } else {
                units.push(unit)
            },
            syms,
            table,
            next,
            u,
        )
    }
}

proof fn lemma_body(data: Seq<u8>, t: SymtabCommand, u: int, f: int) -> (r: BodyModel)
    requires
        lies_in_unit(data, t, u, f),
    ensures
        unit_body(entries(data, t), tail_of(data, t.stroff as int), u) == body_from(
            r,
            entries(data, t),
            tail_of(data, t.stroff as int),
            f,
        ),
        entries(data, t)[f].ntype != N_SO,
{
    let syms = entries(data, t);
    let table = tail_of(data, t.stroff as int);
    assert forall|j: int| 0 <= j < syms.len() implies (#[trigger] syms[j]).ntype == type_of(
        data,
        t,
        j,
    ) by {
        lemma_entry(data, t, j);
    }
    lemma_source(data, t, u + 1);
    assert(type_of(data, t, u + 1) == 0x64 ==> is_source(data, t, u + 1));
    assert(type_of(data, t, f) != 0x64);
    let start = body_start(syms, table, u);
    assert(start <= f);
    assert forall|j: int| start <= j < f implies (#[trigger] syms[j]).ntype != N_SO by {
        assert(type_of(data, t, j) == 0x64 ==> j == u + 1);
    }
    lemma_reach(
        BodyModel { functions: Seq::empty(), variables: Seq::empty(), open: None },
        syms,
        table,
        start,
        f,
    )
}

proof fn lemma_unit_listed(data: Seq<u8>, t: SymtabCommand, u: int) -> (x: int)
    requires
        table_of(data) == Some(t),
        begins_unit(data, t, u),
        finished(unit_body(entries(data, t), tail_of(data, t.stroff as int), u)).len()
            + unit_body(entries(data, t), tail_of(data, t.stroff as int), u).variables.len() > 0,
    ensures
        0 <= x < stabs_units(data).len(),
        is_unit_of(data, t, u, stabs_units(data)[x]),
        stabs_units(data)[x].functions == finished(
            unit_body(entries(data, t), tail_of(data, t.stroff as int), u),
        ),
        stabs_units(data)[x].variables == unit_body(
            entries(data, t),
            tail_of(data, t.stroff as int),
            u,
        ).variables,
{
    let syms = entries(data, t);
    let table = tail_of(data, t.stroff as int);
    lemma_source(data, t, u);
    lemma_source(data, t, u + 1);
    lemma_entry(data, t, u);
    if u > 0 {
        lemma_source(data, t, u - 1);
    }
    if u + 1 < t.nsyms {
        lemma_entry(data, t, u + 1);
    }
    lemma_units(Seq::empty(), syms, table, 0, u).0
}

/// A function is in the unit of its entry, with the name before the colon, its address, and the
/// size that its end says. Where its end is missing, it reaches to the next function; where that
/// is missing too, it has no size, and one without an address is left out.
pub proof fn law_functions_are_described(data: Seq<u8>, t: SymtabCommand, u: int, f: int, e: int)
    requires
        table_of(data) == Some(t),
        lies_in_unit(data, t, u, f),
        type_of(data, t, f) == 0x24,
        text_of(data, t, f).len() > 0,
        is_next(data, t, f, e),
        e == t.nsyms || type_of(data, t, e) == 0x64 ==> value_of(data, t, f) != 0,
    ensures
        has_function(stabs_units(data), data, t, u, f, size_of(data, t, f, e)),
{
    let syms = entries(data, t);
    let table = tail_of(data, t.stroff as int);
    let before = lemma_body(data, t, u, f);
    assert forall|j: int| 0 <= j < syms.len() implies (#[trigger] syms[j]).ntype == type_of(
        data,
        t,
        j,
    ) by {
        lemma_entry(data, t, j);
    }
    lemma_entry(data, t, f);
    let text = text_of(data, t, f);
    let name = plain_name(text);
    lemma_colon(text, 0);
    let opened = body_step(before, syms[f], table);
    let addr = syms[f].value as u64;
    assert(opened.open == Some((name, addr)));
    let last = lemma_reach(opened, syms, table, f + 1, e);
    assert(last.open == Some((name, addr)));
    let all = finished(unit_body(syms, table, u));
    let size = size_of(data, t, f, e);
    let own = stabs_function(name, addr, size as u64);
    let at = last.functions.len() as int;
    if e < t.nsyms && type_of(data, t, e) == 0x24 {
        lemma_entry(data, t, e);
        let done = body_step(last, syms[e], table);
        assert(done.functions == last.functions.push(own));
        lemma_grows(done, syms, table, e + 1);
        assert(all[at] == done.functions[at]);
    } else {
        assert(body_from(last, syms, table, e) == last);
        assert(all == last.functions.push(own));
    }
    assert(is_function_of(data, t, f, size, own));
    let x = lemma_unit_listed(data, t, u);
    assert(stabs_units(data)[x].functions[at] == own);
}

/// A datum is in the unit of its entry, with the name before the colon and its address.
pub proof fn law_variables_are_described(data: Seq<u8>, t: SymtabCommand, u: int, f: int)
    requires
        table_of(data) == Some(t),
        lies_in_unit(data, t, u, f),
        type_of(data, t, f) == 0x26 || type_of(data, t, f) == 0x28,
        text_of(data, t, f).len() > 0,
        text_of(data, t, f)[0] != ':',
        value_of(data, t, f) != 0,
    ensures
        has_variable(stabs_units(data), data, t, u, f),
{
    let syms = entries(data, t);
    let table = tail_of(data, t.stroff as int);
    let before = lemma_body(data, t, u, f);
    lemma_entry(data, t, f);
    let text = text_of(data, t, f);
    let name = plain_name(text);
    lemma_colon(text, 0);
    let next = body_step(before, syms[f], table);
    let at = before.variables.len() as int;
    lemma_grows(next, syms, table, f + 1);
    let own = next.variables[at];
    assert(is_variable_of(data, t, f, own));
    let x = lemma_unit_listed(data, t, u);
    assert(stabs_units(data)[x].variables[at] == own);
}

} // verus!
