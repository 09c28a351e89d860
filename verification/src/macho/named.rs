//! Which names the stubs of an image have.
use vstd::prelude::*;

use super::strtab::{tail_of, HEADER_SIZE};
use super::stubs::{
    lemma_stub_sizes, no_tables, sized, stub_model, stubs_of, symbol_text, with_all_stubs, with_stubs,
    StubModel, StubSection, SymbolTables, MH_MAGIC,
};
use crate::bytes::le_value;
use crate::cstr::string_at;

verus! {

/// The number in the four bytes at `at`, the low byte first.
pub open spec fn number(data: Seq<u8>, at: int) -> int {
    data[at] + 0x100 * data[at + 1] + 0x1_0000 * data[at + 2] + 0x100_0000 * data[at + 3]
}

/// True when the table of indirect symbols lies in the file.
pub open spec fn has_indirect(data: Seq<u8>, t: SymbolTables) -> bool {
    t.indirect_off + 4 * t.nindirect <= data.len()
}

/// The entry of the table of indirect symbols that stub `i` of a section goes by.
pub open spec fn entry_of(s: StubSection, i: int) -> int {
    (s.first + i) % 0x1_0000_0000
}

/// The symbol that stub `i` of a section stands for.
pub open spec fn symbol_of(data: Seq<u8>, t: SymbolTables, s: StubSection, i: int) -> int {
    number(data, t.indirect_off + 4 * entry_of(s, i))
}

/// True when the section has a stub `i`: it has the room, and the table of indirect symbols
/// reaches from its first stub to this one.
pub open spec fn has_stub(t: SymbolTables, s: StubSection, i: int) -> bool {
    &&& 0 <= i
    &&& (i + 1) * s.stub_size <= s.size
    &&& forall|j: int| 0 <= j <= i ==> #[trigger] entry_of(s, j) < t.nindirect
}

/// The string that symbol `n` is called.
pub open spec fn text_of(data: Seq<u8>, t: SymbolTables, n: int) -> Seq<char> {
    string_at(tail_of(data, t.stroff as int), number(data, t.symtab_off + 12 * n))
}

/// True when symbol `n` is one of the table and has a name, and is not marked as local or
/// absolute.
pub open spec fn is_named(data: Seq<u8>, t: SymbolTables, n: int) -> bool {
    &&& n < t.nsyms
    &&& n < 0x4000_0000
    &&& text_of(data, t, n).len() > 0
}

/// Where stub `i` of a section is.
pub open spec fn address_of(s: StubSection, i: int) -> int {
    s.addr + i * s.stub_size
}

/// True when `a` is the address of a stub of the section that stands for a symbol with a name.
pub open spec fn is_stub_at(data: Seq<u8>, t: SymbolTables, s: StubSection, a: int) -> bool {
    exists|i: int| #[trigger]
        has_stub(t, s, i) && a == address_of(s, i) && is_named(data, t, symbol_of(data, t, s, i))
}

/// True when `names` has at the address of stub `i` of the section the name of its symbol.
pub open spec fn is_named_stub(
    names: Map<u64, Seq<char>>,
    data: Seq<u8>,
    t: SymbolTables,
    s: StubSection,
    i: int,
) -> bool {
    let a = address_of(s, i) as u64;
    names.dom().contains(a) && names[a] == text_of(data, t, symbol_of(data, t, s, i))
}

proof fn lemma_number(data: Seq<u8>, at: int)
    ensures
        le_value(data, at, 4) == number(data, at),
        0 <= number(data, at) < 0x1_0000_0000,
{
    reveal_with_fuel(le_value, 5);
}

proof fn lemma_room(s: StubSection, i: int)
    requires
        s.stub_size > 0,
        0 <= i,
    ensures
        i < s.size / s.stub_size as u64 <==> (i + 1) * s.stub_size <= s.size,
{
    let q = (s.size / s.stub_size as u64) as int;
    let d = s.stub_size as int;
    vstd::arithmetic::div_mod::lemma_fundamental_div_mod(s.size as int, d);
    if i < q {
        assert((i + 1) * d <= d * q) by (nonlinear_arith)
            requires
                i + 1 <= q,
                d > 0,
        ;
    } else {
        assert((i + 1) * d >= d * q + d) by (nonlinear_arith)
            requires
                i >= q,
                d > 0,
        ;
    }
}

proof fn lemma_apart(s: StubSection, i: int, j: int)
    requires
        s.stub_size > 0,
        address_of(s, i) == address_of(s, j),
    ensures
        i == j,
{
    let d = s.stub_size as int;
    assert(i == j) by (nonlinear_arith)
        requires
            i * d == j * d,
            d > 0,
    ;
}

proof fn lemma_stubs(
    m: Map<u64, Seq<char>>,
    data: Seq<u8>,
    t: SymbolTables,
    s: StubSection,
    i: int,
)
    requires
        s.stub_size > 0,
        s.addr <= u32::MAX,
        s.size <= u32::MAX,
        has_indirect(data, t),
        0 <= i,
        forall|j: int| 0 <= j < i ==> #[trigger] entry_of(s, j) < t.nindirect,
    ensures
        forall|j: int|
            i <= j && #[trigger] has_stub(t, s, j) && is_named(data, t, symbol_of(data, t, s, j))
                ==> is_named_stub(with_stubs(m, data, t, s, i), data, t, s, j),
        forall|a: u64|
            (forall|j: int|
                i <= j && #[trigger] has_stub(t, s, j) && is_named(
                    data,
                    t,
                    symbol_of(data, t, s, j),
                ) ==> a != address_of(s, j)) ==> (#[trigger] with_stubs(
                m,
                data,
                t,
                s,
                i,
            ).dom().contains(a) <==> m.dom().contains(a)) && with_stubs(m, data, t, s, i)[a]
                == m[a],
    decreases s.size / s.stub_size as u64 - i,
{
    let count = s.size / s.stub_size as u64;
    lemma_room(s, i);
    assert(count <= s.size) by (nonlinear_arith)
        requires
            s.stub_size > 0,
            count == s.size / s.stub_size as u64,
    ;
    assert forall|j: int| i <= j && #[trigger] has_stub(t, s, j) implies i < count && entry_of(s, i)
        < t.nindirect by {
        lemma_room(s, j);
        assert(entry_of(s, i) < t.nindirect);
    }
    if i < count && entry_of(s, i) < t.nindirect {
        let table = data.subrange(
            t.indirect_off as int,
            t.indirect_off + 4 * t.nindirect,
        );
        let entry = 4 * entry_of(s, i);
        assert(s.first.wrapping_add(i as u32) == entry_of(s, i));
        let n = symbol_of(data, t, s, i);
        lemma_number(table, entry);
        lemma_number(data, t.indirect_off + entry);
        assert(number(table, entry) == n);
        lemma_number(data, t.symtab_off + 12 * n);
        let name = text_of(data, t, n);
        let next = if is_named(data, t, n) {
            m.insert(address_of(s, i) as u64, name)
        } else {
            m
        };
        assert(has_stub(t, s, i));
        assert(address_of(s, i) <= u64::MAX) by {
            assert((i + 1) * s.stub_size == i * s.stub_size + s.stub_size) by (nonlinear_arith);
        }
        assert(0 <= i * s.stub_size) by (nonlinear_arith)
            requires
                0 <= i,
                s.stub_size > 0,
        ;
        let end = with_stubs(m, data, t, s, i);
        assert(symbol_text(data, t, n as u32) == (if n >= t.nsyms || name.len() == 0 {
            None
        } else {
            Some(name)
        }));
        assert(end == with_stubs(next, data, t, s, i + 1));
        lemma_stubs(next, data, t, s, i + 1);
        assert forall|j: int|
            i <= j && #[trigger] has_stub(t, s, j) && is_named(
                data,
                t,
                symbol_of(data, t, s, j),
            ) implies is_named_stub(end, data, t, s, j) by {
            if j == i {
                let a = address_of(s, i) as u64;
                assert forall|k: int|
                    i + 1 <= k && #[trigger] has_stub(t, s, k) && is_named(
                        data,
                        t,
                        symbol_of(data, t, s, k),
                    ) implies a != address_of(s, k) by {
                    if a == address_of(s, k) {
                        lemma_apart(s, i, k);
                    }
                }
                assert(end.dom().contains(a) <==> next.dom().contains(a));
            }
        }
        assert forall|a: u64|
            (forall|j: int|
                i <= j && #[trigger] has_stub(t, s, j) && is_named(
                    data,
                    t,
                    symbol_of(data, t, s, j),
                ) ==> a != address_of(s, j)) implies (#[trigger] end.dom().contains(a)
            <==> m.dom().contains(a)) && end[a] == m[a] by {
            assert(is_named(data, t, n) ==> a != address_of(s, i));
            assert(end.dom().contains(a) <==> next.dom().contains(a));
        }
    } else {
        if i < count {
            assert(s.first.wrapping_add(i as u32) == entry_of(s, i));
        }
        assert(with_stubs(m, data, t, s, i) == m);
    }
}

proof fn lemma_all_stubs(
    m: Map<u64, Seq<char>>,
    data: Seq<u8>,
    s: StubModel,
    from: int,
    k: int,
    i: int,
)
    requires
        sized(s.sections),
        has_indirect(data, s.tables),
        0 <= from <= k < s.sections.len(),
        has_stub(s.tables, s.sections[k], i),
        is_named(data, s.tables, symbol_of(data, s.tables, s.sections[k], i)),
        forall|l: int|
            0 <= l < s.sections.len() && l != k ==> !is_stub_at(
                data,
                s.tables,
                #[trigger] s.sections[l],
                address_of(s.sections[k], i),
            ),
    ensures
        is_named_stub(with_all_stubs(m, data, s, from), data, s.tables, s.sections[k], i),
    decreases s.sections.len() - from,
{
    let t = s.tables;
    let next = with_stubs(m, data, t, s.sections[from], 0);
    lemma_stubs(m, data, t, s.sections[from], 0);
    if from < k {
        lemma_all_stubs(next, data, s, from + 1, k, i);
    } else {
        assert(is_named_stub(next, data, t, s.sections[k], i));
        let a = address_of(s.sections[k], i) as u64;
        lemma_address(t, s.sections[k], i);
        lemma_rest_stays(next, data, s, k + 1, a);
    }
}

proof fn lemma_address(t: SymbolTables, s: StubSection, i: int)
    requires
        has_stub(t, s, i),
        s.addr <= u32::MAX,
        s.size <= u32::MAX,
    ensures
        0 <= address_of(s, i) <= u64::MAX,
{
    assert((i + 1) * s.stub_size == i * s.stub_size + s.stub_size) by (nonlinear_arith);
    assert(0 <= i * s.stub_size) by (nonlinear_arith)
        requires
            0 <= i,
            0 <= s.stub_size,
    ;
}

proof fn lemma_rest_stays(m: Map<u64, Seq<char>>, data: Seq<u8>, s: StubModel, from: int, a: u64)
    requires
        sized(s.sections),
        has_indirect(data, s.tables),
        0 <= from <= s.sections.len(),
        forall|l: int|
            from <= l < s.sections.len() ==> !is_stub_at(
                data,
                s.tables,
                #[trigger] s.sections[l],
                a as int,
            ),
    ensures
        with_all_stubs(m, data, s, from).dom().contains(a) <==> m.dom().contains(a),
        with_all_stubs(m, data, s, from)[a] == m[a],
    decreases s.sections.len() - from,
{
    if from < s.sections.len() {
        let next = with_stubs(m, data, s.tables, s.sections[from], 0);
        lemma_stubs(m, data, s.tables, s.sections[from], 0);
        assert(next.dom().contains(a) <==> m.dom().contains(a));
        lemma_rest_stays(next, data, s, from + 1, a);
    }
}

/// A stub has the name of the symbol that its entry of the table of indirect symbols gives,
/// at the address as many stubs behind the start of its section as there are before it. No
/// stub of another section may stand at the same address.
pub proof fn law_stubs_have_their_name(data: Seq<u8>, k: int, i: int)
    requires
        data.len() >= HEADER_SIZE,
        number(data, 0) == MH_MAGIC,
        stub_model(data).tables.symtab_off + 12 * stub_model(data).tables.nsyms <= data.len(),
        has_indirect(data, stub_model(data).tables),
        0 <= k < stub_model(data).sections.len(),
        has_stub(stub_model(data).tables, stub_model(data).sections[k], i),
        is_named(
            data,
            stub_model(data).tables,
            symbol_of(data, stub_model(data).tables, stub_model(data).sections[k], i),
        ),
        forall|l: int|
            0 <= l < stub_model(data).sections.len() && l != k ==> !is_stub_at(
                data,
                stub_model(data).tables,
                #[trigger] stub_model(data).sections[l],
                address_of(stub_model(data).sections[k], i),
            ),
    ensures
        is_named_stub(
            stubs_of(data),
            data,
            stub_model(data).tables,
            stub_model(data).sections[k],
            i,
        ),
{
    let s = stub_model(data);
    lemma_number(data, 0);
    lemma_stub_sizes(
        StubModel { tables: no_tables(), sections: Seq::empty() },
        data,
        HEADER_SIZE as int,
        0,
    );
    lemma_all_stubs(Map::empty(), data, s, 0, k, i);
}

/// An address at which no stub stands has no name.
pub proof fn law_only_stubs_have_a_name(data: Seq<u8>, a: u64)
    requires
        has_indirect(data, stub_model(data).tables),
        forall|l: int|
            0 <= l < stub_model(data).sections.len() ==> !is_stub_at(
                data,
                stub_model(data).tables,
                #[trigger] stub_model(data).sections[l],
                a as int,
            ),
    ensures
        !stubs_of(data).dom().contains(a),
{
    let s = stub_model(data);
    lemma_stub_sizes(
        StubModel { tables: no_tables(), sections: Seq::empty() },
        data,
        HEADER_SIZE as int,
        0,
    );
    lemma_rest_stays(Map::empty(), data, s, 0, a);
}

} // verus!
