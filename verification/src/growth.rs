//! What an object keeps while it is built, and the code that it defines.
use vstd::prelude::*;

use crate::bytes::lemma_le_bytes_len;
use crate::linkage::LinkageModel;
use crate::objfile::{
    field_bias, field_bytes, field_width, mangled, ObjectFormat, ObjectModel, RelocationType,
    SectionKind, SymbolKind, SymbolModel,
};

verus! {

/// True when `b` has all that `a` has in the place where `a` has it: the symbols,
/// and the bytes of the sections. Outside ELF, addends are written over bytes.
pub open spec fn grows(a: ObjectModel, b: ObjectModel) -> bool {
    &&& a.format == b.format
    &&& a.machine == b.machine
    &&& a.symbols.len() <= b.symbols.len()
    &&& forall|i: int| 0 <= i < a.symbols.len() ==> #[trigger] b.symbols[i] == a.symbols[i]
    &&& a.sections.len() <= b.sections.len()
    &&& forall|i: int|
        0 <= i < a.sections.len() ==> a.sections[i].data.len() <= (
        #[trigger] b.sections[i]).data.len()
    &&& a.format == ObjectFormat::Elf ==> forall|i: int, j: int|
        0 <= i < a.sections.len() && 0 <= j < a.sections[i].data.len()
            ==> #[trigger] b.sections[i].data[j] == a.sections[i].data[j]
}

/// True when `b` has the sections of `a` and none of them has changed its size.
pub open spec fn keeps_sizes(a: ObjectModel, b: ObjectModel) -> bool {
    &&& a.sections.len() == b.sections.len()
    &&& forall|i: int|
        0 <= i < a.sections.len() ==> (#[trigger] b.sections[i]).data.len()
            == a.sections[i].data.len() && b.sections[i].size == a.sections[i].size
}

/// True when every offset into the object's sections fits 64 bits.
pub open spec fn addressable(m: ObjectModel) -> bool {
    forall|i: int| 0 <= i < m.sections.len() ==> (#[trigger] m.sections[i]).data.len() <= u64::MAX
}

/// True when `x` is the symbol of a function of this name and size whose code is in
/// a section of the object.
pub open spec fn is_code_symbol(
    m: ObjectModel,
    x: SymbolModel,
    name: Seq<char>,
    size: u64,
    len: nat,
) -> bool {
    &&& x.name == mangled(m.format, m.machine, name, SymbolKind::Text)
    &&& x.kind == SymbolKind::Text
    &&& x.size == size
    &&& x.section is Some
    &&& x.section->0 < m.sections.len()
    &&& x.value + len <= m.sections[x.section->0 as int].data.len()
}

/// True when the object has a symbol for a function of this name and size, and
/// `len` bytes of code where the symbol says.
pub open spec fn defines_function(m: ObjectModel, name: Seq<char>, size: u64, len: nat) -> bool {
    exists|s: int|
        0 <= s < m.symbols.len() && is_code_symbol(m, #[trigger] m.symbols[s], name, size, len)
}

/// True when the object has a symbol for a function of this name and size, and this
/// code where the symbol says.
pub open spec fn holds_function(
    m: ObjectModel,
    name: Seq<char>,
    size: u64,
    code: Seq<u8>,
) -> bool {
    exists|s: int|
        {
            let x = #[trigger] m.symbols[s];
            0 <= s < m.symbols.len() && is_code_symbol(m, x, name, size, code.len())
                && m.sections[x.section->0 as int].data.subrange(
                x.value as int,
                x.value + code.len(),
            ) == code
        }
}

/// True when the object has a symbol for a datum of this name, at this place.
pub open spec fn defines_datum(m: ObjectModel, name: Seq<char>, value: u64, section: nat) -> bool {
    exists|s: int|
        0 <= s < m.symbols.len() && is_data_symbol(m, #[trigger] m.symbols[s], name, value, section)
}

/// True when `x` is the symbol of a datum of this name, at this place.
pub open spec fn is_data_symbol(
    m: ObjectModel,
    x: SymbolModel,
    name: Seq<char>,
    value: u64,
    section: nat,
) -> bool {
    &&& x.name == mangled(m.format, m.machine, name, SymbolKind::Data)
    &&& x.kind == SymbolKind::Data
    &&& x.value == value
    &&& x.section == Some(section)
}

/// What grows twice has grown.
pub proof fn lemma_grows_on(a: ObjectModel, b: ObjectModel, c: ObjectModel)
    requires
        grows(a, b),
        grows(b, c),
    ensures
        grows(a, c),
{
    assert forall|i: int| 0 <= i < a.symbols.len() implies #[trigger] c.symbols[i]
        == a.symbols[i] by {
        assert(b.symbols[i] == a.symbols[i]);
    }
    assert forall|i: int| 0 <= i < a.sections.len() implies a.sections[i].data.len() <= (
    #[trigger] c.sections[i]).data.len() by {
        assert(a.sections[i].data.len() <= b.sections[i].data.len());
    }
    if a.format == ObjectFormat::Elf {
        assert forall|i: int, j: int|
            0 <= i < a.sections.len() && 0 <= j
                < a.sections[i].data.len() implies #[trigger] c.sections[i].data[j]
            == a.sections[i].data[j] by {
            assert(a.sections[i].data.len() <= b.sections[i].data.len());
            assert(b.sections[i].data[j] == a.sections[i].data[j]);
        }
    }
}

/// What keeps its sizes twice has kept them.
pub proof fn lemma_keeps_sizes_on(a: ObjectModel, b: ObjectModel, c: ObjectModel)
    requires
        keeps_sizes(a, b),
        keeps_sizes(b, c),
    ensures
        keeps_sizes(a, c),
{
    assert forall|i: int| 0 <= i < a.sections.len() implies (
    #[trigger] c.sections[i]).data.len() == a.sections[i].data.len() && c.sections[i].size
        == a.sections[i].size by {
        assert(b.sections[i].size == a.sections[i].size);
    }
}

/// A section more is growth.
pub proof fn lemma_grows_by_section(
    m: ObjectModel,
    segment: Seq<char>,
    name: Seq<char>,
    kind: SectionKind,
)
    ensures
        grows(m, m.with_section(segment, name, kind)),
{
}

/// Data more is growth.
pub proof fn lemma_grows_by_data(m: ObjectModel, i: nat, data: Seq<u8>, align: u64)
    requires
        i < m.sections.len(),
    ensures
        grows(m, m.with_data(i, data, align)),
{
}

/// Space more is growth.
pub proof fn lemma_grows_by_bss(m: ObjectModel, i: nat, size: u64, align: u64)
    requires
        i < m.sections.len(),
    ensures
        grows(m, m.with_bss(i, size, align)),
{
}

/// A symbol more is growth.
pub proof fn lemma_grows_by_symbol(m: ObjectModel, s: SymbolModel)
    ensures
        grows(m, m.with_symbol(s)),
{
}

/// A relocation more is growth.
pub proof fn lemma_grows_by_relocation(
    m: ObjectModel,
    i: nat,
    offset: u64,
    symbol: nat,
    kind: RelocationType,
    addend: int,
)
    requires
        i < m.sections.len(),
        m.takes_relocation(i, offset, kind, addend),
    ensures
        grows(m, m.with_relocation(i, offset, symbol, kind, addend)),
        keeps_sizes(m, m.with_relocation(i, offset, symbol, kind, addend)),
{
    let stored = addend + field_bias(m.machine, kind);
    lemma_le_bytes_len(stored % 0x1_0000_0000_0000_0000, 8);
    lemma_le_bytes_len(stored % 0x1_0000_0000, 4);
    assert(field_bytes(stored, field_width(kind)).len() == field_width(kind));
}

/// A reference adds at most a symbol.
pub proof fn lemma_grows_by_reference(
    l: LinkageModel,
    name: Seq<char>,
    spelling: Seq<char>,
    kind: SymbolKind,
)
    ensures
        grows(l.obj, l.with_undef(name, spelling, kind).obj),
        l.with_undef(name, spelling, kind).obj.sections == l.obj.sections,
        grows(l.obj, l.with_reference(name, spelling, kind).obj),
        l.with_reference(name, spelling, kind).obj.sections == l.obj.sections,
{
}

/// A function that is defined stays defined.
pub proof fn lemma_function_stays(
    a: ObjectModel,
    b: ObjectModel,
    name: Seq<char>,
    size: u64,
    code: Seq<u8>,
)
    requires
        grows(a, b),
    ensures
        defines_function(a, name, size, code.len()) ==> defines_function(
            b,
            name,
            size,
            code.len(),
        ),
        a.format == ObjectFormat::Elf && holds_function(a, name, size, code) ==> holds_function(
            b,
            name,
            size,
            code,
        ),
{
    if defines_function(a, name, size, code.len()) {
        let s = choose|s: int|
            0 <= s < a.symbols.len() && is_code_symbol(
                a,
                #[trigger] a.symbols[s],
                name,
                size,
                code.len(),
            );
        assert(b.symbols[s] == a.symbols[s]);
        let k = a.symbols[s].section->0 as int;
        assert(a.sections[k].data.len() <= b.sections[k].data.len());
        assert(is_code_symbol(b, b.symbols[s], name, size, code.len()));
    }
    if a.format == ObjectFormat::Elf && holds_function(a, name, size, code) {
        let s = choose|s: int|
            {
                let x = #[trigger] a.symbols[s];
                0 <= s < a.symbols.len() && is_code_symbol(a, x, name, size, code.len())
                    && a.sections[x.section->0 as int].data.subrange(
                    x.value as int,
                    x.value + code.len(),
                ) == code
            };
        let x = a.symbols[s];
        let k = x.section->0 as int;
        assert(b.symbols[s] == x);
        assert(a.sections[k].data.len() <= b.sections[k].data.len());
        assert forall|j: int| 0 <= j < code.len() implies b.sections[k].data[x.value + j]
            == code[j] by {
            assert(a.sections[k].data.subrange(x.value as int, x.value + code.len())[j]
                == code[j]);
        }
        assert(b.sections[k].data.subrange(x.value as int, x.value + code.len()) =~= code);
    }
}

/// A datum that is defined stays defined.
pub proof fn lemma_datum_stays(
    a: ObjectModel,
    b: ObjectModel,
    name: Seq<char>,
    value: u64,
    section: nat,
)
    requires
        grows(a, b),
        defines_datum(a, name, value, section),
    ensures
        defines_datum(b, name, value, section),
{
    let s = choose|s: int|
        0 <= s < a.symbols.len() && is_data_symbol(
            a,
            #[trigger] a.symbols[s],
            name,
            value,
            section,
        );
    assert(b.symbols[s] == a.symbols[s]);
    assert(is_data_symbol(b, b.symbols[s], name, value, section));
}

/// What an addressable object grew from was addressable.
pub proof fn lemma_addressable(a: ObjectModel, b: ObjectModel)
    requires
        grows(a, b),
        addressable(b),
    ensures
        addressable(a),
{
    assert forall|i: int| 0 <= i < a.sections.len() implies (#[trigger] a.sections[i]).data.len()
        <= u64::MAX by {
        assert(b.sections[i].data.len() <= u64::MAX);
    }
}

} // verus!
