//! Where an object has the code of a function and the relocations in it.
use vstd::prelude::*;

use crate::bytes::lemma_le_bytes_len;
use crate::linkage::LinkageModel;
use crate::objfile::{
    field_bias, field_bytes, field_width, mangled, ObjectFormat, ObjectModel, RelocationModel,
    RelocationType, SymbolKind,
};

verus! {

/// True when symbol `n` of the object is written as `name`.
pub open spec fn is_called(m: ObjectModel, n: nat, name: Seq<char>) -> bool {
    &&& n < m.symbols.len()
    &&& m.symbols[n as int].name == mangled(m.format, m.machine, name, m.symbols[n as int].kind)
}

/// True when each name means a symbol that is written as the spelling of the name.
pub open spec fn knows(l: LinkageModel, spell: spec_fn(Seq<char>) -> Seq<char>) -> bool {
    &&& forall|name: Seq<char>| #[trigger]
        l.local.contains_key(name) ==> is_called(l.obj, l.local[name] as nat, spell(name))
    &&& forall|name: Seq<char>| #[trigger]
        l.undef.contains_key(name) ==> is_called(l.obj, l.undef[name] as nat, spell(name))
}

/// A relocation that code calls for: where its field lies in the code, what it refers to,
/// and its kind and addend.
pub ghost struct Want {
    pub offset: u64,
    pub name: Seq<char>,
    pub kind: RelocationType,
    pub addend: int,
}

/// True when the fields lie in `n` bytes of code and no two share a byte.
pub open spec fn spaced(wants: Seq<Want>, n: nat) -> bool {
    &&& forall|i: int|
        0 <= i < wants.len() ==> (#[trigger] wants[i]).offset + field_width(wants[i].kind) <= n
    &&& forall|i: int, j: int|
        0 <= i < j < wants.len() ==> are_apart(#[trigger] wants[i], #[trigger] wants[j])
}

/// True when the fields share no byte.
pub open spec fn are_apart(a: Want, b: Want) -> bool {
    a.offset + field_width(a.kind) <= b.offset || b.offset + field_width(b.kind) <= a.offset
}

/// True when byte `j` of the code is in the field.
pub open spec fn in_field(w: Want, j: int) -> bool {
    w.offset <= j < w.offset + field_width(w.kind)
}

/// True when byte `j` of the code is in some field.
pub open spec fn in_fields(wants: Seq<Want>, j: int) -> bool {
    exists|i: int| 0 <= i < wants.len() && in_field(#[trigger] wants[i], j)
}

/// True when `p` is the relocation `w` of code that lies at `base`.
pub open spec fn is_wanted(m: ObjectModel, p: RelocationModel, base: int, w: Want) -> bool {
    &&& p.offset == base + w.offset
    &&& p.kind == w.kind
    &&& m.format == ObjectFormat::Elf ==> p.addend == w.addend
    &&& is_called(m, p.symbol, w.name)
}

/// True when the field of `w` in code at `base` holds these bytes.
pub open spec fn field_is(
    m: ObjectModel,
    sid: nat,
    base: int,
    w: Want,
    bytes: spec_fn(int) -> u8,
) -> bool {
    forall|b: int|
        0 <= b < field_width(w.kind) ==> #[trigger] m.sections[sid as int].data[base + w.offset + b]
            == bytes(b)
}

/// True when the field of `w` in code at `base` holds the addend, where relocations have
/// none of their own. A branch counts from the end of its field.
pub open spec fn field_holds(m: ObjectModel, sid: nat, base: int, w: Want) -> bool {
    m.format != ObjectFormat::Elf ==> {
        let stored = field_bytes(w.addend + field_bias(m.machine, w.kind), field_width(w.kind));
        field_is(m, sid, base, w, |b: int| stored[b])
    }
}

/// True when section `sid` has the code at `base`, but for the fields, and the first `n`
/// relocations from number `first` on; the other fields are zero.
pub open spec fn is_placed(
    m: ObjectModel,
    sid: nat,
    base: int,
    code: Seq<u8>,
    wants: Seq<Want>,
    first: int,
    n: int,
) -> bool {
    &&& sid < m.sections.len()
    &&& 0 <= base
    &&& base + code.len() <= m.sections[sid as int].data.len()
    &&& 0 <= first
    &&& 0 <= n <= wants.len()
    &&& first + n <= m.sections[sid as int].relocations.len()
    &&& forall|i: int|
        0 <= i < n ==> is_wanted(
            m,
            m.sections[sid as int].relocations[first + i],
            base,
            #[trigger] wants[i],
        )
    &&& forall|i: int| 0 <= i < n ==> field_holds(m, sid, base, #[trigger] wants[i])
    &&& m.format != ObjectFormat::Elf ==> forall|i: int|
        n <= i < wants.len() ==> field_is(m, sid, base, #[trigger] wants[i], |b: int| 0u8)
    &&& forall|j: int|
        0 <= j < code.len() && (m.format != ObjectFormat::Elf ==> !in_fields(wants, j))
            ==> #[trigger] m.sections[sid as int].data[base + j] == code[j]
}

/// True when section `sid` has the code at `base`, but for the fields, and all its
/// relocations, from number `first` on. The fields hold the addends.
pub open spec fn has_code(
    m: ObjectModel,
    sid: nat,
    base: int,
    code: Seq<u8>,
    wants: Seq<Want>,
    first: int,
) -> bool {
    is_placed(m, sid, base, code, wants, first, wants.len() as int)
}

/// True when `b` has what `a` has: the symbols, and of section `sid` the relocations and
/// the first `limit` bytes.
pub open spec fn keeps_below(a: ObjectModel, b: ObjectModel, sid: nat, limit: int) -> bool {
    &&& a.format == b.format
    &&& a.machine == b.machine
    &&& a.symbols.len() <= b.symbols.len()
    &&& forall|i: int| 0 <= i < a.symbols.len() ==> #[trigger] b.symbols[i] == a.symbols[i]
    &&& sid < a.sections.len() <= b.sections.len()
    &&& limit <= a.sections[sid as int].data.len() <= b.sections[sid as int].data.len()
    &&& a.sections[sid as int].relocations.len() <= b.sections[sid as int].relocations.len()
    &&& forall|i: int|
        0 <= i < a.sections[sid as int].relocations.len()
            ==> #[trigger] b.sections[sid as int].relocations[i]
            == a.sections[sid as int].relocations[i]
    &&& forall|j: int|
        0 <= j < limit ==> #[trigger] b.sections[sid as int].data[j]
            == a.sections[sid as int].data[j]
}

/// What is kept twice is kept.
pub proof fn lemma_keeps_on(
    a: ObjectModel,
    b: ObjectModel,
    c: ObjectModel,
    sid: nat,
    limit: int,
    far: int,
)
    requires
        keeps_below(a, b, sid, limit),
        keeps_below(b, c, sid, far),
        limit <= far,
    ensures
        keeps_below(a, c, sid, limit),
{
    assert forall|i: int| 0 <= i < a.symbols.len() implies #[trigger] c.symbols[i]
        == a.symbols[i] by {
        assert(b.symbols[i] == a.symbols[i]);
    }
    assert forall|i: int|
        0 <= i < a.sections[sid as int].relocations.len() implies #[trigger] c.sections[sid as int].relocations[i]
        == a.sections[sid as int].relocations[i] by {
        assert(b.sections[sid as int].relocations[i] == a.sections[sid as int].relocations[i]);
    }
    assert forall|j: int| 0 <= j < limit implies #[trigger] c.sections[sid as int].data[j]
        == a.sections[sid as int].data[j] by {
        assert(b.sections[sid as int].data[j] == a.sections[sid as int].data[j]);
    }
}

/// A symbol keeps its name.
pub proof fn lemma_called_stays(a: ObjectModel, b: ObjectModel, n: nat, name: Seq<char>)
    requires
        a.format == b.format,
        a.machine == b.machine,
        a.symbols.len() <= b.symbols.len(),
        forall|i: int| 0 <= i < a.symbols.len() ==> #[trigger] b.symbols[i] == a.symbols[i],
        is_called(a, n, name),
    ensures
        is_called(b, n, name),
{
    assert(b.symbols[n as int] == a.symbols[n as int]);
}

/// Code that lies below what changes stays.
pub proof fn lemma_code_stays(
    a: ObjectModel,
    b: ObjectModel,
    sid: nat,
    base: int,
    code: Seq<u8>,
    wants: Seq<Want>,
    first: int,
    n: int,
    limit: int,
)
    requires
        keeps_below(a, b, sid, limit),
        spaced(wants, code.len()),
        is_placed(a, sid, base, code, wants, first, n),
        base + code.len() <= limit,
    ensures
        is_placed(b, sid, base, code, wants, first, n),
{
    let k = sid as int;
    assert forall|i: int| 0 <= i < n implies is_wanted(
        b,
        b.sections[k].relocations[first + i],
        base,
        #[trigger] wants[i],
    ) by {
        assert(is_wanted(a, a.sections[k].relocations[first + i], base, wants[i]));
        assert(b.sections[k].relocations[first + i] == a.sections[k].relocations[first + i]);
        let p = a.sections[k].relocations[first + i];
        lemma_called_stays(a, b, p.symbol, wants[i].name);
    }
    assert forall|i: int| 0 <= i < n implies field_holds(b, sid, base, #[trigger] wants[i]) by {
        let w = wants[i];
        assert(field_holds(a, sid, base, w));
        if a.format != ObjectFormat::Elf {
            let stored = field_bytes(w.addend + field_bias(a.machine, w.kind), field_width(w.kind));
            assert forall|x: int|
                0 <= x < field_width(w.kind) implies #[trigger] b.sections[k].data[base + w.offset
                + x] == stored[x] by {
                assert(a.sections[k].data[base + w.offset + x] == stored[x]);
            }
        }
    }
    if a.format != ObjectFormat::Elf {
        assert forall|i: int| n <= i < wants.len() implies field_is(
            b,
            sid,
            base,
            #[trigger] wants[i],
            |x: int| 0u8,
        ) by {
            let w = wants[i];
            assert(field_is(a, sid, base, w, |x: int| 0u8));
            assert forall|x: int|
                0 <= x < field_width(w.kind) implies #[trigger] b.sections[k].data[base + w.offset
                + x] == 0u8 by {
                assert(a.sections[k].data[base + w.offset + x] == 0u8);
            }
        }
    }
}

/// A relocation more.
pub proof fn lemma_place(
    m0: ObjectModel,
    m: ObjectModel,
    num: nat,
    sid: nat,
    base: int,
    code: Seq<u8>,
    wants: Seq<Want>,
    first: int,
    n: int,
)
    requires
        spaced(wants, code.len()),
        is_placed(m0, sid, base, code, wants, first, n),
        first + n == m0.sections[sid as int].relocations.len(),
        n < wants.len(),
        base + code.len() <= u64::MAX,
        m.format == m0.format,
        m.machine == m0.machine,
        m.sections == m0.sections,
        m0.symbols.len() <= m.symbols.len(),
        forall|i: int| 0 <= i < m0.symbols.len() ==> #[trigger] m.symbols[i] == m0.symbols[i],
        is_called(m, num, wants[n].name),
    ensures
        ({
            let w = wants[n];
            let next = m.with_relocation(sid, (base + w.offset) as u64, num, w.kind, w.addend);
            &&& is_placed(next, sid, base, code, wants, first, n + 1)
            &&& next.sections[sid as int].relocations.len() == first + n + 1
            &&& keeps_below(m0, next, sid, base)
            &&& next.sections.len() == m0.sections.len()
            &&& next.sections[sid as int].data.len() == m0.sections[sid as int].data.len()
            &&& next.sections[sid as int].size == m0.sections[sid as int].size
            &&& next.symbols == m.symbols
        }),
{
    let k = sid as int;
    let w = wants[n];
    let at = (base + w.offset) as u64;
    let next = m.with_relocation(sid, at, num, w.kind, w.addend);
    let stored = w.addend + field_bias(m.machine, w.kind);
    let width = field_width(w.kind);
    let bytes = field_bytes(stored, width);
    lemma_le_bytes_len(stored % 0x1_0000_0000_0000_0000, 8);
    lemma_le_bytes_len(stored % 0x1_0000_0000, 4);
    let before = m0.sections[k].data;
    let after = next.sections[k].data;
    assert(w.offset + width <= code.len());
    assert(after.len() == before.len());
    assert(forall|j: int|
        0 <= j < before.len() && !(at <= j < at + width) ==> #[trigger] after[j] == before[j]);
    assert(m0.format == ObjectFormat::Elf ==> after == before);
    lemma_zero_field();
    assert(field_is(m0, sid, base, w, |x: int| 0u8) || m0.format == ObjectFormat::Elf);
    if m0.format != ObjectFormat::Elf {
        assert forall|x: int| 0 <= x < width implies #[trigger] after[base + w.offset + x]
            == bytes[x] by {
            if stored == 0 {
                assert(before[base + w.offset + x] == 0u8);
            }
        }
    }
    assert(field_holds(next, sid, base, w));
    assert(is_called(next, num, w.name));
    assert(next.sections[k].relocations[first + n].offset == base + w.offset);
    assert(is_wanted(next, next.sections[k].relocations[first + n], base, w));
    assert forall|i: int| 0 <= i < n + 1 implies is_wanted(
        next,
        next.sections[k].relocations[first + i],
        base,
        #[trigger] wants[i],
    ) by {
        if i < n {
            let p = m0.sections[k].relocations[first + i];
            assert(is_wanted(m0, p, base, wants[i]));
            assert(next.sections[k].relocations[first + i] == p);
            lemma_called_stays(m0, next, p.symbol, wants[i].name);
        }
    }
    assert forall|i: int| 0 <= i < n + 1 implies field_holds(next, sid, base, #[trigger] wants[i]) by {
        if i < n && m0.format != ObjectFormat::Elf {
            let v = wants[i];
            assert(field_holds(m0, sid, base, v));
            assert(are_apart(wants[i], wants[n]));
            let old_bytes = field_bytes(
                v.addend + field_bias(m0.machine, v.kind),
                field_width(v.kind),
            );
            assert forall|x: int|
                0 <= x < field_width(v.kind) implies #[trigger] after[base + v.offset + x]
                == old_bytes[x] by {
                assert(before[base + v.offset + x] == old_bytes[x]);
            }
        }
    }
    if m0.format != ObjectFormat::Elf {
        assert forall|i: int| n + 1 <= i < wants.len() implies field_is(
            next,
            sid,
            base,
            #[trigger] wants[i],
            |x: int| 0u8,
        ) by {
            let v = wants[i];
            assert(field_is(m0, sid, base, v, |x: int| 0u8));
            assert(are_apart(wants[n], wants[i]));
            assert forall|x: int|
                0 <= x < field_width(v.kind) implies #[trigger] after[base + v.offset + x]
                == 0u8 by {
                assert(before[base + v.offset + x] == 0u8);
            }
        }
    }
    assert forall|j: int|
        0 <= j < code.len() && (next.format != ObjectFormat::Elf ==> !in_fields(
            wants,
            j,
        )) implies #[trigger] next.sections[k].data[base + j] == code[j] by {
        assert(before[base + j] == code[j]);
        if next.format != ObjectFormat::Elf && in_field(w, j) {
            assert(in_field(wants[n], j));
            assert(in_fields(wants, j));
        }
    }
}

proof fn lemma_zero_field()
    ensures
        forall|x: int| 0 <= x < 8 ==> #[trigger] field_bytes(0, 8)[x] == 0u8,
        forall|x: int| 0 <= x < 4 ==> #[trigger] field_bytes(0, 4)[x] == 0u8,
{
    reveal_with_fuel(crate::bytes::le_bytes, 9);
    assert(field_bytes(0, 8) =~= seq![0u8, 0u8, 0u8, 0u8, 0u8, 0u8, 0u8, 0u8]);
    assert(field_bytes(0, 4) =~= seq![0u8, 0u8, 0u8, 0u8]);
}

/// A reference finds, or adds, a symbol that is written as its name is spelt.
pub proof fn lemma_reference(
    l: LinkageModel,
    spell: spec_fn(Seq<char>) -> Seq<char>,
    name: Seq<char>,
    kind: SymbolKind,
)
    requires
        knows(l, spell),
    ensures
        ({
            let next = l.with_reference(name, spell(name), kind);
            &&& next.obj.symbols.len() <= usize::MAX ==> knows(next, spell) && is_called(
                next.obj,
                l.number(name) as nat,
                spell(name),
            )
            &&& next.obj.sections == l.obj.sections
            &&& next.obj.format == l.obj.format
            &&& next.obj.machine == l.obj.machine
            &&& l.obj.symbols.len() <= next.obj.symbols.len()
            &&& forall|i: int|
                0 <= i < l.obj.symbols.len() ==> #[trigger] next.obj.symbols[i] == l.obj.symbols[i]
        }),
        ({
            let next = l.with_undef(name, spell(name), kind);
            &&& next.obj.symbols.len() <= usize::MAX ==> knows(next, spell) && is_called(
                next.obj,
                l.undef_number(name) as nat,
                spell(name),
            )
            &&& next.obj.sections == l.obj.sections
            &&& next.obj.format == l.obj.format
            &&& next.obj.machine == l.obj.machine
            &&& l.obj.symbols.len() <= next.obj.symbols.len()
            &&& forall|i: int|
                0 <= i < l.obj.symbols.len() ==> #[trigger] next.obj.symbols[i] == l.obj.symbols[i]
        }),
{
    let next = l.with_undef(name, spell(name), kind);
    if next.obj.symbols.len() <= usize::MAX && !l.undef.contains_key(name) {
        let k = l.obj.symbols.len() as int;
        assert(next.obj.symbols[k].name == mangled(
            l.obj.format,
            l.obj.machine,
            spell(name),
            kind,
        ));
        assert(is_called(next.obj, k as nat, spell(name)));
        lemma_knows_over(l, next, spell);
        assert(knows(next, spell));
    }
}

/// Names stay known while symbols are added.
pub proof fn lemma_knows_over(
    l: LinkageModel,
    next: LinkageModel,
    spell: spec_fn(Seq<char>) -> Seq<char>,
)
    requires
        knows(l, spell),
        next.obj.format == l.obj.format,
        next.obj.machine == l.obj.machine,
        l.obj.symbols.len() <= next.obj.symbols.len(),
        forall|i: int|
            0 <= i < l.obj.symbols.len() ==> #[trigger] next.obj.symbols[i] == l.obj.symbols[i],
    ensures
        forall|name: Seq<char>| #[trigger]
            l.local.contains_key(name) ==> is_called(next.obj, l.local[name] as nat, spell(name)),
        forall|name: Seq<char>| #[trigger]
            l.undef.contains_key(name) ==> is_called(next.obj, l.undef[name] as nat, spell(name)),
        next.local == l.local && next.undef == l.undef ==> knows(next, spell),
{
    assert forall|name: Seq<char>| #[trigger] l.local.contains_key(name) implies is_called(
        next.obj,
        l.local[name] as nat,
        spell(name),
    ) by {
        lemma_called_stays(l.obj, next.obj, l.local[name] as nat, spell(name));
    }
    assert forall|name: Seq<char>| #[trigger] l.undef.contains_key(name) implies is_called(
        next.obj,
        l.undef[name] as nat,
        spell(name),
    ) by {
        lemma_called_stays(l.obj, next.obj, l.undef[name] as nat, spell(name));
    }
}

/// A definition is known by its name.
pub proof fn lemma_definition(
    l: LinkageModel,
    spell: spec_fn(Seq<char>) -> Seq<char>,
    name: Seq<char>,
    value: u64,
    size: u64,
    kind: SymbolKind,
    global: bool,
    weak: bool,
    section: usize,
)
    requires
        knows(l, spell),
        l.obj.symbols.len() + 1 <= usize::MAX,
    ensures
        knows(
            l.with_definition(name, spell(name), value, size, kind, global, weak, section),
            spell,
        ),
{
    let next = l.with_definition(name, spell(name), value, size, kind, global, weak, section);
    lemma_knows_over(l, next, spell);
    assert(is_called(next.obj, l.obj.symbols.len() as nat, spell(name)));
}

/// True when `b` has what `a` has, but for bytes: the symbols, the sections under their
/// names, and the relocations in them.
pub open spec fn extends(a: ObjectModel, b: ObjectModel) -> bool {
    &&& a.format == b.format
    &&& a.machine == b.machine
    &&& a.symbols.len() <= b.symbols.len()
    &&& forall|i: int| 0 <= i < a.symbols.len() ==> #[trigger] b.symbols[i] == a.symbols[i]
    &&& a.sections.len() <= b.sections.len()
    &&& forall|i: int|
        0 <= i < a.sections.len() ==> (#[trigger] b.sections[i]).name == a.sections[i].name
            && a.sections[i].relocations.len() <= b.sections[i].relocations.len()
    &&& forall|i: int, j: int|
        0 <= i < a.sections.len() && 0 <= j < a.sections[i].relocations.len()
            ==> #[trigger] b.sections[i].relocations[j] == a.sections[i].relocations[j]
}

/// What is extended twice is extended.
pub proof fn lemma_extends_on(a: ObjectModel, b: ObjectModel, c: ObjectModel)
    requires
        extends(a, b),
        extends(b, c),
    ensures
        extends(a, c),
{
    assert forall|i: int| 0 <= i < a.symbols.len() implies #[trigger] c.symbols[i]
        == a.symbols[i] by {
        assert(b.symbols[i] == a.symbols[i]);
    }
    assert forall|i: int| 0 <= i < a.sections.len() implies (#[trigger] c.sections[i]).name
        == a.sections[i].name && a.sections[i].relocations.len()
        <= c.sections[i].relocations.len() by {
        assert(b.sections[i].name == a.sections[i].name);
    }
    assert forall|i: int, j: int|
        0 <= i < a.sections.len() && 0 <= j
            < a.sections[i].relocations.len() implies #[trigger] c.sections[i].relocations[j]
        == a.sections[i].relocations[j] by {
        assert(b.sections[i].name == a.sections[i].name);
        assert(b.sections[i].relocations[j] == a.sections[i].relocations[j]);
    }
}

/// True when section `sid` has a relocation at `at` of this kind, against a symbol that is
/// written as `name`, and with this addend where relocations have one of their own.
pub open spec fn has_relocation(
    m: ObjectModel,
    sid: int,
    p: int,
    at: int,
    kind: RelocationType,
    name: Seq<char>,
    addend: int,
) -> bool {
    &&& 0 <= sid < m.sections.len()
    &&& 0 <= p < m.sections[sid].relocations.len()
    &&& m.sections[sid].relocations[p].offset == at
    &&& m.sections[sid].relocations[p].kind == kind
    &&& is_called(m, m.sections[sid].relocations[p].symbol, name)
    &&& m.format == ObjectFormat::Elf ==> m.sections[sid].relocations[p].addend == addend
}

/// A relocation stays.
pub proof fn lemma_relocation_stays(
    a: ObjectModel,
    b: ObjectModel,
    sid: int,
    p: int,
    at: int,
    kind: RelocationType,
    name: Seq<char>,
    addend: int,
)
    requires
        extends(a, b),
        has_relocation(a, sid, p, at, kind, name, addend),
    ensures
        has_relocation(b, sid, p, at, kind, name, addend),
{
    assert(b.sections[sid].name == a.sections[sid].name);
    assert(b.sections[sid].relocations[p] == a.sections[sid].relocations[p]);
    lemma_called_stays(a, b, a.sections[sid].relocations[p].symbol, name);
}

} // verus!
