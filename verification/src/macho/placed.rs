//! Where the object of a unit has the functions of the unit and what they refer to.
use vstd::prelude::*;

use super::cu::{MachoCompilationUnit, MachoFunction, MachoVariable};
use super::emit::{
    cleared_from, function_placed, keys_in, live_among, live_functions, machine_of, no_stats,
    unit_object, with_function, with_functions, with_labels, with_relocs, written_name, UnitModel,
};
use super::image::{section_index, MachoContext, MachoSection};
use crate::bytes::{patched, zeros};
use crate::growth::addressable;
use crate::linkage::LinkageModel;
use crate::objfile::{
    field_width, mangled, ObjectFormat, ObjectModel, RelocationType, SectionKind, SymbolKind,
};
use crate::ordered::{
    by_address, keys_between, lemma_keys_between, lemma_stable_sorted, lemma_stable_sorted_contains,
    lemma_stable_sorted_numbers,
};
use crate::placing::{
    are_apart, has_code, in_field, in_fields, is_placed, keeps_below, knows, lemma_code_stays,
    lemma_definition, lemma_keeps_on, lemma_knows_over, lemma_place, lemma_reference, spaced,
    Want,
};
use crate::x86::{law_fields_lie_apart, recovered, RelocView};

verus! {

broadcast use {
    vstd::std_specs::btree::group_btree_axioms,
    vstd::hash_map::group_hash_map_axioms,
};

/// How names are spelt: an empty one is replaced.
pub open spec fn spelling() -> spec_fn(Seq<char>) -> Seq<char> {
    |name: Seq<char>| written_name(name)
}

/// The relocations that code calls for: branches.
pub open spec fn wanted(relocs: Seq<RelocView>) -> Seq<Want> {
    relocs.map_values(
        |r: RelocView|
            Want {
                offset: r.offset,
                name: written_name(r.target),
                kind: RelocationType::MachOBranch,
                addend: r.addend as int,
            },
    )
}

/// True when the function takes up space in `text` and its bytes lie in the section's data.
pub open spec fn is_live(text: MachoSection, f: MachoFunction) -> bool {
    &&& f.size > 0
    &&& text.addr <= f.addr < text.addr + text.size
    &&& f.addr - text.addr + f.size <= text.data@.len()
}

/// The code of a function in the image.
pub open spec fn code_of(text: MachoSection, f: MachoFunction) -> Seq<u8> {
    text.data@.subrange(f.addr - text.addr, f.addr - text.addr + f.size)
}

/// The relocations that recovery finds in a function.
pub open spec fn wants_of(ctx: &MachoContext, text: MachoSection, f: MachoFunction) -> Seq<Want> {
    wanted(recovered(code_of(text, f), f.addr, f.size, &ctx.symbols).relocs)
}

/// True when symbol `s` is a label for the datum at `k`, which lies in the function at
/// `addr` whose code lies at `base`.
pub open spec fn is_label(
    m: ObjectModel,
    s: int,
    v: MachoVariable,
    k: u64,
    addr: u64,
    base: int,
) -> bool {
    &&& 0 <= s < m.symbols.len()
    &&& exists|name: Seq<char>| #[trigger]
        v.goes_by(name) && m.symbols[s].name == mangled(
            m.format,
            m.machine,
            written_name(name),
            SymbolKind::Label,
        )
    &&& m.symbols[s].kind == SymbolKind::Label
    &&& m.symbols[s].value == base + (k - addr)
    &&& m.symbols[s].section == Some(0nat)
    &&& m.symbols[s].global == v.external
}

/// True when each datum inside the function has a label at its distance from the start.
pub open spec fn has_labels(
    m: ObjectModel,
    variables: Map<u64, MachoVariable>,
    addr: u64,
    size: u64,
    base: int,
) -> bool {
    forall|k: u64| #[trigger]
        variables.contains_key(k) && addr < k < addr + size ==> exists|s: int| #[trigger]
            is_label(m, s, variables[k], k, addr, base)
}

/// True when symbol `s` is that of the function, and the object's section has the code of
/// the function where the symbol says, with the relocations that recovery found in it from
/// number `first` on.
pub open spec fn has_function(
    m: ObjectModel,
    ctx: &MachoContext,
    text: MachoSection,
    f: MachoFunction,
    s: int,
    first: int,
) -> bool {
    &&& 0 <= s < m.symbols.len()
    &&& exists|name: Seq<char>| #[trigger]
        f.goes_by(name) && m.symbols[s].name == mangled(
            m.format,
            m.machine,
            written_name(name),
            SymbolKind::Text,
        )
    &&& m.symbols[s].kind == SymbolKind::Text
    &&& m.symbols[s].size == f.size
    &&& m.symbols[s].section == Some(0nat)
    &&& m.symbols[s].global == f.external
    &&& has_code(
        m,
        0,
        m.symbols[s].value as int,
        code_of(text, f),
        wants_of(ctx, text, f),
        first,
    )
    &&& has_labels(m, ctx.symbols.variables@, f.addr, f.size, m.symbols[s].value as int)
}

/// What holds of the object of a unit before a function is added.
spec fn is_ready(l: LinkageModel) -> bool {
    &&& knows(l, spelling())
    &&& l.obj.format == ObjectFormat::MachO
    &&& l.obj.sections.len() == 1
    &&& l.obj.sections[0].size == l.obj.sections[0].data.len()
}

proof fn lemma_more_symbols(
    l: LinkageModel,
    relocs: Seq<RelocView>,
    base: u64,
    sid: usize,
    i: int,
)
    requires
        with_relocs(l, relocs, base, sid, i) is Some,
    ensures
        l.obj.symbols.len() <= with_relocs(l, relocs, base, sid, i)->0.obj.symbols.len(),
    decreases relocs.len() - i,
{
    if 0 <= i < relocs.len() {
        let r = relocs[i];
        let m = l.with_reference(r.target, written_name(r.target), SymbolKind::Unknown);
        let at = (base + r.offset) as u64;
        let added = m.over(
            m.obj.with_relocation(
                sid as nat,
                at,
                l.number(r.target) as nat,
                RelocationType::MachOBranch,
                r.addend as int,
            ),
        );
        if m.obj.takes_relocation(sid as nat, at, RelocationType::MachOBranch, r.addend as int) {
            lemma_more_symbols(added, relocs, base, sid, i + 1);
        }
    }
}

proof fn lemma_relocs(
    l: LinkageModel,
    relocs: Seq<RelocView>,
    base: u64,
    i: int,
    code: Seq<u8>,
    first: int,
)
    requires
        is_ready(l),
        0 <= i <= relocs.len(),
        spaced(wanted(relocs), code.len()),
        is_placed(l.obj, 0, base as int, code, wanted(relocs), first, i),
        first + i == l.obj.sections[0].relocations.len(),
        base + code.len() <= u64::MAX,
        with_relocs(l, relocs, base, 0, i) is Some,
        with_relocs(l, relocs, base, 0, i)->0.obj.symbols.len() <= usize::MAX,
    ensures
        ({
            let end = with_relocs(l, relocs, base, 0, i)->0;
            &&& is_ready(end)
            &&& has_code(end.obj, 0, base as int, code, wanted(relocs), first)
            &&& first + relocs.len() == end.obj.sections[0].relocations.len()
            &&& keeps_below(l.obj, end.obj, 0, base as int)
            &&& end.obj.sections[0].data.len() == l.obj.sections[0].data.len()
        }),
    decreases relocs.len() - i,
{
    if i < relocs.len() {
        let r = relocs[i];
        let w = wanted(relocs)[i];
        let m = l.with_reference(r.target, written_name(r.target), SymbolKind::Unknown);
        assert(spelling()(r.target) == written_name(r.target));
        lemma_reference(l, spelling(), r.target, SymbolKind::Unknown);
        let at = (base + r.offset) as u64;
        let n = l.number(r.target) as nat;
        let added = m.over(
            m.obj.with_relocation(0, at, n, RelocationType::MachOBranch, r.addend as int),
        );
        lemma_more_symbols(added, relocs, base, 0, i + 1);
        lemma_place(l.obj, m.obj, n, 0, base as int, code, wanted(relocs), first, i);
        lemma_knows_over(m, added, spelling());
        lemma_relocs(added, relocs, base, i + 1, code, first);
        let end = with_relocs(l, relocs, base, 0, i)->0;
        lemma_keeps_on(l.obj, added.obj, end.obj, 0, base as int, base as int);
    }
}

proof fn lemma_labels(
    l: LinkageModel,
    keys: Seq<u64>,
    variables: Map<u64, MachoVariable>,
    addr: u64,
    base: u64,
    i: int,
)
    requires
        0 <= i <= keys.len(),
        knows(l, spelling()),
        with_labels(l, keys, variables, addr, base, 0, i).obj.symbols.len() <= usize::MAX,
    ensures
        ({
            let end = with_labels(l, keys, variables, addr, base, 0, i);
            &&& knows(end, spelling())
            &&& end.obj.sections == l.obj.sections
            &&& end.obj.format == l.obj.format
            &&& end.obj.machine == l.obj.machine
            &&& l.obj.symbols.len() <= end.obj.symbols.len()
            &&& forall|j: int|
                0 <= j < l.obj.symbols.len() ==> #[trigger] end.obj.symbols[j] == l.obj.symbols[j]
            &&& forall|j: int|
                i <= j < keys.len() && #[trigger] keys[j] != addr && addr <= keys[j] && base + (
                keys[j] - addr) <= u64::MAX ==> exists|s: int| #[trigger]
                    is_label(end.obj, s, variables[keys[j]], keys[j], addr, base as int)
        }),
    decreases keys.len() - i,
{
    if i < keys.len() {
        let k = keys[i];
        let v = variables[k];
        let name = v.spec_symbol_name();
        let value = (base + (k - addr)) as u64;
        let next = if k == addr {
            l
        } else {
            l.with_definition(
                name,
                written_name(name),
                value,
                0,
                SymbolKind::Label,
                v.external,
                false,
                0,
            )
        };
        let end = with_labels(l, keys, variables, addr, base, 0, i);
        lemma_label_symbols(next, keys, variables, addr, base, i + 1);
        if k != addr {
            assert(spelling()(name) == written_name(name));
            lemma_definition(
                l,
                spelling(),
                name,
                value,
                0,
                SymbolKind::Label,
                v.external,
                false,
                0,
            );
        }
        lemma_labels(next, keys, variables, addr, base, i + 1);
        assert forall|j: int|
            0 <= j < l.obj.symbols.len() implies #[trigger] end.obj.symbols[j]
            == l.obj.symbols[j] by {
            assert(next.obj.symbols[j] == l.obj.symbols[j]);
        }
        assert forall|j: int|
            i <= j < keys.len() && #[trigger] keys[j] != addr && addr <= keys[j] && base + (keys[j]
                - addr) <= u64::MAX implies exists|s: int| #[trigger]
            is_label(end.obj, s, variables[keys[j]], keys[j], addr, base as int) by {
            if j == i {
                let s = l.obj.symbols.len() as int;
                assert(v.goes_by(name));
                assert(next.obj.symbols[s] == end.obj.symbols[s]);
                assert(is_label(end.obj, s, v, k, addr, base as int));
            }
        }
    }
}

proof fn lemma_label_symbols(
    l: LinkageModel,
    keys: Seq<u64>,
    variables: Map<u64, MachoVariable>,
    addr: u64,
    base: u64,
    i: int,
)
    ensures
        l.obj.symbols.len() <= with_labels(
            l,
            keys,
            variables,
            addr,
            base,
            0,
            i,
        ).obj.symbols.len(),
    decreases keys.len() - i,
{
    if 0 <= i < keys.len() {
        let k = keys[i];
        let v = variables[k];
        let next = if k == addr {
            l
        } else {
            l.with_definition(
                v.spec_symbol_name(),
                written_name(v.spec_symbol_name()),
                (base + (k - addr)) as u64,
                0,
                SymbolKind::Label,
                v.external,
                false,
                0,
            )
        };
        lemma_label_symbols(next, keys, variables, addr, base, i + 1);
    }
}

/// Clearing the fields changes nothing else.
proof fn lemma_cleared(code: Seq<u8>, relocs: Seq<RelocView>, i: int)
    requires
        0 <= i <= relocs.len(),
        forall|k: int|
            0 <= k < relocs.len() ==> (#[trigger] relocs[k]).offset + 4 <= code.len(),
    ensures
        ({
            let end = cleared_from(code, relocs, i);
            &&& end.len() == code.len()
            &&& forall|j: int|
                0 <= j < code.len() ==> #[trigger] end[j] == if exists|k: int|
                    i <= k < relocs.len() && (#[trigger] relocs[k]).offset <= j < relocs[k].offset
                        + 4 {
                    0u8
                } else {
                    code[j]
                }
        }),
    decreases relocs.len() - i,
{
    if i < relocs.len() {
        let at = relocs[i].offset as int;
        let next = patched(code, at, zeros(4));
        assert(relocs[i].offset + 4 <= code.len());
        assert(next.len() == code.len());
        lemma_cleared(next, relocs, i + 1);
        let end = cleared_from(code, relocs, i);
        assert forall|j: int| 0 <= j < code.len() implies #[trigger] end[j] == if exists|k: int|
            i <= k < relocs.len() && (#[trigger] relocs[k]).offset <= j < relocs[k].offset + 4 {
            0u8
        } else {
            code[j]
        } by {
            if at <= j < at + 4 {
                assert(next[j] == 0u8);
                assert(relocs[i].offset <= j < relocs[i].offset + 4);
            } else {
                assert(next[j] == code[j]);
            }
        }
    }
}

/// The fields of a function lie in its code, and no two share a byte.
proof fn lemma_spaced(ctx: &MachoContext, text: MachoSection, f: MachoFunction)
    requires
        is_live(text, f),
    ensures
        spaced(wants_of(ctx, text, f), f.size as nat),
{
    let code = code_of(text, f);
    let relocs = recovered(code, f.addr, f.size, &ctx.symbols).relocs;
    let wants = wants_of(ctx, text, f);
    law_fields_lie_apart(code, f.addr, f.size, &ctx.symbols);
    assert forall|i: int| 0 <= i < wants.len() implies (#[trigger] wants[i]).offset
        + field_width(wants[i].kind) <= f.size by {
        assert(wants[i].offset == relocs[i].offset);
    }
    assert forall|i: int, j: int| 0 <= i < j < wants.len() implies are_apart(
        #[trigger] wants[i],
        #[trigger] wants[j],
    ) by {
        assert(wants[i].offset == relocs[i].offset && wants[j].offset == relocs[j].offset);
    }
}

/// What a function adds.
#[verifier::rlimit(40)]
proof fn lemma_function(u: UnitModel, ctx: &MachoContext, text: MachoSection, f: MachoFunction)
    requires
        is_ready(u.l),
        is_live(text, f),
        with_function(u, ctx, text, f, 0) is Some,
        with_function(u, ctx, text, f, 0)->0.l.obj.symbols.len() <= usize::MAX,
        addressable(with_function(u, ctx, text, f, 0)->0.l.obj),
    ensures
        ({
            let v = with_function(u, ctx, text, f, 0)->0;
            let first = u.l.obj.sections[0].relocations.len();
            &&& is_ready(v.l)
            &&& keeps_below(u.l.obj, v.l.obj, 0, u.l.obj.sections[0].data.len() as int)
            &&& v.l.obj.sections[0].relocations.len() == first + wants_of(ctx, text, f).len()
            &&& has_function(
                v.l.obj,
                ctx,
                text,
                f,
                u.l.obj.symbols.len() as int,
                first as int,
            )
        }),
{
    let code = code_of(text, f);
    let out = recovered(code, f.addr, f.size, &ctx.symbols);
    let relocs = out.relocs;
    let wants = wanted(relocs);
    assert(wants == wants_of(ctx, text, f));
    assert(code.len() == f.size);
    lemma_spaced(ctx, text, f);
    assert forall|k: int| 0 <= k < relocs.len() implies (#[trigger] relocs[k]).offset + 4
        <= code.len() by {
        assert(wants[k].offset == relocs[k].offset);
    }
    lemma_cleared(code, relocs, 0);
    let cleared = cleared_from(code, relocs, 0);
    let at = u.l.obj.append_offset(0, 4);
    let base = at as u64;
    let variables = ctx.symbols.variables@;
    let name = f.spec_symbol_name();
    let filled = u.l.over(u.l.obj.with_data(0, cleared, 4));
    let named = filled.with_definition(
        name,
        written_name(name),
        base,
        f.size,
        SymbolKind::Text,
        f.external,
        false,
        0,
    );
    let keys = keys_in(variables.dom(), f.addr, f.size);
    let placed = function_placed(u.l, cleared, f, variables, base, 0);
    assert(placed == with_labels(named, keys, variables, f.addr, base, 0, 0));
    let v = with_function(u, ctx, text, f, 0)->0;
    assert(with_relocs(placed, relocs, base, 0, 0) == Some(v.l));
    lemma_more_symbols(placed, relocs, base, 0, 0);
    lemma_label_symbols(named, keys, variables, f.addr, base, 0);
    lemma_knows_over(u.l, filled, spelling());
    assert(spelling()(name) == written_name(name));
    lemma_definition(
        filled,
        spelling(),
        name,
        base,
        f.size,
        SymbolKind::Text,
        f.external,
        false,
        0,
    );
    lemma_labels(named, keys, variables, f.addr, base, 0);
    let before = u.l.obj.sections[0].data;
    let data = filled.obj.sections[0].data;
    assert(placed.obj.sections[0].data == data);
    assert(at >= before.len());
    assert(data.len() == at + cleared.len());
    assert forall|j: int| 0 <= j < cleared.len() implies #[trigger] data[at + j] == cleared[j] by {}
    lemma_same_len(placed, relocs, base, 0);
    assert(v.l.obj.sections[0].data.len() == data.len());
    assert(base == at);
    let first = u.l.obj.sections[0].relocations.len() as int;
    assert(is_placed(placed.obj, 0, base as int, code, wants, first, 0)) by {
        assert forall|i: int| 0 <= i < wants.len() implies crate::placing::field_is(
            placed.obj,
            0,
            base as int,
            #[trigger] wants[i],
            |x: int| 0u8,
        ) by {
            let w = wants[i];
            assert(w.offset == relocs[i].offset);
            assert(w.offset + 4 <= code.len());
            assert forall|x: int| 0 <= x < 4 implies #[trigger] placed.obj.sections[0].data[base
                + w.offset + x] == 0u8 by {
                let j = w.offset + x;
                assert(data[at + j] == cleared[j]);
                assert(relocs[i].offset <= j < relocs[i].offset + 4);
            }
        }
        assert forall|j: int|
            0 <= j < code.len() && !in_fields(
                wants,
                j,
            ) implies #[trigger] placed.obj.sections[0].data[base + j] == code[j] by {
            assert(data[at + j] == cleared[j]);
            if exists|k: int|
                0 <= k < relocs.len() && (#[trigger] relocs[k]).offset <= j < relocs[k].offset
                    + 4 {
                let k = choose|k: int|
                    0 <= k < relocs.len() && (#[trigger] relocs[k]).offset <= j < relocs[k].offset
                        + 4;
                assert(in_field(wants[k], j));
                assert(in_fields(wants, j));
            }
        }
    }
    lemma_relocs(placed, relocs, base, 0, code, first);
    assert(keeps_below(u.l.obj, placed.obj, 0, before.len() as int)) by {
        assert forall|j: int| 0 <= j < before.len() implies #[trigger] placed.obj.sections[0].data[j]
            == before[j] by {}
        assert forall|i: int|
            0 <= i < u.l.obj.symbols.len() implies #[trigger] placed.obj.symbols[i]
            == u.l.obj.symbols[i] by {
            assert(named.obj.symbols[i] == u.l.obj.symbols[i]);
        }
    }
    lemma_keeps_on(u.l.obj, placed.obj, v.l.obj, 0, before.len() as int, base as int);
    let s = u.l.obj.symbols.len() as int;
    assert(named.obj.symbols[s] == placed.obj.symbols[s]);
    assert(v.l.obj.symbols[s] == placed.obj.symbols[s]);
    assert(v.l.obj.symbols[s].value == base);
    assert(f.goes_by(name));
    assert(has_labels(v.l.obj, variables, f.addr, f.size, base as int)) by {
        assert forall|k: u64| #[trigger]
            variables.contains_key(k) && f.addr < k < f.addr + f.size implies exists|s: int|
            #[trigger] is_label(v.l.obj, s, variables[k], k, f.addr, base as int) by {
            let hi = if f.addr + f.size - 1 > u64::MAX {
                u64::MAX
            } else {
                (f.addr + f.size - 1) as u64
            };
            lemma_keys_between(variables.dom(), f.addr, hi);
            assert(keys == keys_between(variables.dom(), f.addr, hi));
            assert(keys.contains(k));
            let j = choose|j: int| 0 <= j < keys.len() && keys[j] == k;
            assert(keys[j] == k);
            let s = choose|s: int| #[trigger]
                is_label(placed.obj, s, variables[keys[j]], keys[j], f.addr, base as int);
            assert(v.l.obj.symbols[s] == placed.obj.symbols[s]);
            assert(is_label(v.l.obj, s, variables[k], k, f.addr, base as int));
        }
    }
}

proof fn lemma_same_len(l: LinkageModel, relocs: Seq<RelocView>, base: u64, i: int)
    requires
        0 <= i,
        l.obj.sections.len() > 0,
        with_relocs(l, relocs, base, 0, i) is Some,
    ensures
        with_relocs(l, relocs, base, 0, i)->0.obj.sections.len() == l.obj.sections.len(),
        with_relocs(l, relocs, base, 0, i)->0.obj.sections[0].data.len()
            == l.obj.sections[0].data.len(),
    decreases relocs.len() - i,
{
    if i < relocs.len() {
        let r = relocs[i];
        let m = l.with_reference(r.target, written_name(r.target), SymbolKind::Unknown);
        let at = (base + r.offset) as u64;
        let kind = RelocationType::MachOBranch;
        crate::growth::lemma_grows_by_relocation(
            m.obj,
            0,
            at,
            l.number(r.target) as nat,
            kind,
            r.addend as int,
        );
        let added = m.over(
            m.obj.with_relocation(0, at, l.number(r.target) as nat, kind, r.addend as int),
        );
        assert(added.obj.sections[0].data.len() == m.obj.sections[0].data.len());
        lemma_same_len(added, relocs, base, i + 1);
    }
}

/// Code, a symbol and labels stay while more is added behind them.
proof fn lemma_function_stays(
    a: ObjectModel,
    b: ObjectModel,
    ctx: &MachoContext,
    text: MachoSection,
    f: MachoFunction,
    s: int,
    first: int,
)
    requires
        keeps_below(a, b, 0, a.sections[0].data.len() as int),
        is_live(text, f),
        has_function(a, ctx, text, f, s, first),
    ensures
        has_function(b, ctx, text, f, s, first),
{
    let base = a.symbols[s].value as int;
    assert(b.symbols[s] == a.symbols[s]);
    lemma_spaced(ctx, text, f);
    lemma_code_stays(
        a,
        b,
        0,
        base,
        code_of(text, f),
        wants_of(ctx, text, f),
        first,
        wants_of(ctx, text, f).len() as int,
        a.sections[0].data.len() as int,
    );
    let variables = ctx.symbols.variables@;
    assert forall|k: u64| #[trigger]
        variables.contains_key(k) && f.addr < k < f.addr + f.size implies exists|s: int| #[trigger]
        is_label(b, s, variables[k], k, f.addr, base) by {
        let s = choose|s: int| #[trigger] is_label(a, s, variables[k], k, f.addr, base);
        assert(b.symbols[s] == a.symbols[s]);
        assert(is_label(b, s, variables[k], k, f.addr, base));
    }
}

/// The number of relocations that recovery finds in the functions from `i` on.
pub open spec fn relocation_count(
    ctx: &MachoContext,
    cu: &MachoCompilationUnit,
    text: MachoSection,
    live: Seq<(u64, usize)>,
    i: int,
) -> nat
    decreases live.len() - i,
{
    if i < 0 || i >= live.len() {
        0
    } else {
        let f = cu.functions@[live[i].1 as int];
        (if is_live(text, f) {
            wants_of(ctx, text, f).len()
        } else {
            0
        }) + relocation_count(ctx, cu, text, live, i + 1)
    }
}

/// True when the object has function `k` of the unit.
pub open spec fn has_live(
    m: ObjectModel,
    ctx: &MachoContext,
    cu: &MachoCompilationUnit,
    text: MachoSection,
    k: int,
) -> bool {
    exists|s: int, first: int| #[trigger]
        has_function(m, ctx, text, cu.functions@[k], s, first)
}

/// True when relocation `p` of the section is one that recovery found in function `k` of
/// the unit.
pub open spec fn belongs_to(
    m: ObjectModel,
    ctx: &MachoContext,
    cu: &MachoCompilationUnit,
    text: MachoSection,
    p: int,
    k: int,
) -> bool {
    let f = cu.functions@[k];
    &&& 0 <= k < cu.functions@.len()
    &&& is_live(text, f)
    &&& exists|s: int, first: int| #[trigger]
        has_function(m, ctx, text, f, s, first) && first <= p < first + wants_of(
            ctx,
            text,
            f,
        ).len()
}

/// True when relocation `p` of the section is one that recovery found in some function of
/// the unit.
pub open spec fn is_owned(
    m: ObjectModel,
    ctx: &MachoContext,
    cu: &MachoCompilationUnit,
    text: MachoSection,
    p: int,
) -> bool {
    exists|k: int| #[trigger] belongs_to(m, ctx, cu, text, p, k)
}

proof fn lemma_unit_symbols(
    u: UnitModel,
    ctx: &MachoContext,
    cu: &MachoCompilationUnit,
    text: MachoSection,
    live: Seq<(u64, usize)>,
    i: int,
)
    requires
        u.l.obj.sections.len() == 1,
        with_functions(u, ctx, cu, text, live, 0, i) is Some,
    ensures
        ({
            let end = with_functions(u, ctx, cu, text, live, 0, i)->0;
            &&& u.l.obj.symbols.len() <= end.l.obj.symbols.len()
            &&& end.l.obj.sections.len() == 1
            &&& u.l.obj.sections[0].data.len() <= end.l.obj.sections[0].data.len()
        }),
    decreases live.len() - i,
{
    if 0 <= i < live.len() {
        let f = cu.functions@[live[i].1 as int];
        let v = with_function(u, ctx, text, f, 0)->0;
        if f.addr - text.addr + f.size <= text.data@.len() {
            let code = code_of(text, f);
            let relocs = recovered(code, f.addr, f.size, &ctx.symbols).relocs;
            let base = u.l.obj.append_offset(0, 4) as u64;
            let variables = ctx.symbols.variables@;
            let cleared = cleared_from(code, relocs, 0);
            let placed = function_placed(u.l, cleared, f, variables, base, 0);
            let name = f.spec_symbol_name();
            let named = u.l.over(u.l.obj.with_data(0, cleared, 4)).with_definition(
                name,
                written_name(name),
                base,
                f.size,
                SymbolKind::Text,
                f.external,
                false,
                0,
            );
            let keys = keys_in(variables.dom(), f.addr, f.size);
            lemma_label_symbols(named, keys, variables, f.addr, base, 0);
            lemma_label_sections(named, keys, variables, f.addr, base, 0);
            lemma_more_symbols(placed, relocs, base, 0, 0);
            lemma_same_len(placed, relocs, base, 0);
        }
        lemma_unit_symbols(v, ctx, cu, text, live, i + 1);
    }
}

proof fn lemma_label_sections(
    l: LinkageModel,
    keys: Seq<u64>,
    variables: Map<u64, MachoVariable>,
    addr: u64,
    base: u64,
    i: int,
)
    ensures
        with_labels(l, keys, variables, addr, base, 0, i).obj.sections == l.obj.sections,
    decreases keys.len() - i,
{
    if 0 <= i < keys.len() {
        let k = keys[i];
        let v = variables[k];
        let next = if k == addr {
            l
        } else {
            l.with_definition(
                v.spec_symbol_name(),
                written_name(v.spec_symbol_name()),
                (base + (k - addr)) as u64,
                0,
                SymbolKind::Label,
                v.external,
                false,
                0,
            )
        };
        lemma_label_sections(next, keys, variables, addr, base, i + 1);
    }
}

proof fn lemma_functions(
    u: UnitModel,
    ctx: &MachoContext,
    cu: &MachoCompilationUnit,
    text: MachoSection,
    live: Seq<(u64, usize)>,
    i: int,
)
    requires
        0 <= i <= live.len(),
        is_ready(u.l),
        forall|j: int|
            0 <= j < live.len() ==> (#[trigger] live[j]).1 < cu.functions@.len() && (is_live(
                text,
                cu.functions@[live[j].1 as int],
            ) || cu.functions@[live[j].1 as int].addr - text.addr + cu.functions@[live[j].1
                as int].size > text.data@.len()),
        with_functions(u, ctx, cu, text, live, 0, i) is Some,
        with_functions(u, ctx, cu, text, live, 0, i)->0.l.obj.symbols.len() <= usize::MAX,
        addressable(with_functions(u, ctx, cu, text, live, 0, i)->0.l.obj),
    ensures
        ({
            let end = with_functions(u, ctx, cu, text, live, 0, i)->0.l.obj;
            let from = u.l.obj.sections[0].relocations.len();
            &&& keeps_below(u.l.obj, end, 0, u.l.obj.sections[0].data.len() as int)
            &&& end.sections[0].relocations.len() == from + relocation_count(
                ctx,
                cu,
                text,
                live,
                i,
            )
            &&& forall|j: int|
                i <= j < live.len() && is_live(text, cu.functions@[(#[trigger] live[j]).1 as int])
                    ==> has_live(end, ctx, cu, text, live[j].1 as int)
            &&& forall|p: int|
                from <= p < end.sections[0].relocations.len() ==> #[trigger] is_owned(
                    end,
                    ctx,
                    cu,
                    text,
                    p,
                )
        }),
    decreases live.len() - i,
{
    if i < live.len() {
        let k = live[i].1 as int;
        let f = cu.functions@[k];
        let v = with_function(u, ctx, text, f, 0)->0;
        let end = with_functions(u, ctx, cu, text, live, 0, i)->0.l.obj;
        let from = u.l.obj.sections[0].relocations.len() as int;
        if is_live(text, f) {
            lemma_unit_symbols_one(u, ctx, text, f);
            lemma_unit_symbols(v, ctx, cu, text, live, i + 1);
            assert(addressable(v.l.obj)) by {
                assert(end.sections[0].data.len() <= u64::MAX);
            }
            lemma_function(u, ctx, text, f);
            lemma_functions(v, ctx, cu, text, live, i + 1);
            let s = u.l.obj.symbols.len() as int;
            lemma_function_stays(v.l.obj, end, ctx, text, f, s, from);
            lemma_keeps_on(
                u.l.obj,
                v.l.obj,
                end,
                0,
                u.l.obj.sections[0].data.len() as int,
                v.l.obj.sections[0].data.len() as int,
            );
            assert(has_live(end, ctx, cu, text, k));
            assert forall|p: int|
                from <= p < end.sections[0].relocations.len() implies #[trigger] is_owned(
                end,
                ctx,
                cu,
                text,
                p,
            ) by {
                if p < from + wants_of(ctx, text, f).len() {
                    assert(has_function(end, ctx, text, f, s, from));
                    assert(belongs_to(end, ctx, cu, text, p, k));
                }
            }
        } else {
            assert(v == u);
            lemma_functions(v, ctx, cu, text, live, i + 1);
        }
    }
}

proof fn lemma_unit_symbols_one(
    u: UnitModel,
    ctx: &MachoContext,
    text: MachoSection,
    f: MachoFunction,
)
    requires
        u.l.obj.sections.len() == 1,
        is_live(text, f),
        with_function(u, ctx, text, f, 0) is Some,
    ensures
        with_function(u, ctx, text, f, 0)->0.l.obj.sections.len() == 1,
{
    let code = code_of(text, f);
    let relocs = recovered(code, f.addr, f.size, &ctx.symbols).relocs;
    let base = u.l.obj.append_offset(0, 4) as u64;
    let variables = ctx.symbols.variables@;
    let cleared = cleared_from(code, relocs, 0);
    let placed = function_placed(u.l, cleared, f, variables, base, 0);
    let name = f.spec_symbol_name();
    let named = u.l.over(u.l.obj.with_data(0, cleared, 4)).with_definition(
        name,
        written_name(name),
        base,
        f.size,
        SymbolKind::Text,
        f.external,
        false,
        0,
    );
    lemma_label_sections(named, keys_in(variables.dom(), f.addr, f.size), variables, f.addr, base, 0);
    lemma_same_len(placed, relocs, base, 0);
}

proof fn lemma_found(functions: Seq<MachoFunction>, text: MachoSection, n: int)
    requires
        0 <= n <= functions.len() <= usize::MAX,
    ensures
        ({
            let found = live_among(functions, text, n);
            &&& forall|i: int|
                0 <= i < found.len() ==> (#[trigger] found[i]).1 < n && functions[found[i].1
                    as int].size > 0 && text.addr <= functions[found[i].1 as int].addr < text.addr
                    + text.size && found[i].0 == functions[found[i].1 as int].addr
            &&& forall|i: int, j: int|
                0 <= i < j < found.len() ==> (#[trigger] found[i]).1 < (#[trigger] found[j]).1
            &&& forall|k: int|
                0 <= k < n && is_live(text, #[trigger] functions[k]) ==> found.contains(
                    (functions[k].addr, k as usize),
                )
        }),
    decreases n,
{
    if n > 0 {
        lemma_found(functions, text, n - 1);
        let before = live_among(functions, text, n - 1);
        let found = live_among(functions, text, n);
        assert forall|k: int|
            0 <= k < n && is_live(text, #[trigger] functions[k]) implies found.contains(
            (functions[k].addr, k as usize),
        ) by {
            let e = (functions[k].addr, k as usize);
            if k < n - 1 {
                let i = choose|i: int| 0 <= i < before.len() && before[i] == e;
                assert(found[i] == e);
            } else {
                assert(found[before.len() as int] == e);
            }
        }
    }
}

/// The functions that go into an object are those that take up space in the section, each
/// once, in the order of their addresses.
pub proof fn law_functions_keep_their_order(cu: &MachoCompilationUnit, text: MachoSection)
    requires
        cu.functions@.len() <= usize::MAX,
    ensures
        ({
            let live = live_functions(cu, text);
            &&& forall|i: int|
                0 <= i < live.len() ==> {
                    let e = #[trigger] live[i];
                    let f = cu.functions@[e.1 as int];
                    e.1 < cu.functions@.len() && e.0 == f.addr && f.size > 0 && text.addr <= f.addr
                        < text.addr + text.size
                }
            &&& forall|i: int, j: int|
                0 <= i < j < live.len() ==> (#[trigger] live[i]).0 <= (#[trigger] live[j]).0
                    && live[i].1 != live[j].1
            &&& forall|k: int|
                0 <= k < cu.functions@.len() && is_live(text, #[trigger] cu.functions@[k])
                    ==> live.contains((cu.functions@[k].addr, k as usize))
        }),
{
    let live = live_functions(cu, text);
    let found = live_among(cu.functions@, text, cu.functions@.len() as int);
    lemma_found(cu.functions@, text, cu.functions@.len() as int);
    lemma_stable_sorted(found, by_address());
    lemma_stable_sorted_numbers(found);
    assert forall|i: int| 0 <= i < live.len() implies {
        let e = #[trigger] live[i];
        let f = cu.functions@[e.1 as int];
        e.1 < cu.functions@.len() && e.0 == f.addr && f.size > 0 && text.addr <= f.addr
            < text.addr + text.size
    } by {
        lemma_stable_sorted_contains(found, by_address(), live[i]);
        assert(live.contains(live[i]));
        let k = choose|k: int| 0 <= k < found.len() && found[k] == live[i];
        assert(found[k] == live[i]);
    }
    assert forall|k: int|
        0 <= k < cu.functions@.len() && is_live(
            text,
            #[trigger] cu.functions@[k],
        ) implies live.contains((cu.functions@[k].addr, k as usize)) by {
        lemma_stable_sorted_contains(found, by_address(), (cu.functions@[k].addr, k as usize));
    }
}

/// The object of a unit has, for each live function, a symbol of the function's name, the
/// function's code where the symbol says, and in it the relocations that recovery finds in
/// the function: each at its offset from the symbol, against the symbol of the name that it
/// refers to, with its addend. It has no others, and so each lies in the code of the
/// function it was found in.
pub proof fn law_relocations_lie_in_their_function(ctx: &MachoContext, cu: &MachoCompilationUnit)
    requires
        cu.functions@.len() <= usize::MAX,
        unit_object(ctx, cu) is Ok,
        addressable((unit_object(ctx, cu)->Ok_0).0),
        (unit_object(ctx, cu)->Ok_0).0.symbols.len() <= usize::MAX,
    ensures
        ({
            let m = (unit_object(ctx, cu)->Ok_0).0;
            let text = ctx.sections@[section_index(ctx.sections@, "__TEXT"@, "__text"@)->0];
            &&& m.sections.len() == 1
            &&& m.sections[0].segment == "__TEXT"@
            &&& m.sections[0].name == "__text"@
            &&& forall|k: int|
                0 <= k < cu.functions@.len() && is_live(text, #[trigger] cu.functions@[k])
                    ==> has_live(m, ctx, cu, text, k)
            &&& forall|p: int|
                0 <= p < m.sections[0].relocations.len() ==> #[trigger] is_owned(
                    m,
                    ctx,
                    cu,
                    text,
                    p,
                )
            &&& m.sections[0].relocations.len() == relocation_count(
                ctx,
                cu,
                text,
                live_functions(cu, text),
                0,
            )
        }),
{
    let text = ctx.sections@[section_index(ctx.sections@, "__TEXT"@, "__text"@)->0];
    let live = live_functions(cu, text);
    let m = (unit_object(ctx, cu)->Ok_0).0;
    let empty = LinkageModel::empty(ObjectFormat::MachO, machine_of(ctx.arch)->0);
    let opened = empty.over(empty.obj.with_section("__TEXT"@, "__text"@, SectionKind::Text));
    let u = UnitModel { l: opened, stats: no_stats() };
    law_functions_keep_their_order(cu, text);
    lemma_unit_symbols(u, ctx, cu, text, live, 0);
    lemma_headers(u, ctx, cu, text, live, 0);
    lemma_functions(u, ctx, cu, text, live, 0);
    assert forall|k: int|
        0 <= k < cu.functions@.len() && is_live(
            text,
            #[trigger] cu.functions@[k],
        ) implies has_live(m, ctx, cu, text, k) by {
        let e = (cu.functions@[k].addr, k as usize);
        assert(live.contains(e));
        let j = choose|j: int| 0 <= j < live.len() && live[j] == e;
        assert(live[j].1 as int == k);
    }
}

/// The section keeps its name.
proof fn lemma_headers(
    u: UnitModel,
    ctx: &MachoContext,
    cu: &MachoCompilationUnit,
    text: MachoSection,
    live: Seq<(u64, usize)>,
    i: int,
)
    requires
        u.l.obj.sections.len() == 1,
        with_functions(u, ctx, cu, text, live, 0, i) is Some,
    ensures
        ({
            let end = with_functions(u, ctx, cu, text, live, 0, i)->0;
            &&& end.l.obj.sections[0].segment == u.l.obj.sections[0].segment
            &&& end.l.obj.sections[0].name == u.l.obj.sections[0].name
        }),
    decreases live.len() - i,
{
    if 0 <= i < live.len() {
        let f = cu.functions@[live[i].1 as int];
        let v = with_function(u, ctx, text, f, 0)->0;
        if f.addr - text.addr + f.size <= text.data@.len() {
            let code = code_of(text, f);
            let relocs = recovered(code, f.addr, f.size, &ctx.symbols).relocs;
            let base = u.l.obj.append_offset(0, 4) as u64;
            let variables = ctx.symbols.variables@;
            let cleared = cleared_from(code, relocs, 0);
            let placed = function_placed(u.l, cleared, f, variables, base, 0);
            let name = f.spec_symbol_name();
            let named = u.l.over(u.l.obj.with_data(0, cleared, 4)).with_definition(
                name,
                written_name(name),
                base,
                f.size,
                SymbolKind::Text,
                f.external,
                false,
                0,
            );
            let keys = keys_in(variables.dom(), f.addr, f.size);
            lemma_label_sections(named, keys, variables, f.addr, base, 0);
            lemma_same_len(placed, relocs, base, 0);
            lemma_same_header(placed, relocs, base, 0);
        }
        lemma_headers(v, ctx, cu, text, live, i + 1);
    }
}

proof fn lemma_same_header(l: LinkageModel, relocs: Seq<RelocView>, base: u64, i: int)
    requires
        0 <= i,
        l.obj.sections.len() > 0,
        with_relocs(l, relocs, base, 0, i) is Some,
    ensures
        with_relocs(l, relocs, base, 0, i)->0.obj.sections[0].segment
            == l.obj.sections[0].segment,
        with_relocs(l, relocs, base, 0, i)->0.obj.sections[0].name == l.obj.sections[0].name,
    decreases relocs.len() - i,
{
    if i < relocs.len() {
        let r = relocs[i];
        let m = l.with_reference(r.target, written_name(r.target), SymbolKind::Unknown);
        let at = (base + r.offset) as u64;
        let added = m.over(
            m.obj.with_relocation(
                0,
                at,
                l.number(r.target) as nat,
                RelocationType::MachOBranch,
                r.addend as int,
            ),
        );
        assert(added.obj.sections.len() == l.obj.sections.len());
        lemma_same_header(added, relocs, base, i + 1);
    }
}

} // verus!
