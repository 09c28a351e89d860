//! Where the object of a unit has the functions and data of the unit and what they refer
//! to.
use vstd::prelude::*;

use super::cu::{PeCompilationUnit, PeContrib, PeFunction, PeVariable};
use super::emit::{
    branch_reloc, cleared_from, code_align, code_refs, contribution_bytes, data_kind,
    function_placed, function_staged, keys_in, live_among, live_functions, machine_of,
    marks_pointer, no_stats, pointer_reloc, pointer_width, pointer_within, staged_from,
    unit_object, with_contribution, with_contributions, with_data_symbols, with_function,
    with_functions, with_labels, with_pointers, with_refs, CodeRefView, Pointer, StagedModel,
    UnitModel,
};
use super::image::{section_index, PeArch, PeContext, PeSection};
use super::pointers::{as_is, is_marked, kind_of, width_of};
use crate::bytes::{le_value, patched, zeros};
use crate::growth::{addressable, defines_datum, is_data_symbol};
use crate::linkage::LinkageModel;
use crate::objfile::{
    align_up, field_width, mangled, symbol, ObjectFormat, ObjectModel, RelocationType, SectionKind,
    SymbolKind,
};
use crate::ordered::{
    by_address, keys_between, lemma_keys_between, lemma_stable_sorted, lemma_stable_sorted_contains,
    lemma_stable_sorted_numbers,
};
use crate::placing::{
    are_apart, field_is, has_code, in_field, in_fields, is_called, is_placed, keeps_below, knows,
    lemma_called_stays, lemma_code_stays, lemma_definition, lemma_keeps_on, lemma_knows_over,
    lemma_place, lemma_reference, spaced, Want,
};

verus! {

broadcast use {
    vstd::std_specs::btree::group_btree_axioms,
    vstd::hash_map::group_hash_map_axioms,
};

/// The kind of relocations of branches and of operands relative to the next instruction:
/// `IMAGE_REL_AMD64_REL32`, or `IMAGE_REL_I386_REL32`.
pub open spec fn relative_kind(arch: PeArch) -> RelocationType {
    match arch {
        PeArch::X86_64 => RelocationType::Coff(4),
        PeArch::X86 => RelocationType::Coff(0x14),
    }
}

/// The relocations that code calls for. Their addends count from the end of the field.
pub open spec fn refs_wanted(arch: PeArch, refs: Seq<CodeRefView>) -> Seq<Want> {
    refs.map_values(
        |r: CodeRefView|
            Want {
                offset: r.offset,
                name: r.target,
                kind: relative_kind(arch),
                addend: r.addend - 4,
            },
    )
}

/// True when base relocation `i` marks a pointer in the `size` bytes at `va`.
pub open spec fn is_within(pe: &PeContext, va: u64, size: int, i: int) -> bool {
    let br = pe.base_relocations@[i];
    &&& 0 <= i < pe.base_relocations@.len()
    &&& is_marked(pe.arch, br.kind)
    &&& va <= br.va
    &&& br.va + width_of(pe.arch) <= va + size
}

/// True when byte `j` of the `len` bytes at `va` is in a pointer that one of the first `n`
/// base relocations marks.
pub open spec fn in_marks(
    pe: &PeContext,
    va: u64,
    size: int,
    len: int,
    n: int,
    j: int,
) -> bool {
    exists|i: int|
        i < n && #[trigger] is_within(pe, va, size, i) && pe.base_relocations@[i].va - va
            + width_of(pe.arch) <= len && pe.base_relocations@[i].va - va <= j
            < pe.base_relocations@[i].va - va + width_of(pe.arch)
}

/// True when the pointers that base relocations mark share no bytes with each other or with
/// the fields.
pub open spec fn marks_apart(pe: &PeContext, va: u64, size: int, fields: Seq<Want>) -> bool {
    let w = width_of(pe.arch);
    &&& forall|i: int, k: int|
        #![trigger is_within(pe, va, size, i), is_within(pe, va, size, k)]
        is_within(pe, va, size, i) && is_within(pe, va, size, k) && i < k ==> (
        pe.base_relocations@[i].va + w <= pe.base_relocations@[k].va || pe.base_relocations@[k].va
            + w <= pe.base_relocations@[i].va)
    &&& forall|i: int, k: int|
        #![trigger is_within(pe, va, size, i), fields[k]]
        is_within(pe, va, size, i) && 0 <= k < fields.len() ==> (pe.base_relocations@[i].va - va
            + w <= fields[k].offset || fields[k].offset + field_width(fields[k].kind)
            <= pe.base_relocations@[i].va - va)
}

/// The pointers in `code` at `va` that the first `n` base relocations mark and that symbols
/// stand for.
pub open spec fn pointers_wanted(
    pe: &PeContext,
    va: u64,
    size: int,
    code: Seq<u8>,
    n: int,
) -> Seq<Want>
    decreases n,
{
    if n <= 0 {
        Seq::empty()
    } else {
        let before = pointers_wanted(pe, va, size, code, n - 1);
        let off = pe.base_relocations@[n - 1].va - va;
        let w = width_of(pe.arch);
        if is_within(pe, va, size, n - 1) && off + w <= code.len() {
            match pe.symbols.spec_resolve_data(le_value(code, off, w as nat) as u64) {
                Some((name, addend)) => before.push(
                    Want { offset: off as u64, name, kind: kind_of(pe.arch), addend: addend as int },
                ),
                None => before,
            }
        } else {
            before
        }
    }
}

/// True when `x` installs the pointer that base relocation `i` marks in `code` at `va`: it
/// is one to a symbol and an addend that denote what the code holds there.
pub open spec fn is_pointer(
    pe: &PeContext,
    va: u64,
    size: int,
    code: Seq<u8>,
    i: int,
    x: Want,
) -> bool {
    let off = pe.base_relocations@[i].va - va;
    let w = width_of(pe.arch);
    &&& is_within(pe, va, size, i)
    &&& off + w <= code.len()
    &&& x.offset == off
    &&& x.kind == kind_of(pe.arch)
    &&& i64::MIN <= x.addend <= i64::MAX
    &&& pe.symbols.stands_for(x.name, x.addend as i64, le_value(code, off, w as nat) as u64)
}

/// True when `x` installs a pointer that one of the first `n` base relocations marks.
pub open spec fn is_due(
    pe: &PeContext,
    va: u64,
    size: int,
    code: Seq<u8>,
    n: int,
    x: Want,
) -> bool {
    exists|i: int| i < n && #[trigger] is_pointer(pe, va, size, code, i, x)
}

/// True when the wants are the pointers in `code` at `va` that the first `n` base
/// relocations mark: each comes from one, and each that a symbol stands for is there.
pub open spec fn are_pointers(
    pe: &PeContext,
    va: u64,
    size: int,
    code: Seq<u8>,
    n: int,
    wants: Seq<Want>,
) -> bool {
    &&& forall|k: int|
        0 <= k < wants.len() ==> is_due(pe, va, size, code, n, #[trigger] wants[k])
    &&& forall|i: int, x: Want|
        i < n && #[trigger] is_pointer(pe, va, size, code, i, x) ==> exists|k: int|
            0 <= k < wants.len() && is_pointer(pe, va, size, code, i, #[trigger] wants[k])
}

/// The pointers wanted are those that base relocations mark, by symbols and addends that
/// denote what they point to.
pub proof fn law_pointers_denote_their_address(
    pe: &PeContext,
    va: u64,
    size: int,
    code: Seq<u8>,
    n: int,
)
    requires
        0 <= n <= pe.base_relocations@.len(),
        code.len() <= u64::MAX,
    ensures
        are_pointers(pe, va, size, code, n, pointers_wanted(pe, va, size, code, n)),
    decreases n,
{
    if n > 0 {
        law_pointers_denote_their_address(pe, va, size, code, n - 1);
        let before = pointers_wanted(pe, va, size, code, n - 1);
        let wants = pointers_wanted(pe, va, size, code, n);
        let off = pe.base_relocations@[n - 1].va - va;
        let w = width_of(pe.arch);
        let value = le_value(code, off, w as nat) as u64;
        pe.symbols.law_pointers_denote_their_address(value);
        assert forall|k: int| 0 <= k < wants.len() implies is_due(
            pe,
            va,
            size,
            code,
            n,
            #[trigger] wants[k],
        ) by {
            if k < before.len() {
                assert(wants[k] == before[k]);
                assert(is_due(pe, va, size, code, n - 1, before[k]));
                let i = choose|i: int|
                    i < n - 1 && #[trigger] is_pointer(pe, va, size, code, i, before[k]);
                assert(is_pointer(pe, va, size, code, i, wants[k]));
            } else {
                assert(is_pointer(pe, va, size, code, n - 1, wants[k]));
            }
        }
        assert forall|i: int, x: Want|
            i < n && #[trigger] is_pointer(pe, va, size, code, i, x) implies exists|k: int|
            0 <= k < wants.len() && is_pointer(pe, va, size, code, i, #[trigger] wants[k]) by {
            if i < n - 1 {
                let k = choose|k: int|
                    0 <= k < before.len() && is_pointer(
                        pe,
                        va,
                        size,
                        code,
                        i,
                        #[trigger] before[k],
                    );
                assert(wants[k] == before[k]);
            } else {
                assert(pe.symbols.stands_for(x.name, x.addend as i64, value));
                assert(is_pointer(pe, va, size, code, i, wants[before.len() as int]));
            }
        }
    }
}

/// Pointers are apart where marks are.
proof fn lemma_pointers_spaced(
    pe: &PeContext,
    va: u64,
    size: int,
    code: Seq<u8>,
    n: int,
    fields: Seq<Want>,
)
    requires
        0 <= n <= pe.base_relocations@.len(),
        code.len() <= u64::MAX,
        marks_apart(pe, va, size, fields),
        spaced(fields, code.len()),
    ensures
        ({
            let wants = pointers_wanted(pe, va, size, code, n);
            &&& spaced(wants + fields, code.len())
            &&& forall|k: int|
                0 <= k < wants.len() ==> #[trigger] is_from(pe, va, size, n, wants[k])
        }),
    decreases n,
{
    let wants = pointers_wanted(pe, va, size, code, n);
    if n > 0 {
        lemma_pointers_spaced(pe, va, size, code, n - 1, fields);
        let before = pointers_wanted(pe, va, size, code, n - 1);
        let old_all = before + fields;
        let all = wants + fields;
        if wants.len() > before.len() {
            let x = wants[before.len() as int];
            assert(is_within(pe, va, size, n - 1));
            assert(is_from(pe, va, size, n, x));
            assert forall|k: int| 0 <= k < wants.len() implies #[trigger] is_from(
                pe,
                va,
                size,
                n,
                wants[k],
            ) by {
                if k < before.len() {
                    assert(wants[k] == before[k]);
                    assert(is_from(pe, va, size, n - 1, before[k]));
                }
            }
            assert forall|i: int| 0 <= i < all.len() implies (#[trigger] all[i]).offset
                + field_width(all[i].kind) <= code.len() by {
                if i < before.len() {
                    assert(all[i] == old_all[i]);
                } else if i > before.len() {
                    assert(all[i] == old_all[i - 1]);
                }
            }
            assert forall|i: int, j: int| 0 <= i < j < all.len() implies are_apart(
                #[trigger] all[i],
                #[trigger] all[j],
            ) by {
                let b = before.len() as int;
                if i < b && j < b {
                    assert(all[i] == old_all[i] && all[j] == old_all[j]);
                } else if i < b && j == b {
                    assert(all[i] == before[i]);
                    assert(is_from(pe, va, size, n - 1, before[i]));
                    let h = choose|h: int|
                        h < n - 1 && #[trigger] is_within(pe, va, size, h) && before[i].offset
                            == pe.base_relocations@[h].va - va && before[i].kind == kind_of(
                            pe.arch,
                        );
                    assert(is_within(pe, va, size, h));
                } else if i < b {
                    assert(all[i] == old_all[i] && all[j] == old_all[j - 1]);
                } else if i == b {
                    assert(all[j] == fields[j - b - 1]);
                } else {
                    assert(all[i] == old_all[i - 1] && all[j] == old_all[j - 1]);
                }
            }
        } else {
            assert(wants == before);
            assert forall|k: int| 0 <= k < wants.len() implies #[trigger] is_from(
                pe,
                va,
                size,
                n,
                wants[k],
            ) by {
                assert(is_from(pe, va, size, n - 1, before[k]));
            }
        }
    } else {
        assert(wants + fields =~= fields);
    }
}

/// True when the field is one that some of the first `n` base relocations marks.
spec fn is_from(pe: &PeContext, va: u64, size: int, n: int, x: Want) -> bool {
    exists|h: int|
        h < n && #[trigger] is_within(pe, va, size, h) && x.offset == pe.base_relocations@[h].va
            - va && x.kind == kind_of(pe.arch)
}

/// True when the staged pointers are those wanted.
spec fn is_staged(pointers: Seq<Pointer>, wants: Seq<Want>, m: ObjectModel) -> bool {
    &&& pointers.len() == wants.len()
    &&& forall|k: int|
        0 <= k < wants.len() ==> (#[trigger] pointers[k]).offset == wants[k].offset
            && pointers[k].addend == wants[k].addend && is_called(
            m,
            pointers[k].symbol as nat,
            wants[k].name,
        )
}

/// True when staging `n` base relocations made `bytes` of `code`.
spec fn is_blanked(
    pe: &PeContext,
    va: u64,
    size: int,
    code: Seq<u8>,
    fields: Seq<Want>,
    n: int,
    clear_all: bool,
    bytes: Seq<u8>,
) -> bool {
    &&& bytes.len() == code.len()
    &&& forall|j: int|
        0 <= j < code.len() ==> #[trigger] bytes[j] == if in_fields(fields, j) || in_fields(
            pointers_wanted(pe, va, size, code, n),
            j,
        ) || clear_all && in_marks(pe, va, size, code.len() as int, n, j) {
            0u8
        } else {
            code[j]
        }
}

#[verifier::rlimit(40)]
proof fn lemma_stage(
    s: StagedModel,
    l0: LinkageModel,
    pe: &PeContext,
    va: u64,
    size: int,
    code: Seq<u8>,
    fields: Seq<Want>,
    clear_all: bool,
    n: int,
)
    requires
        0 <= n <= pe.base_relocations@.len(),
        code.len() <= u64::MAX,
        marks_apart(pe, va, size, fields),
        spaced(fields, code.len()),
        knows(s.l, as_is()),
        s.l.obj.sections == l0.obj.sections,
        s.l.obj.format == l0.obj.format,
        s.l.obj.machine == l0.obj.machine,
        l0.obj.symbols.len() <= s.l.obj.symbols.len(),
        forall|i: int|
            0 <= i < l0.obj.symbols.len() ==> #[trigger] s.l.obj.symbols[i] == l0.obj.symbols[i],
        is_staged(s.pointers, pointers_wanted(pe, va, size, code, n), s.l.obj),
        is_blanked(pe, va, size, code, fields, n, clear_all, s.bytes),
        staged_from(s, pe, va, size, clear_all, n).l.obj.symbols.len() <= usize::MAX,
    ensures
        ({
            let end = staged_from(s, pe, va, size, clear_all, n);
            let count = pe.base_relocations@.len() as int;
            &&& knows(end.l, as_is())
            &&& end.l.obj.sections == l0.obj.sections
            &&& end.l.obj.format == l0.obj.format
            &&& end.l.obj.machine == l0.obj.machine
            &&& l0.obj.symbols.len() <= end.l.obj.symbols.len()
            &&& forall|i: int|
                0 <= i < l0.obj.symbols.len() ==> #[trigger] end.l.obj.symbols[i]
                    == l0.obj.symbols[i]
            &&& is_staged(end.pointers, pointers_wanted(pe, va, size, code, count), end.l.obj)
            &&& is_blanked(pe, va, size, code, fields, count, clear_all, end.bytes)
        }),
    decreases pe.base_relocations@.len() - n,
{
    if n < pe.base_relocations@.len() {
        let br = pe.base_relocations@[n];
        let w = pointer_width(pe.arch);
        assert(w == width_of(pe.arch));
        let off = br.va - va;
        let wants = pointers_wanted(pe, va, size, code, n);
        let after = pointers_wanted(pe, va, size, code, n + 1);
        assert(pointer_within(pe.arch, br, va, size) <==> is_within(pe, va, size, n));
        if !pointer_within(pe.arch, br, va, size) || off + w > s.bytes.len() {
            assert(after == wants);
            lemma_marks_more(pe, va, size, code.len() as int, n);
            lemma_stage(s, l0, pe, va, size, code, fields, clear_all, n + 1);
        } else {
            let cleared = patched(s.bytes, off, zeros(w));
            assert forall|j: int| off <= j < off + w implies s.bytes[j] == code[j] by {
                lemma_untouched(pe, va, size, code, fields, n, j);
            }
            lemma_same_value(s.bytes, code, off, w);
            let value = le_value(code, off, w) as u64;
            assert(le_value(s.bytes, off, w) == le_value(code, off, w));
            lemma_marks_more(pe, va, size, code.len() as int, n);
            assert(cleared.len() == code.len());
            match pe.symbols.spec_resolve_data(value) {
                Some((name, addend)) => {
                    let next = StagedModel {
                        bytes: cleared,
                        l: s.l.with_undef(name, name, SymbolKind::Data),
                        pointers: s.pointers.push(
                            Pointer { offset: off as u64, symbol: s.l.undef_number(name), addend },
                        ),
                    };
                    let x = Want {
                        offset: off as u64,
                        name,
                        kind: kind_of(pe.arch),
                        addend: addend as int,
                    };
                    assert(after == wants.push(x));
                    lemma_stage_symbols(next, pe, va, size, clear_all, n + 1);
                    assert(as_is()(name) == name);
                    lemma_reference(s.l, as_is(), name, SymbolKind::Data);
                    assert forall|k: int| 0 <= k < after.len() implies (
                    #[trigger] next.pointers[k]).offset == after[k].offset
                        && next.pointers[k].addend == after[k].addend && is_called(
                        next.l.obj,
                        next.pointers[k].symbol as nat,
                        after[k].name,
                    ) by {
                        if k < wants.len() {
                            assert(next.pointers[k] == s.pointers[k]);
                            assert(after[k] == wants[k]);
                            lemma_called_stays(
                                s.l.obj,
                                next.l.obj,
                                s.pointers[k].symbol as nat,
                                wants[k].name,
                            );
                        }
                    }
                    lemma_pushed_fields(wants, x);
                    assert(is_blanked(
                        pe,
                        va,
                        size,
                        code,
                        fields,
                        n + 1,
                        clear_all,
                        cleared,
                    ));
                    assert forall|i: int|
                        0 <= i < l0.obj.symbols.len() implies #[trigger] next.l.obj.symbols[i]
                        == l0.obj.symbols[i] by {
                        assert(s.l.obj.symbols[i] == l0.obj.symbols[i]);
                    }
                    lemma_stage(next, l0, pe, va, size, code, fields, clear_all, n + 1);
                },
                None => {
                    assert(after == wants);
                    let next = StagedModel {
                        bytes: if clear_all {
                            cleared
                        } else {
                            s.bytes
                        },
                        ..s
                    };
                    assert(is_blanked(
                        pe,
                        va,
                        size,
                        code,
                        fields,
                        n + 1,
                        clear_all,
                        next.bytes,
                    ));
                    lemma_stage(next, l0, pe, va, size, code, fields, clear_all, n + 1);
                },
            }
        }
    }
}

/// A byte of a pointer that is not yet staged is as it was.
proof fn lemma_untouched(
    pe: &PeContext,
    va: u64,
    size: int,
    code: Seq<u8>,
    fields: Seq<Want>,
    n: int,
    j: int,
)
    requires
        0 <= n < pe.base_relocations@.len(),
        code.len() <= u64::MAX,
        marks_apart(pe, va, size, fields),
        spaced(fields, code.len()),
        is_within(pe, va, size, n),
        pe.base_relocations@[n].va - va <= j < pe.base_relocations@[n].va - va + width_of(pe.arch),
    ensures
        !in_fields(fields, j),
        !in_fields(pointers_wanted(pe, va, size, code, n), j),
        !in_marks(pe, va, size, code.len() as int, n, j),
{
    let wants = pointers_wanted(pe, va, size, code, n);
    lemma_pointers_spaced(pe, va, size, code, n, fields);
    if in_fields(fields, j) {
        let k = choose|k: int| 0 <= k < fields.len() && in_field(#[trigger] fields[k], j);
        assert(fields[k].offset <= j);
    }
    if in_fields(wants, j) {
        let k = choose|k: int| 0 <= k < wants.len() && in_field(#[trigger] wants[k], j);
        assert(is_from(pe, va, size, n, wants[k]));
        let h = choose|h: int|
            h < n && #[trigger] is_within(pe, va, size, h) && wants[k].offset
                == pe.base_relocations@[h].va - va && wants[k].kind == kind_of(pe.arch);
        assert(is_within(pe, va, size, h));
    }
    if in_marks(pe, va, size, code.len() as int, n, j) {
        let h = choose|h: int|
            h < n && #[trigger] is_within(pe, va, size, h) && pe.base_relocations@[h].va - va
                + width_of(pe.arch) <= code.len() && pe.base_relocations@[h].va - va <= j
                < pe.base_relocations@[h].va - va + width_of(pe.arch);
        assert(is_within(pe, va, size, h));
    }
}

proof fn lemma_same_value(a: Seq<u8>, b: Seq<u8>, off: int, w: nat)
    requires
        forall|j: int| off <= j < off + w ==> a[j] == b[j],
    ensures
        le_value(a, off, w) == le_value(b, off, w),
    decreases w,
{
    if w > 0 {
        lemma_same_value(a, b, off + 1, (w - 1) as nat);
    }
}

/// True when base relocation `n` marks byte `j`.
spec fn is_mark(pe: &PeContext, va: u64, size: int, len: int, n: int, j: int) -> bool {
    is_within(pe, va, size, n) && pe.base_relocations@[n].va - va + width_of(pe.arch) <= len
        && pe.base_relocations@[n].va - va <= j < pe.base_relocations@[n].va - va + width_of(
        pe.arch,
    )
}

/// One more base relocation.
proof fn lemma_marks_more(pe: &PeContext, va: u64, size: int, len: int, n: int)
    ensures
        forall|j: int| #[trigger]
            in_marks(pe, va, size, len, n + 1, j) <==> in_marks(pe, va, size, len, n, j)
                || is_mark(pe, va, size, len, n, j),
{
    assert forall|j: int| #[trigger]
        in_marks(pe, va, size, len, n + 1, j) <==> in_marks(pe, va, size, len, n, j) || is_mark(
            pe,
            va,
            size,
            len,
            n,
            j,
        ) by {
        if in_marks(pe, va, size, len, n + 1, j) {
            let h = choose|h: int|
                h < n + 1 && #[trigger] is_within(pe, va, size, h) && pe.base_relocations@[h].va
                    - va + width_of(pe.arch) <= len && pe.base_relocations@[h].va - va <= j
                    < pe.base_relocations@[h].va - va + width_of(pe.arch);
            assert(is_within(pe, va, size, h));
            assert(h == n ==> is_mark(pe, va, size, len, n, j));
        }
        if in_marks(pe, va, size, len, n, j) {
            let h = choose|h: int|
                h < n && #[trigger] is_within(pe, va, size, h) && pe.base_relocations@[h].va - va
                    + width_of(pe.arch) <= len && pe.base_relocations@[h].va - va <= j
                    < pe.base_relocations@[h].va - va + width_of(pe.arch);
            assert(is_within(pe, va, size, h));
        }
        if is_mark(pe, va, size, len, n, j) {
            assert(is_within(pe, va, size, n));
        }
    }
}

proof fn lemma_pushed_fields(wants: Seq<Want>, x: Want)
    ensures
        forall|j: int| #[trigger]
            in_fields(wants.push(x), j) <==> in_fields(wants, j) || in_field(x, j),
{
    let more = wants.push(x);
    assert forall|j: int| #[trigger] in_fields(more, j) <==> in_fields(wants, j) || in_field(
        x,
        j,
    ) by {
        if in_fields(wants, j) {
            let k = choose|k: int| 0 <= k < wants.len() && in_field(#[trigger] wants[k], j);
            assert(more[k] == wants[k]);
        }
        if in_field(x, j) {
            assert(more[wants.len() as int] == x);
        }
        if in_fields(more, j) {
            let k = choose|k: int| 0 <= k < more.len() && in_field(#[trigger] more[k], j);
            if k < wants.len() {
                assert(more[k] == wants[k]);
            }
        }
    }
}

proof fn lemma_stage_symbols(
    s: StagedModel,
    pe: &PeContext,
    va: u64,
    size: int,
    clear_all: bool,
    n: int,
)
    ensures
        s.l.obj.symbols.len() <= staged_from(s, pe, va, size, clear_all, n).l.obj.symbols.len(),
    decreases pe.base_relocations@.len() - n,
{
    if 0 <= n < pe.base_relocations@.len() {
        let br = pe.base_relocations@[n];
        let w = pointer_width(pe.arch);
        let off = br.va - va;
        if !pointer_within(pe.arch, br, va, size) || off + w > s.bytes.len() {
            lemma_stage_symbols(s, pe, va, size, clear_all, n + 1);
        } else {
            let cleared = patched(s.bytes, off, zeros(w));
            let next = match pe.symbols.spec_resolve_data(le_value(s.bytes, off, w) as u64) {
                Some((name, addend)) => StagedModel {
                    bytes: cleared,
                    l: s.l.with_undef(name, name, SymbolKind::Data),
                    pointers: s.pointers.push(
                        Pointer { offset: off as u64, symbol: s.l.undef_number(name), addend },
                    ),
                },
                None => StagedModel {
                    bytes: if clear_all {
                        cleared
                    } else {
                        s.bytes
                    },
                    ..s
                },
            };
            lemma_stage_symbols(next, pe, va, size, clear_all, n + 1);
        }
    }
}

/// Clearing the fields changes nothing else.
proof fn lemma_cleared(code: Seq<u8>, refs: Seq<CodeRefView>, i: int)
    requires
        0 <= i <= refs.len(),
        forall|k: int| 0 <= k < refs.len() ==> (#[trigger] refs[k]).offset + 4 <= code.len(),
    ensures
        ({
            let end = cleared_from(code, refs, i);
            &&& end.len() == code.len()
            &&& forall|j: int|
                0 <= j < code.len() ==> #[trigger] end[j] == if exists|k: int|
                    i <= k < refs.len() && (#[trigger] refs[k]).offset <= j < refs[k].offset + 4 {
                    0u8
                } else {
                    code[j]
                }
        }),
    decreases refs.len() - i,
{
    if i < refs.len() {
        let at = refs[i].offset as int;
        let next = patched(code, at, zeros(4));
        assert(refs[i].offset + 4 <= code.len());
        assert(next.len() == code.len());
        lemma_cleared(next, refs, i + 1);
        let end = cleared_from(code, refs, i);
        assert forall|j: int| 0 <= j < code.len() implies #[trigger] end[j] == if exists|k: int|
            i <= k < refs.len() && (#[trigger] refs[k]).offset <= j < refs[k].offset + 4 {
            0u8
        } else {
            code[j]
        } by {
            if at <= j < at + 4 {
                assert(next[j] == 0u8);
                assert(refs[i].offset <= j < refs[i].offset + 4);
            } else {
                assert(next[j] == code[j]);
            }
        }
    }
}

proof fn lemma_cleared_is_blanked(
    pe: &PeContext,
    va: u64,
    size: int,
    code: Seq<u8>,
    refs: Seq<CodeRefView>,
)
    requires
        spaced(refs_wanted(pe.arch, refs), code.len()),
    ensures
        is_blanked(
            pe,
            va,
            size,
            code,
            refs_wanted(pe.arch, refs),
            0,
            false,
            cleared_from(code, refs, 0),
        ),
{
    let fields = refs_wanted(pe.arch, refs);
    assert forall|k: int| 0 <= k < refs.len() implies (#[trigger] refs[k]).offset + 4
        <= code.len() by {
        assert(fields[k].offset == refs[k].offset);
    }
    lemma_cleared(code, refs, 0);
    let end = cleared_from(code, refs, 0);
    assert forall|j: int| 0 <= j < code.len() implies #[trigger] end[j] == if in_fields(
        fields,
        j,
    ) || in_fields(pointers_wanted(pe, va, size, code, 0), j) {
        0u8
    } else {
        code[j]
    } by {
        if exists|k: int|
            0 <= k < refs.len() && (#[trigger] refs[k]).offset <= j < refs[k].offset + 4 {
            let k = choose|k: int|
                0 <= k < refs.len() && (#[trigger] refs[k]).offset <= j < refs[k].offset + 4;
            assert(in_field(fields[k], j));
        }
        if in_fields(fields, j) {
            let k = choose|k: int| 0 <= k < fields.len() && in_field(#[trigger] fields[k], j);
            assert(refs[k].offset <= j < refs[k].offset + 4);
        }
    }
}

proof fn lemma_pointers(
    l: LinkageModel,
    pointers: Seq<Pointer>,
    wants: Seq<Want>,
    n: int,
    base: u64,
    sid: usize,
    kind: RelocationType,
    i: int,
    code: Seq<u8>,
    first: int,
)
    requires
        0 <= i <= pointers.len() == n <= wants.len(),
        knows(l, as_is()),
        spaced(wants, code.len()),
        is_staged(pointers, wants.take(n), l.obj),
        forall|k: int| 0 <= k < n ==> (#[trigger] wants[k]).kind == kind,
        sid < l.obj.sections.len(),
        is_placed(l.obj, sid as nat, base as int, code, wants, first, i),
        first + i == l.obj.sections[sid as int].relocations.len(),
        base + code.len() <= u64::MAX,
        with_pointers(l, pointers, base, sid, kind, i) is Some,
    ensures
        ({
            let end = with_pointers(l, pointers, base, sid, kind, i)->0;
            &&& knows(end, as_is())
            &&& is_placed(end.obj, sid as nat, base as int, code, wants, first, n)
            &&& first + n == end.obj.sections[sid as int].relocations.len()
            &&& keeps_below(l.obj, end.obj, sid as nat, base as int)
            &&& end.obj.symbols == l.obj.symbols
            &&& end.obj.sections.len() == l.obj.sections.len()
            &&& end.obj.sections[sid as int].data.len() == l.obj.sections[sid as int].data.len()
            &&& end.obj.sections[sid as int].size == l.obj.sections[sid as int].size
            &&& end.obj.sections[sid as int].name == l.obj.sections[sid as int].name
            &&& forall|k: int|
                0 <= k < l.obj.sections.len() && k != sid ==> #[trigger] end.obj.sections[k]
                    == l.obj.sections[k]
        }),
    decreases pointers.len() - i,
{
    if i < pointers.len() {
        let p = pointers[i];
        let at = (base + p.offset) as u64;
        let w = wants[i];
        assert(wants.take(n)[i] == w);
        let added = l.over(
            l.obj.with_relocation(sid as nat, at, p.symbol as nat, kind, p.addend as int),
        );
        lemma_place(
            l.obj,
            l.obj,
            p.symbol as nat,
            sid as nat,
            base as int,
            code,
            wants,
            first,
            i,
        );
        lemma_knows_over(l, added, as_is());
        assert(is_staged(pointers, wants.take(n), added.obj));
        lemma_pointers(added, pointers, wants, n, base, sid, kind, i + 1, code, first);
        let end = with_pointers(l, pointers, base, sid, kind, i)->0;
        lemma_keeps_on(l.obj, added.obj, end.obj, sid as nat, base as int, base as int);
    }
}

proof fn lemma_ref_symbols(
    l: LinkageModel,
    refs: Seq<CodeRefView>,
    base: u64,
    sid: usize,
    kind: RelocationType,
    i: int,
)
    requires
        with_refs(l, refs, base, sid, kind, i) is Some,
    ensures
        l.obj.symbols.len() <= with_refs(l, refs, base, sid, kind, i)->0.obj.symbols.len(),
    decreases refs.len() - i,
{
    if 0 <= i < refs.len() {
        let r = refs[i];
        let m = l.with_reference(r.target, r.target, SymbolKind::Data);
        let at = (base + r.offset) as u64;
        let added = m.over(
            m.obj.with_relocation(
                sid as nat,
                at,
                l.number(r.target) as nat,
                kind,
                r.addend - 4,
            ),
        );
        lemma_ref_symbols(added, refs, base, sid, kind, i + 1);
    }
}

proof fn lemma_refs(
    l: LinkageModel,
    arch: PeArch,
    refs: Seq<CodeRefView>,
    wants: Seq<Want>,
    n: int,
    base: u64,
    i: int,
    code: Seq<u8>,
    first: int,
)
    requires
        0 <= i <= refs.len(),
        0 <= n,
        wants.len() == n + refs.len(),
        forall|k: int|
            0 <= k < refs.len() ==> wants[n + k] == #[trigger] refs_wanted(arch, refs)[k],
        knows(l, as_is()),
        spaced(wants, code.len()),
        0 < l.obj.sections.len(),
        is_placed(l.obj, 0, base as int, code, wants, first, n + i),
        first + n + i == l.obj.sections[0].relocations.len(),
        base + code.len() <= u64::MAX,
        with_refs(l, refs, base, 0, branch_reloc(arch), i) is Some,
        with_refs(l, refs, base, 0, branch_reloc(arch), i)->0.obj.symbols.len() <= usize::MAX,
    ensures
        ({
            let end = with_refs(l, refs, base, 0, branch_reloc(arch), i)->0;
            &&& knows(end, as_is())
            &&& has_code(end.obj, 0, base as int, code, wants, first)
            &&& first + wants.len() == end.obj.sections[0].relocations.len()
            &&& keeps_below(l.obj, end.obj, 0, base as int)
            &&& end.obj.sections.len() == l.obj.sections.len()
            &&& end.obj.sections[0].data.len() == l.obj.sections[0].data.len()
            &&& end.obj.sections[0].size == l.obj.sections[0].size
            &&& end.obj.sections[0].name == l.obj.sections[0].name
        }),
    decreases refs.len() - i,
{
    if i < refs.len() {
        let r = refs[i];
        let kind = branch_reloc(arch);
        assert(kind == relative_kind(arch));
        assert(wants[n + i] == refs_wanted(arch, refs)[i]);
        let m = l.with_reference(r.target, r.target, SymbolKind::Data);
        assert(as_is()(r.target) == r.target);
        lemma_reference(l, as_is(), r.target, SymbolKind::Data);
        let at = (base + r.offset) as u64;
        let num = l.number(r.target) as nat;
        let added = m.over(m.obj.with_relocation(0, at, num, kind, r.addend - 4));
        lemma_ref_symbols(added, refs, base, 0, kind, i + 1);
        lemma_place(l.obj, m.obj, num, 0, base as int, code, wants, first, n + i);
        lemma_knows_over(m, added, as_is());
        lemma_refs(added, arch, refs, wants, n, base, i + 1, code, first);
        let end = with_refs(l, refs, base, 0, kind, i)->0;
        lemma_keeps_on(l.obj, added.obj, end.obj, 0, base as int, base as int);
    }
}

/// True when symbol `s` is a label for the datum at `k`, which lies in the function at `va`
/// whose code lies at `base`.
pub open spec fn is_label(
    m: ObjectModel,
    s: int,
    v: PeVariable,
    k: u64,
    va: u64,
    base: int,
) -> bool {
    &&& 0 <= s < m.symbols.len()
    &&& m.symbols[s].name == mangled(m.format, m.machine, v.name@, SymbolKind::Label)
    &&& m.symbols[s].kind == SymbolKind::Label
    &&& m.symbols[s].value == base + (k - va)
    &&& m.symbols[s].section == Some(0nat)
    &&& m.symbols[s].global == v.is_public
}

/// True when each datum inside the function has a label at its distance from the start.
pub open spec fn has_labels(
    m: ObjectModel,
    variables: Map<u64, PeVariable>,
    va: u64,
    size: int,
    base: int,
) -> bool {
    forall|k: u64| #[trigger]
        variables.contains_key(k) && va < k < va + size ==> exists|s: int| #[trigger]
            is_label(m, s, variables[k], k, va, base)
}

proof fn lemma_labels(
    l: LinkageModel,
    keys: Seq<u64>,
    variables: Map<u64, PeVariable>,
    va: u64,
    base: u64,
    i: int,
)
    requires
        0 <= i <= keys.len(),
        knows(l, as_is()),
        with_labels(l, keys, variables, va, base, 0, i).obj.symbols.len() <= usize::MAX,
    ensures
        ({
            let end = with_labels(l, keys, variables, va, base, 0, i);
            &&& knows(end, as_is())
            &&& end.obj.sections == l.obj.sections
            &&& end.obj.format == l.obj.format
            &&& end.obj.machine == l.obj.machine
            &&& l.obj.symbols.len() <= end.obj.symbols.len()
            &&& forall|j: int|
                0 <= j < l.obj.symbols.len() ==> #[trigger] end.obj.symbols[j] == l.obj.symbols[j]
            &&& forall|j: int|
                i <= j < keys.len() && #[trigger] keys[j] != va && va <= keys[j] && base + (keys[j]
                    - va) <= u64::MAX ==> exists|s: int| #[trigger]
                    is_label(end.obj, s, variables[keys[j]], keys[j], va, base as int)
        }),
    decreases keys.len() - i,
{
    if i < keys.len() {
        let k = keys[i];
        let v = variables[k];
        let value = (base + (k - va)) as u64;
        let next = if k == va {
            l
        } else {
            l.with_definition(
                v.name@,
                v.name@,
                value,
                0,
                SymbolKind::Label,
                v.is_public,
                false,
                0,
            )
        };
        let end = with_labels(l, keys, variables, va, base, 0, i);
        lemma_label_symbols(next, keys, variables, va, base, i + 1);
        if k != va {
            assert(as_is()(v.name@) == v.name@);
            lemma_definition(
                l,
                as_is(),
                v.name@,
                value,
                0,
                SymbolKind::Label,
                v.is_public,
                false,
                0,
            );
        }
        lemma_labels(next, keys, variables, va, base, i + 1);
        assert forall|j: int|
            0 <= j < l.obj.symbols.len() implies #[trigger] end.obj.symbols[j]
            == l.obj.symbols[j] by {
            assert(next.obj.symbols[j] == l.obj.symbols[j]);
        }
        assert forall|j: int|
            i <= j < keys.len() && #[trigger] keys[j] != va && va <= keys[j] && base + (keys[j]
                - va) <= u64::MAX implies exists|s: int| #[trigger]
            is_label(end.obj, s, variables[keys[j]], keys[j], va, base as int) by {
            if j == i {
                let s = l.obj.symbols.len() as int;
                assert(next.obj.symbols[s] == end.obj.symbols[s]);
                assert(is_label(end.obj, s, v, k, va, base as int));
            }
        }
    }
}

proof fn lemma_label_symbols(
    l: LinkageModel,
    keys: Seq<u64>,
    variables: Map<u64, PeVariable>,
    va: u64,
    base: u64,
    i: int,
)
    ensures
        l.obj.symbols.len() <= with_labels(l, keys, variables, va, base, 0, i).obj.symbols.len(),
        with_labels(l, keys, variables, va, base, 0, i).obj.sections == l.obj.sections,
    decreases keys.len() - i,
{
    if 0 <= i < keys.len() {
        let k = keys[i];
        let v = variables[k];
        let next = if k == va {
            l
        } else {
            l.with_definition(
                v.name@,
                v.name@,
                (base + (k - va)) as u64,
                0,
                SymbolKind::Label,
                v.is_public,
                false,
                0,
            )
        };
        lemma_label_symbols(next, keys, variables, va, base, i + 1);
    }
}

/// True when the function takes up space in `text` and its bytes lie in the section's data.
pub open spec fn is_live(text: PeSection, f: PeFunction) -> bool {
    &&& f.size > 0
    &&& text.va <= f.va < text.va + text.virtual_size
    &&& f.va - text.va + f.size <= text.data@.len()
}

/// The code of a function in the image.
pub open spec fn code_of(text: PeSection, f: PeFunction) -> Seq<u8> {
    text.data@.subrange(f.va - text.va, f.va - text.va + f.size)
}

/// The relocations of the references that recovery finds in a function.
pub open spec fn refs_of(pe: &PeContext, text: PeSection, f: PeFunction) -> Seq<Want> {
    refs_wanted(pe.arch, code_refs(pe.arch, code_of(text, f), f.va, &pe.symbols).refs)
}

/// The relocations of a function: those of the pointers in it, then those of its
/// references.
pub open spec fn wants_of(pe: &PeContext, text: PeSection, f: PeFunction) -> Seq<Want> {
    pointers_wanted(
        pe,
        f.va,
        f.size as int,
        code_of(text, f),
        pe.base_relocations@.len() as int,
    ) + refs_of(pe, text, f)
}

/// True when the fields of the function's references and the pointers in it lie in its code
/// and no two share a byte.
pub open spec fn is_spaced(pe: &PeContext, text: PeSection, f: PeFunction) -> bool {
    &&& spaced(refs_of(pe, text, f), f.size as nat)
    &&& marks_apart(pe, f.va, f.size as int, refs_of(pe, text, f))
}

/// True when symbol `s` is that of the function, and the object's first section has the
/// code of the function where the symbol says, with the relocations of the pointers and
/// references in it from number `first` on.
pub open spec fn has_function(
    m: ObjectModel,
    pe: &PeContext,
    text: PeSection,
    f: PeFunction,
    s: int,
    first: int,
) -> bool {
    &&& 0 <= s < m.symbols.len()
    &&& m.symbols[s].name == mangled(m.format, m.machine, f.name@, SymbolKind::Text)
    &&& m.symbols[s].kind == SymbolKind::Text
    &&& m.symbols[s].size == f.size
    &&& m.symbols[s].section == Some(0nat)
    &&& m.symbols[s].global == f.is_public
    &&& has_code(
        m,
        0,
        m.symbols[s].value as int,
        code_of(text, f),
        wants_of(pe, text, f),
        first,
    )
    &&& has_labels(m, pe.symbols.variables@, f.va, f.size as int, m.symbols[s].value as int)
}

/// What holds of the object of a unit before a function is added.
spec fn is_ready(l: LinkageModel) -> bool {
    &&& knows(l, as_is())
    &&& l.obj.format == ObjectFormat::Coff
    &&& l.obj.sections.len() == 1
    &&& l.obj.sections[0].size == l.obj.sections[0].data.len()
}

/// What a function adds.
#[verifier::rlimit(60)]
proof fn lemma_function(u: UnitModel, pe: &PeContext, text: PeSection, f: PeFunction)
    requires
        is_ready(u.l),
        is_live(text, f),
        is_spaced(pe, text, f),
        with_function(u, pe, text, f, 0) is Some,
        with_function(u, pe, text, f, 0)->0.l.obj.symbols.len() <= usize::MAX,
        addressable(with_function(u, pe, text, f, 0)->0.l.obj),
    ensures
        ({
            let v = with_function(u, pe, text, f, 0)->0;
            let first = u.l.obj.sections[0].relocations.len();
            &&& is_ready(v.l)
            &&& keeps_below(u.l.obj, v.l.obj, 0, u.l.obj.sections[0].data.len() as int)
            &&& v.l.obj.sections[0].relocations.len() == first + wants_of(pe, text, f).len()
            &&& v.l.obj.sections[0].name == u.l.obj.sections[0].name
            &&& exists|s: int| #[trigger] has_function(v.l.obj, pe, text, f, s, first as int)
        }),
{
    let code = code_of(text, f);
    let refs = code_refs(pe.arch, code, f.va, &pe.symbols).refs;
    let fields = refs_of(pe, text, f);
    let size = f.size as int;
    let count = pe.base_relocations@.len() as int;
    let pw = pointers_wanted(pe, f.va, size, code, count);
    let wants = wants_of(pe, text, f);
    assert(code.len() == f.size);
    lemma_cleared_is_blanked(pe, f.va, size, code, refs);
    lemma_pointers_spaced(pe, f.va, size, code, count, fields);
    let begin = StagedModel {
        bytes: cleared_from(code, refs, 0),
        l: u.l,
        pointers: Seq::empty(),
    };
    let staged = function_staged(u.l, pe, f, code);
    assert(staged == staged_from(begin, pe, f.va, size, false, 0));
    let align = code_align(pe.arch);
    let at = staged.l.obj.append_offset(0, align);
    let base = at as u64;
    let placed = function_placed(staged, pe, f, base, 0);
    let v = with_function(u, pe, text, f, 0)->0;
    let kind = pointer_reloc(pe.arch);
    let pointed = with_pointers(placed, staged.pointers, base, 0, kind, 0)->0;
    assert(with_refs(pointed, refs, base, 0, branch_reloc(pe.arch), 0) == Some(v.l));
    let filled = staged.l.over(staged.l.obj.with_data(0, staged.bytes, align));
    let named = filled.with_definition(
        f.name@,
        f.name@,
        base,
        f.size as u64,
        SymbolKind::Text,
        f.is_public,
        false,
        0,
    );
    let variables = pe.symbols.variables@;
    let keys = keys_in(variables.dom(), f.va, size);
    assert(placed == with_labels(named, keys, variables, f.va, base, 0, 0));
    lemma_ref_symbols(pointed, refs, base, 0, branch_reloc(pe.arch), 0);
    lemma_pointer_symbols(placed, staged.pointers, base, 0, kind, 0);
    lemma_label_symbols(named, keys, variables, f.va, base, 0);
    assert(staged.l.obj.symbols.len() + 1 == named.obj.symbols.len());
    lemma_stage(begin, u.l, pe, f.va, size, code, fields, false, 0);
    lemma_knows_over(staged.l, filled, as_is());
    assert(as_is()(f.name@) == f.name@);
    lemma_definition(
        filled,
        as_is(),
        f.name@,
        base,
        f.size as u64,
        SymbolKind::Text,
        f.is_public,
        false,
        0,
    );
    lemma_labels(named, keys, variables, f.va, base, 0);
    let before = u.l.obj.sections[0].data;
    let data = filled.obj.sections[0].data;
    assert(placed.obj.sections[0].data == data);
    lemma_align_up(before.len(), align as nat);
    assert(at >= before.len());
    assert(data.len() == at + staged.bytes.len());
    assert forall|j: int| 0 <= j < staged.bytes.len() implies #[trigger] data[at + j]
        == staged.bytes[j] by {}
    lemma_pointer_len(placed, staged.pointers, base, kind, 0);
    lemma_ref_len(pointed, refs, base, branch_reloc(pe.arch), 0);
    assert(v.l.obj.sections[0].data.len() == data.len());
    assert(base == at);
    let first = u.l.obj.sections[0].relocations.len() as int;
    lemma_blank_fields(placed.obj, pe, f.va, size, code, fields, false, staged.bytes, 0, base as int);
    assert(is_placed(placed.obj, 0, base as int, code, wants, first, 0));
    assert(wants.take(pw.len() as int) =~= pw);
    assert(is_staged(staged.pointers, pw, placed.obj)) by {
        assert forall|k: int| 0 <= k < pw.len() implies (
        #[trigger] staged.pointers[k]).offset == pw[k].offset && staged.pointers[k].addend
            == pw[k].addend && is_called(placed.obj, staged.pointers[k].symbol as nat, pw[k].name) by {
            lemma_called_stays(
                staged.l.obj,
                named.obj,
                staged.pointers[k].symbol as nat,
                pw[k].name,
            );
            lemma_called_stays(
                named.obj,
                placed.obj,
                staged.pointers[k].symbol as nat,
                pw[k].name,
            );
        }
    }
    assert forall|k: int| 0 <= k < pw.len() implies (#[trigger] wants[k]).kind == kind by {
        assert(wants[k] == pw[k]);
        assert(is_from(pe, f.va, size, count, pw[k]));
    }
    lemma_pointers(
        placed,
        staged.pointers,
        wants,
        pw.len() as int,
        base,
        0,
        kind,
        0,
        code,
        first,
    );
    assert forall|k: int| 0 <= k < refs.len() implies wants[pw.len() + k]
        == #[trigger] refs_wanted(pe.arch, refs)[k] by {}
    lemma_refs(pointed, pe.arch, refs, wants, pw.len() as int, base, 0, code, first);
    lemma_keeps_on(placed.obj, pointed.obj, v.l.obj, 0, base as int, base as int);
    assert(keeps_below(u.l.obj, placed.obj, 0, before.len() as int)) by {
        assert forall|j: int| 0 <= j < before.len() implies #[trigger] placed.obj.sections[0].data[j]
            == before[j] by {}
        assert forall|i: int|
            0 <= i < u.l.obj.symbols.len() implies #[trigger] placed.obj.symbols[i]
            == u.l.obj.symbols[i] by {
            assert(staged.l.obj.symbols[i] == u.l.obj.symbols[i]);
            assert(named.obj.symbols[i] == u.l.obj.symbols[i]);
        }
    }
    lemma_keeps_on(u.l.obj, placed.obj, v.l.obj, 0, before.len() as int, base as int);
    let s = staged.l.obj.symbols.len() as int;
    assert(named.obj.symbols[s] == placed.obj.symbols[s]);
    assert(v.l.obj.symbols[s] == placed.obj.symbols[s]);
    assert(v.l.obj.symbols[s].value == base);
    assert(has_labels(v.l.obj, variables, f.va, size, base as int)) by {
        assert forall|k: u64| #[trigger]
            variables.contains_key(k) && f.va < k < f.va + size implies exists|s: int| #[trigger]
            is_label(v.l.obj, s, variables[k], k, f.va, base as int) by {
            let hi = if f.va + size - 1 > u64::MAX {
                u64::MAX
            } else {
                (f.va + size - 1) as u64
            };
            lemma_keys_between(variables.dom(), f.va, hi);
            assert(keys == keys_between(variables.dom(), f.va, hi));
            assert(keys.contains(k));
            let j = choose|j: int| 0 <= j < keys.len() && keys[j] == k;
            assert(keys[j] == k);
            let s = choose|s: int| #[trigger]
                is_label(placed.obj, s, variables[keys[j]], keys[j], f.va, base as int);
            assert(v.l.obj.symbols[s] == placed.obj.symbols[s]);
            assert(is_label(v.l.obj, s, variables[k], k, f.va, base as int));
        }
    }
    assert(has_function(v.l.obj, pe, text, f, s, first));
}

proof fn lemma_align_up(n: nat, align: nat)
    ensures
        align_up(n, align) >= n,
{
}

/// Bytes with blank fields are code that has none of its relocations yet.
proof fn lemma_blank_fields(
    m: ObjectModel,
    pe: &PeContext,
    va: u64,
    size: int,
    code: Seq<u8>,
    fields: Seq<Want>,
    clear_all: bool,
    bytes: Seq<u8>,
    sid: int,
    base: int,
)
    requires
        0 <= sid < m.sections.len(),
        0 <= base,
        m.sections[sid].data.len() >= base + bytes.len(),
        forall|j: int|
            0 <= j < bytes.len() ==> #[trigger] m.sections[sid].data[base + j] == bytes[j],
        is_blanked(
            pe,
            va,
            size,
            code,
            fields,
            pe.base_relocations@.len() as int,
            clear_all,
            bytes,
        ),
        spaced(
            pointers_wanted(pe, va, size, code, pe.base_relocations@.len() as int) + fields,
            code.len(),
        ),
    ensures
        ({
            let count = pe.base_relocations@.len() as int;
            let wants = pointers_wanted(pe, va, size, code, count) + fields;
            is_placed(
                m,
                sid as nat,
                base,
                if clear_all {
                    without_marks(pe, va, size, code)
                } else {
                    code
                },
                wants,
                m.sections[sid].relocations.len() as int,
                0,
            ) || m.format == ObjectFormat::Elf
        }),
{
    let count = pe.base_relocations@.len() as int;
    let pw = pointers_wanted(pe, va, size, code, count);
    let wants = pw + fields;
    assert forall|i: int| 0 <= i < wants.len() implies field_is(
        m,
        sid as nat,
        base,
        #[trigger] wants[i],
        |x: int| 0u8,
    ) by {
        let w = wants[i];
        assert(w.offset + field_width(w.kind) <= code.len());
        assert forall|x: int| 0 <= x < field_width(w.kind) implies #[trigger] m.sections[sid].data[base
            + w.offset + x] == 0u8 by {
            let j = w.offset + x;
            assert(m.sections[sid].data[base + j] == bytes[j]);
            if i < pw.len() {
                assert(in_field(pw[i], j));
            } else {
                assert(in_field(fields[i - pw.len()], j));
            }
        }
    }
    let shown = if clear_all {
        without_marks(pe, va, size, code)
    } else {
        code
    };
    assert forall|j: int| 0 <= j < shown.len() && !in_fields(wants, j) implies #[trigger] m.sections[sid].data[base
        + j] == shown[j] by {
        assert(m.sections[sid].data[base + j] == bytes[j]);
        if in_fields(pw, j) {
            let k = choose|k: int| 0 <= k < pw.len() && in_field(#[trigger] pw[k], j);
            assert(wants[k] == pw[k]);
        }
        if in_fields(fields, j) {
            let k = choose|k: int| 0 <= k < fields.len() && in_field(#[trigger] fields[k], j);
            assert(wants[pw.len() + k] == fields[k]);
        }
    }
}

/// The bytes with the pointers that base relocations mark set to zero.
pub open spec fn without_marks(pe: &PeContext, va: u64, size: int, code: Seq<u8>) -> Seq<u8> {
    Seq::new(
        code.len(),
        |j: int|
            if in_marks(pe, va, size, code.len() as int, pe.base_relocations@.len() as int, j) {
                0u8
            } else {
                code[j]
            },
    )
}

proof fn lemma_pointer_symbols(
    l: LinkageModel,
    pointers: Seq<Pointer>,
    base: u64,
    sid: usize,
    kind: RelocationType,
    i: int,
)
    requires
        with_pointers(l, pointers, base, sid, kind, i) is Some,
    ensures
        l.obj.symbols == with_pointers(l, pointers, base, sid, kind, i)->0.obj.symbols,
    decreases pointers.len() - i,
{
    if 0 <= i < pointers.len() {
        let p = pointers[i];
        let at = (base + p.offset) as u64;
        lemma_pointer_symbols(
            l.over(l.obj.with_relocation(sid as nat, at, p.symbol as nat, kind, p.addend as int)),
            pointers,
            base,
            sid,
            kind,
            i + 1,
        );
    }
}

proof fn lemma_pointer_len(
    l: LinkageModel,
    pointers: Seq<Pointer>,
    base: u64,
    kind: RelocationType,
    i: int,
)
    requires
        0 <= i,
        0 < l.obj.sections.len(),
        with_pointers(l, pointers, base, 0, kind, i) is Some,
    ensures
        ({
            let end = with_pointers(l, pointers, base, 0, kind, i)->0.obj;
            &&& end.sections.len() == l.obj.sections.len()
            &&& end.sections[0].data.len() == l.obj.sections[0].data.len()
        }),
    decreases pointers.len() - i,
{
    if i < pointers.len() {
        let p = pointers[i];
        let at = (base + p.offset) as u64;
        crate::growth::lemma_grows_by_relocation(
            l.obj,
            0,
            at,
            p.symbol as nat,
            kind,
            p.addend as int,
        );
        let added = l.over(
            l.obj.with_relocation(0, at, p.symbol as nat, kind, p.addend as int),
        );
        assert(added.obj.sections[0].data.len() == l.obj.sections[0].data.len());
        lemma_pointer_len(added, pointers, base, kind, i + 1);
    }
}

proof fn lemma_ref_len(
    l: LinkageModel,
    refs: Seq<CodeRefView>,
    base: u64,
    kind: RelocationType,
    i: int,
)
    requires
        0 <= i,
        0 < l.obj.sections.len(),
        with_refs(l, refs, base, 0, kind, i) is Some,
    ensures
        ({
            let end = with_refs(l, refs, base, 0, kind, i)->0.obj;
            &&& end.sections.len() == l.obj.sections.len()
            &&& end.sections[0].data.len() == l.obj.sections[0].data.len()
        }),
    decreases refs.len() - i,
{
    if i < refs.len() {
        let r = refs[i];
        let m = l.with_reference(r.target, r.target, SymbolKind::Data);
        let at = (base + r.offset) as u64;
        let num = l.number(r.target) as nat;
        crate::growth::lemma_grows_by_relocation(m.obj, 0, at, num, kind, r.addend - 4);
        let added = m.over(m.obj.with_relocation(0, at, num, kind, r.addend - 4));
        assert(added.obj.sections[0].data.len() == m.obj.sections[0].data.len());
        lemma_ref_len(added, refs, base, kind, i + 1);
    }
}

/// Code, a symbol and labels stay while more is added behind them.
proof fn lemma_function_stays(
    a: ObjectModel,
    b: ObjectModel,
    pe: &PeContext,
    text: PeSection,
    f: PeFunction,
    s: int,
    first: int,
)
    requires
        keeps_below(a, b, 0, a.sections[0].data.len() as int),
        is_live(text, f),
        is_spaced(pe, text, f),
        has_function(a, pe, text, f, s, first),
    ensures
        has_function(b, pe, text, f, s, first),
{
    let base = a.symbols[s].value as int;
    let code = code_of(text, f);
    let size = f.size as int;
    assert(b.symbols[s] == a.symbols[s]);
    lemma_pointers_spaced(
        pe,
        f.va,
        size,
        code,
        pe.base_relocations@.len() as int,
        refs_of(pe, text, f),
    );
    lemma_code_stays(
        a,
        b,
        0,
        base,
        code,
        wants_of(pe, text, f),
        first,
        wants_of(pe, text, f).len() as int,
        a.sections[0].data.len() as int,
    );
    let variables = pe.symbols.variables@;
    assert forall|k: u64| #[trigger]
        variables.contains_key(k) && f.va < k < f.va + size implies exists|s: int| #[trigger]
        is_label(b, s, variables[k], k, f.va, base) by {
        let s = choose|s: int| #[trigger] is_label(a, s, variables[k], k, f.va, base);
        assert(b.symbols[s] == a.symbols[s]);
        assert(is_label(b, s, variables[k], k, f.va, base));
    }
}

/// The number of relocations of the functions from `i` on.
pub open spec fn relocation_count(
    pe: &PeContext,
    cu: &PeCompilationUnit,
    text: PeSection,
    live: Seq<(u64, usize)>,
    i: int,
) -> nat
    decreases live.len() - i,
{
    if i < 0 || i >= live.len() {
        0
    } else {
        let f = cu.functions@[live[i].1 as int];
        (if is_live(text, f) {
            wants_of(pe, text, f).len()
        } else {
            0
        }) + relocation_count(pe, cu, text, live, i + 1)
    }
}

/// True when the fields of each live function lie in its code and no two share a byte.
pub open spec fn all_spaced(pe: &PeContext, cu: &PeCompilationUnit, text: PeSection) -> bool {
    forall|k: int|
        0 <= k < cu.functions@.len() && is_live(text, #[trigger] cu.functions@[k]) ==> is_spaced(
            pe,
            text,
            cu.functions@[k],
        )
}

/// True when the object has function `k` of the unit.
pub open spec fn has_live(
    m: ObjectModel,
    pe: &PeContext,
    cu: &PeCompilationUnit,
    text: PeSection,
    k: int,
) -> bool {
    exists|s: int, first: int| #[trigger] has_function(m, pe, text, cu.functions@[k], s, first)
}

/// True when relocation `p` of the first section is one of function `k` of the unit.
pub open spec fn belongs_to(
    m: ObjectModel,
    pe: &PeContext,
    cu: &PeCompilationUnit,
    text: PeSection,
    p: int,
    k: int,
) -> bool {
    let f = cu.functions@[k];
    &&& 0 <= k < cu.functions@.len()
    &&& is_live(text, f)
    &&& exists|s: int, first: int| #[trigger]
        has_function(m, pe, text, f, s, first) && first <= p < first + wants_of(
            pe,
            text,
            f,
        ).len()
}

/// True when relocation `p` of the first section is one of some function of the unit.
pub open spec fn is_owned(
    m: ObjectModel,
    pe: &PeContext,
    cu: &PeCompilationUnit,
    text: PeSection,
    p: int,
) -> bool {
    exists|k: int| #[trigger] belongs_to(m, pe, cu, text, p, k)
}

proof fn lemma_function_grows(u: UnitModel, pe: &PeContext, text: PeSection, f: PeFunction)
    requires
        u.l.obj.sections.len() == 1,
        with_function(u, pe, text, f, 0) is Some,
    ensures
        ({
            let v = with_function(u, pe, text, f, 0)->0;
            &&& u.l.obj.symbols.len() <= v.l.obj.symbols.len()
            &&& v.l.obj.sections.len() == 1
            &&& u.l.obj.sections[0].data.len() <= v.l.obj.sections[0].data.len()
        }),
{
    if f.va - text.va + f.size <= text.data@.len() {
        let code = code_of(text, f);
        let refs = code_refs(pe.arch, code, f.va, &pe.symbols).refs;
        let begin = StagedModel {
            bytes: cleared_from(code, refs, 0),
            l: u.l,
            pointers: Seq::empty(),
        };
        let staged = function_staged(u.l, pe, f, code);
        lemma_stage_symbols(begin, pe, f.va, f.size as int, false, 0);
        lemma_stage_sections(begin, pe, f.va, f.size as int, false, 0);
        let align = code_align(pe.arch);
        let base = staged.l.obj.append_offset(0, align) as u64;
        let placed = function_placed(staged, pe, f, base, 0);
        let kind = pointer_reloc(pe.arch);
        let named = staged.l.over(
            staged.l.obj.with_data(0, staged.bytes, align),
        ).with_definition(
            f.name@,
            f.name@,
            base,
            f.size as u64,
            SymbolKind::Text,
            f.is_public,
            false,
            0,
        );
        let variables = pe.symbols.variables@;
        let keys = keys_in(variables.dom(), f.va, f.size as int);
        lemma_label_symbols(named, keys, variables, f.va, base, 0);
        lemma_pointer_symbols(placed, staged.pointers, base, 0, kind, 0);
        lemma_pointer_len(placed, staged.pointers, base, kind, 0);
        let pointed = with_pointers(placed, staged.pointers, base, 0, kind, 0)->0;
        lemma_ref_symbols(pointed, refs, base, 0, branch_reloc(pe.arch), 0);
        lemma_ref_len(pointed, refs, base, branch_reloc(pe.arch), 0);
    }
}

proof fn lemma_stage_sections(
    s: StagedModel,
    pe: &PeContext,
    va: u64,
    size: int,
    clear_all: bool,
    n: int,
)
    ensures
        s.l.obj.sections == staged_from(s, pe, va, size, clear_all, n).l.obj.sections,
    decreases pe.base_relocations@.len() - n,
{
    if 0 <= n < pe.base_relocations@.len() {
        let br = pe.base_relocations@[n];
        let w = pointer_width(pe.arch);
        let off = br.va - va;
        if !pointer_within(pe.arch, br, va, size) || off + w > s.bytes.len() {
            lemma_stage_sections(s, pe, va, size, clear_all, n + 1);
        } else {
            let cleared = patched(s.bytes, off, zeros(w));
            let next = match pe.symbols.spec_resolve_data(le_value(s.bytes, off, w) as u64) {
                Some((name, addend)) => StagedModel {
                    bytes: cleared,
                    l: s.l.with_undef(name, name, SymbolKind::Data),
                    pointers: s.pointers.push(
                        Pointer { offset: off as u64, symbol: s.l.undef_number(name), addend },
                    ),
                },
                None => StagedModel {
                    bytes: if clear_all {
                        cleared
                    } else {
                        s.bytes
                    },
                    ..s
                },
            };
            lemma_stage_sections(next, pe, va, size, clear_all, n + 1);
        }
    }
}

proof fn lemma_functions_grow(
    u: UnitModel,
    pe: &PeContext,
    cu: &PeCompilationUnit,
    text: PeSection,
    live: Seq<(u64, usize)>,
    i: int,
)
    requires
        u.l.obj.sections.len() == 1,
        with_functions(u, pe, cu, text, live, 0, i) is Some,
    ensures
        ({
            let end = with_functions(u, pe, cu, text, live, 0, i)->0;
            &&& u.l.obj.symbols.len() <= end.l.obj.symbols.len()
            &&& end.l.obj.sections.len() == 1
            &&& u.l.obj.sections[0].data.len() <= end.l.obj.sections[0].data.len()
        }),
    decreases live.len() - i,
{
    if 0 <= i < live.len() {
        let f = cu.functions@[live[i].1 as int];
        let v = with_function(u, pe, text, f, 0)->0;
        lemma_function_grows(u, pe, text, f);
        lemma_functions_grow(v, pe, cu, text, live, i + 1);
    }
}

proof fn lemma_functions(
    u: UnitModel,
    pe: &PeContext,
    cu: &PeCompilationUnit,
    text: PeSection,
    live: Seq<(u64, usize)>,
    i: int,
)
    requires
        0 <= i <= live.len(),
        is_ready(u.l),
        all_spaced(pe, cu, text),
        forall|j: int|
            0 <= j < live.len() ==> (#[trigger] live[j]).1 < cu.functions@.len() && (is_live(
                text,
                cu.functions@[live[j].1 as int],
            ) || cu.functions@[live[j].1 as int].va - text.va + cu.functions@[live[j].1
                as int].size > text.data@.len()),
        with_functions(u, pe, cu, text, live, 0, i) is Some,
        with_functions(u, pe, cu, text, live, 0, i)->0.l.obj.symbols.len() <= usize::MAX,
        addressable(with_functions(u, pe, cu, text, live, 0, i)->0.l.obj),
    ensures
        ({
            let end = with_functions(u, pe, cu, text, live, 0, i)->0.l;
            let from = u.l.obj.sections[0].relocations.len();
            &&& is_ready(end)
            &&& end.obj.sections[0].name == u.l.obj.sections[0].name
            &&& keeps_below(u.l.obj, end.obj, 0, u.l.obj.sections[0].data.len() as int)
            &&& end.obj.sections[0].relocations.len() == from + relocation_count(
                pe,
                cu,
                text,
                live,
                i,
            )
            &&& forall|j: int|
                i <= j < live.len() && is_live(text, cu.functions@[(#[trigger] live[j]).1 as int])
                    ==> has_live(end.obj, pe, cu, text, live[j].1 as int)
            &&& forall|p: int|
                from <= p < end.obj.sections[0].relocations.len() ==> #[trigger] is_owned(
                    end.obj,
                    pe,
                    cu,
                    text,
                    p,
                )
        }),
    decreases live.len() - i,
{
    if i < live.len() {
        let k = live[i].1 as int;
        let f = cu.functions@[k];
        let v = with_function(u, pe, text, f, 0)->0;
        let end = with_functions(u, pe, cu, text, live, 0, i)->0.l.obj;
        let from = u.l.obj.sections[0].relocations.len() as int;
        if is_live(text, f) {
            lemma_function_grows(u, pe, text, f);
            lemma_functions_grow(v, pe, cu, text, live, i + 1);
            assert(addressable(v.l.obj)) by {
                assert(end.sections[0].data.len() <= u64::MAX);
            }
            lemma_function(u, pe, text, f);
            lemma_functions(v, pe, cu, text, live, i + 1);
            let s = choose|s: int| #[trigger] has_function(v.l.obj, pe, text, f, s, from);
            lemma_function_stays(v.l.obj, end, pe, text, f, s, from);
            lemma_keeps_on(
                u.l.obj,
                v.l.obj,
                end,
                0,
                u.l.obj.sections[0].data.len() as int,
                v.l.obj.sections[0].data.len() as int,
            );
            assert(has_live(end, pe, cu, text, k));
            assert forall|p: int|
                from <= p < end.sections[0].relocations.len() implies #[trigger] is_owned(
                end,
                pe,
                cu,
                text,
                p,
            ) by {
                if p < from + wants_of(pe, text, f).len() {
                    assert(has_function(end, pe, text, f, s, from));
                    assert(belongs_to(end, pe, cu, text, p, k));
                }
            }
        } else {
            assert(v == u);
            lemma_functions(v, pe, cu, text, live, i + 1);
        }
    }
}

proof fn lemma_found(functions: Seq<PeFunction>, text: PeSection, n: int)
    requires
        0 <= n <= functions.len() <= usize::MAX,
    ensures
        ({
            let found = live_among(functions, text, n);
            &&& forall|i: int|
                0 <= i < found.len() ==> (#[trigger] found[i]).1 < n && functions[found[i].1
                    as int].size > 0 && text.va <= functions[found[i].1 as int].va < text.va
                    + text.virtual_size && found[i].0 == functions[found[i].1 as int].va
            &&& forall|i: int, j: int|
                0 <= i < j < found.len() ==> (#[trigger] found[i]).1 < (#[trigger] found[j]).1
            &&& forall|k: int|
                0 <= k < n && is_live(text, #[trigger] functions[k]) ==> found.contains(
                    (functions[k].va, k as usize),
                )
        }),
    decreases n,
{
    if n > 0 {
        lemma_found(functions, text, n - 1);
        let before = live_among(functions, text, n - 1);
        let found = live_among(functions, text, n);
        assert forall|k: int|
            0 <= k < n && is_live(text, #[trigger] functions[k]) implies found.contains(
            (functions[k].va, k as usize),
        ) by {
            let e = (functions[k].va, k as usize);
            if k < n - 1 {
                let i = choose|i: int| 0 <= i < before.len() && before[i] == e;
                assert(found[i] == e);
            } else {
                assert(found[before.len() as int] == e);
            }
        }
    }
}

/// The functions that go into an object are those that take up space in the section, each
/// once, in the order of their addresses.
pub proof fn law_functions_keep_their_order(cu: &PeCompilationUnit, text: PeSection)
    requires
        cu.functions@.len() <= usize::MAX,
    ensures
        ({
            let live = live_functions(cu, text);
            &&& forall|i: int|
                0 <= i < live.len() ==> {
                    let e = #[trigger] live[i];
                    let f = cu.functions@[e.1 as int];
                    e.1 < cu.functions@.len() && e.0 == f.va && f.size > 0 && text.va <= f.va
                        < text.va + text.virtual_size
                }
            &&& forall|i: int, j: int|
                0 <= i < j < live.len() ==> (#[trigger] live[i]).0 <= (#[trigger] live[j]).0
                    && live[i].1 != live[j].1
            &&& forall|k: int|
                0 <= k < cu.functions@.len() && is_live(text, #[trigger] cu.functions@[k])
                    ==> live.contains((cu.functions@[k].va, k as usize))
        }),
{
    let live = live_functions(cu, text);
    let found = live_among(cu.functions@, text, cu.functions@.len() as int);
    lemma_found(cu.functions@, text, cu.functions@.len() as int);
    lemma_stable_sorted(found, by_address());
    lemma_stable_sorted_numbers(found);
    assert forall|i: int| 0 <= i < live.len() implies {
        let e = #[trigger] live[i];
        let f = cu.functions@[e.1 as int];
        e.1 < cu.functions@.len() && e.0 == f.va && f.size > 0 && text.va <= f.va < text.va
            + text.virtual_size
    } by {
        lemma_stable_sorted_contains(found, by_address(), live[i]);
        assert(live.contains(live[i]));
        let k = choose|k: int| 0 <= k < found.len() && found[k] == live[i];
        assert(found[k] == live[i]);
    }
    assert forall|k: int|
        0 <= k < cu.functions@.len() && is_live(
            text,
            #[trigger] cu.functions@[k],
        ) implies live.contains((cu.functions@[k].va, k as usize)) by {
        lemma_stable_sorted_contains(found, by_address(), (cu.functions@[k].va, k as usize));
    }
}

/// True when a section of the object is a contribution with contents: it has the bytes of
/// the contribution, but for the pointers in it, with the relocations of the pointers and no
/// others, and a symbol for each datum at its distance from the start.
pub open spec fn has_contribution(m: ObjectModel, pe: &PeContext, c: PeContrib, sid: nat) -> bool {
    let k = section_index(pe.sections@, c.section_name@);
    let bytes = contribution_bytes(pe.sections@[k->0], c);
    let wants = pointers_wanted(
        pe,
        c.va,
        c.size as int,
        bytes,
        pe.base_relocations@.len() as int,
    );
    &&& sid < m.sections.len()
    &&& m.sections[sid as int].name == c.section_name@
    &&& m.sections[sid as int].data.len() == bytes.len()
    &&& m.sections[sid as int].relocations.len() == wants.len()
    &&& has_code(m, sid, 0, without_marks(pe, c.va, c.size as int, bytes), wants, 0)
    &&& forall|va: u64| #[trigger]
        pe.symbols.variables@.contains_key(va) && c.va <= va < c.va + c.size ==> defines_datum(
            m,
            pe.symbols.variables@[va].name@,
            (va - c.va) as u64,
            sid,
        )
}

/// True when the contribution becomes a section with contents.
pub open spec fn has_contents(pe: &PeContext, c: PeContrib) -> bool {
    &&& c.section_name@ != ".text"@
    &&& section_index(pe.sections@, c.section_name@) matches Some(k) && data_kind(
        pe.sections@[k].characteristics,
    ) != SectionKind::UninitializedData && c.va >= pe.sections@[k].va && c.va
        - pe.sections@[k].va <= pe.sections@[k].data@.len()
}

/// True when the pointers in the contribution share no byte.
pub open spec fn is_contribution_spaced(pe: &PeContext, c: PeContrib) -> bool {
    marks_apart(pe, c.va, c.size as int, Seq::<Want>::empty())
}

/// True when `b` has all symbols and sections of `a` as they are.
spec fn is_behind(a: ObjectModel, b: ObjectModel) -> bool {
    &&& a.format == b.format
    &&& a.machine == b.machine
    &&& a.symbols.len() <= b.symbols.len()
    &&& forall|i: int| 0 <= i < a.symbols.len() ==> #[trigger] b.symbols[i] == a.symbols[i]
    &&& a.sections.len() <= b.sections.len()
    &&& forall|i: int| 0 <= i < a.sections.len() ==> #[trigger] b.sections[i] == a.sections[i]
}

proof fn lemma_data_symbols(
    m: ObjectModel,
    keys: Seq<u64>,
    variables: Map<u64, PeVariable>,
    va: u64,
    sid: usize,
    i: int,
)
    requires
        0 <= i <= keys.len(),
    ensures
        ({
            let end = with_data_symbols(m, keys, variables, va, sid, i);
            &&& is_behind(m, end)
            &&& end.sections == m.sections
            &&& forall|j: int|
                i <= j < keys.len() ==> defines_datum(
                    end,
                    variables[#[trigger] keys[j]].name@,
                    (keys[j] - va) as u64,
                    sid as nat,
                )
        }),
    decreases keys.len() - i,
{
    if i < keys.len() {
        let v = variables[keys[i]];
        let next = m.with_symbol(
            symbol(
                v.name@,
                (keys[i] - va) as u64,
                0,
                SymbolKind::Data,
                v.is_public,
                false,
                Some(sid),
            ),
        );
        lemma_data_symbols(next, keys, variables, va, sid, i + 1);
        let end = with_data_symbols(m, keys, variables, va, sid, i);
        let s = m.symbols.len() as int;
        assert(end.symbols[s] == next.symbols[s]);
        assert(is_data_symbol(
            end,
            end.symbols[s],
            v.name@,
            (keys[i] - va) as u64,
            sid as nat,
        ));
        assert forall|k: int| 0 <= k < m.symbols.len() implies #[trigger] end.symbols[k]
            == m.symbols[k] by {
            assert(next.symbols[k] == m.symbols[k]);
        }
    }
}

/// What a contribution adds.
#[verifier::rlimit(40)]
proof fn lemma_contribution(u: UnitModel, pe: &PeContext, c: PeContrib)
    requires
        knows(u.l, as_is()),
        u.l.obj.format == ObjectFormat::Coff,
        u.l.obj.sections.len() < usize::MAX,
        with_contribution(u, pe, c) is Some,
        with_contribution(u, pe, c)->0.l.obj.symbols.len() <= usize::MAX,
        has_contents(pe, c) ==> is_contribution_spaced(pe, c),
        c.section_name@ != ".text"@ && section_index(pe.sections@, c.section_name@) is Some ==> {
            let s = pe.sections@[section_index(pe.sections@, c.section_name@)->0];
            data_kind(s.characteristics) == SectionKind::UninitializedData || s.va <= c.va && c.va - s.va <= s.data@.len() && s.data@.len() <= u64::MAX
        },
    ensures
        ({
            let v = with_contribution(u, pe, c)->0;
            &&& knows(v.l, as_is())
            &&& is_behind(u.l.obj, v.l.obj)
            &&& v.l.obj.sections.len() <= u.l.obj.sections.len() + 1
            &&& has_contents(pe, c) ==> has_contribution(
                v.l.obj,
                pe,
                c,
                u.l.obj.sections.len() as nat,
            )
        }),
{
    if c.section_name@ != ".text"@ && section_index(pe.sections@, c.section_name@) is Some {
        let s = pe.sections@[section_index(pe.sections@, c.section_name@)->0];
        let kind = data_kind(s.characteristics);
        let sid = u.l.obj.sections.len() as usize;
        let opened = u.l.over(u.l.obj.with_section(""@, c.section_name@, kind));
        let variables = pe.symbols.variables@;
        let keys = keys_in(variables.dom(), c.va, c.size as int);
        let v = with_contribution(u, pe, c)->0;
        lemma_knows_over(u.l, opened, as_is());
        if kind == SectionKind::UninitializedData {
            let filled = opened.obj.with_bss(sid as nat, c.size as u64, 1);
            lemma_data_symbols(filled, keys, variables, c.va, sid, 0);
            lemma_knows_over(u.l, v.l, as_is());
        } else {
            let bytes = contribution_bytes(s, c);
            let size = c.size as int;
            let count = pe.base_relocations@.len() as int;
            let none = Seq::<Want>::empty();
            let begin = StagedModel { bytes, l: opened, pointers: Seq::empty() };
            let staged = staged_from(begin, pe, c.va, size, true, 0);
            let filled = staged.l.over(staged.l.obj.with_data(sid as nat, staged.bytes, 1));
            let l = with_pointers(filled, staged.pointers, 0, sid, pointer_reloc(pe.arch), 0)->0;
            lemma_data_symbols(l.obj, keys, variables, c.va, sid, 0);
            lemma_pointer_symbols(filled, staged.pointers, 0, sid, pointer_reloc(pe.arch), 0);
            assert(v.l.obj == with_data_symbols(l.obj, keys, variables, c.va, sid, 0));
            assert(is_blanked(pe, c.va, size, bytes, none, 0, true, bytes)) by {
                assert(forall|j: int| !#[trigger] in_fields(none, j));
                assert(forall|j: int|
                    !#[trigger] in_fields(pointers_wanted(pe, c.va, size, bytes, 0), j));
                assert forall|j: int| !#[trigger] in_marks(
                    pe,
                    c.va,
                    size,
                    bytes.len() as int,
                    0,
                    j,
                ) by {
                    if in_marks(pe, c.va, size, bytes.len() as int, 0, j) {
                        let h = choose|h: int| h < 0 && #[trigger] is_within(pe, c.va, size, h);
                        assert(h < 0 && 0 <= h);
                    }
                }
            }
            lemma_stage(begin, opened, pe, c.va, size, bytes, none, true, 0);
            lemma_pointers_spaced(pe, c.va, size, bytes, count, none);
            let wants = pointers_wanted(pe, c.va, size, bytes, count);
            assert(wants + none =~= wants);
            let data = filled.obj.sections[sid as int].data;
            assert(opened.obj.sections[sid as int].data.len() == 0);
            assert(data =~= staged.bytes);
            lemma_blank_fields(
                filled.obj,
                pe,
                c.va,
                size,
                bytes,
                none,
                true,
                staged.bytes,
                sid as int,
                0,
            );
            assert(filled.obj.sections[sid as int].relocations.len() == 0);
            let shown = without_marks(pe, c.va, size, bytes);
            assert(shown.len() == bytes.len());
            assert(wants.take(wants.len() as int) =~= wants);
            assert(is_staged(staged.pointers, wants, filled.obj));
            assert forall|k: int| 0 <= k < wants.len() implies (#[trigger] wants[k]).kind
                == pointer_reloc(pe.arch) by {
                assert(is_from(pe, c.va, size, count, wants[k]));
            }
            lemma_knows_over(staged.l, filled, as_is());
            lemma_pointers(
                filled,
                staged.pointers,
                wants,
                wants.len() as int,
                0,
                sid,
                pointer_reloc(pe.arch),
                0,
                shown,
                0,
            );
            lemma_knows_over(l, v.l, as_is());
            assert(keeps_below(l.obj, v.l.obj, sid as nat, shown.len() as int));
            lemma_code_stays(
                l.obj,
                v.l.obj,
                sid as nat,
                0,
                shown,
                wants,
                0,
                wants.len() as int,
                shown.len() as int,
            );
            assert forall|va: u64| #[trigger]
                variables.contains_key(va) && c.va <= va < c.va + c.size implies defines_datum(
                v.l.obj,
                variables[va].name@,
                (va - c.va) as u64,
                sid as nat,
            ) by {
                let hi = if c.va + size - 1 > u64::MAX {
                    u64::MAX
                } else {
                    (c.va + size - 1) as u64
                };
                lemma_keys_between(variables.dom(), c.va, hi);
                assert(keys == keys_between(variables.dom(), c.va, hi));
                assert(keys.contains(va));
                let j = choose|j: int| 0 <= j < keys.len() && keys[j] == va;
                assert(keys[j] == va);
            }
            assert forall|i: int|
                0 <= i < u.l.obj.symbols.len() implies #[trigger] v.l.obj.symbols[i]
                == u.l.obj.symbols[i] by {
                assert(staged.l.obj.symbols[i] == opened.obj.symbols[i]);
                assert(l.obj.symbols[i] == filled.obj.symbols[i]);
            }
            assert forall|i: int|
                0 <= i < u.l.obj.sections.len() implies #[trigger] v.l.obj.sections[i]
                == u.l.obj.sections[i] by {
                assert(l.obj.sections[i] == filled.obj.sections[i]);
                assert(staged.l.obj.sections[i] == opened.obj.sections[i]);
            }
        }
    }
}

/// What a section holds stays where the section does.
proof fn lemma_contribution_stays(
    a: ObjectModel,
    b: ObjectModel,
    pe: &PeContext,
    c: PeContrib,
    sid: nat,
)
    requires
        is_behind(a, b),
        has_contents(pe, c),
        is_contribution_spaced(pe, c),
        pe.sections@[section_index(pe.sections@, c.section_name@)->0].data@.len() <= u64::MAX,
        has_contribution(a, pe, c, sid),
    ensures
        has_contribution(b, pe, c, sid),
{
    let s = pe.sections@[section_index(pe.sections@, c.section_name@)->0];
    let bytes = contribution_bytes(s, c);
    let size = c.size as int;
    let count = pe.base_relocations@.len() as int;
    let none = Seq::<Want>::empty();
    let wants = pointers_wanted(pe, c.va, size, bytes, count);
    let shown = without_marks(pe, c.va, size, bytes);
    assert(b.sections[sid as int] == a.sections[sid as int]);
    lemma_pointers_spaced(pe, c.va, size, bytes, count, none);
    assert(wants + none =~= wants);
    assert(keeps_below(a, b, sid, shown.len() as int));
    lemma_code_stays(
        a,
        b,
        sid,
        0,
        shown,
        wants,
        0,
        wants.len() as int,
        shown.len() as int,
    );
    assert forall|va: u64| #[trigger]
        pe.symbols.variables@.contains_key(va) && c.va <= va < c.va + c.size implies defines_datum(
        b,
        pe.symbols.variables@[va].name@,
        (va - c.va) as u64,
        sid,
    ) by {
        let name = pe.symbols.variables@[va].name@;
        let value = (va - c.va) as u64;
        let x = choose|x: int|
            0 <= x < a.symbols.len() && is_data_symbol(
                a,
                #[trigger] a.symbols[x],
                name,
                value,
                sid,
            );
        assert(b.symbols[x] == a.symbols[x]);
        assert(is_data_symbol(b, b.symbols[x], name, value, sid));
    }
}

/// True when the contribution begins in its section and the pointers in it share no byte.
pub open spec fn is_sound(pe: &PeContext, c: PeContrib) -> bool {
    &&& has_contents(pe, c) ==> is_contribution_spaced(pe, c)
    &&& c.section_name@ != ".text"@ && section_index(pe.sections@, c.section_name@) is Some ==> {
        let s = pe.sections@[section_index(pe.sections@, c.section_name@)->0];
        data_kind(s.characteristics) == SectionKind::UninitializedData || s.va <= c.va && c.va - s.va <= s.data@.len() && s.data@.len() <= u64::MAX
    }
}

/// True when some section of the object is the contribution.
pub open spec fn has_section_of(m: ObjectModel, pe: &PeContext, c: PeContrib) -> bool {
    exists|sid: nat| #[trigger] has_contribution(m, pe, c, sid)
}

proof fn lemma_contributions(u: UnitModel, pe: &PeContext, cs: Seq<PeContrib>, i: int)
    requires
        0 <= i <= cs.len(),
        knows(u.l, as_is()),
        u.l.obj.format == ObjectFormat::Coff,
        u.l.obj.sections.len() + (cs.len() - i) <= usize::MAX,
        forall|j: int| 0 <= j < cs.len() ==> is_sound(pe, #[trigger] cs[j]),
        with_contributions(u, pe, cs, i) is Some,
        with_contributions(u, pe, cs, i)->0.l.obj.symbols.len() <= usize::MAX,
    ensures
        ({
            let end = with_contributions(u, pe, cs, i)->0.l.obj;
            &&& is_behind(u.l.obj, end)
            &&& forall|j: int|
                i <= j < cs.len() && has_contents(pe, #[trigger] cs[j]) ==> has_section_of(
                    end,
                    pe,
                    cs[j],
                )
        }),
    decreases cs.len() - i,
{
    if i < cs.len() {
        let v = with_contribution(u, pe, cs[i])->0;
        let end = with_contributions(u, pe, cs, i)->0.l.obj;
        assert(is_sound(pe, cs[i]));
        lemma_contribution_symbols(v, pe, cs, i + 1);
        lemma_contribution(u, pe, cs[i]);
        lemma_contributions(v, pe, cs, i + 1);
        if has_contents(pe, cs[i]) {
            let sid = u.l.obj.sections.len() as nat;
            lemma_contribution_stays(v.l.obj, end, pe, cs[i], sid);
        }
        assert forall|k: int| 0 <= k < u.l.obj.symbols.len() implies #[trigger] end.symbols[k]
            == u.l.obj.symbols[k] by {
            assert(v.l.obj.symbols[k] == u.l.obj.symbols[k]);
        }
        assert forall|k: int| 0 <= k < u.l.obj.sections.len() implies #[trigger] end.sections[k]
            == u.l.obj.sections[k] by {
            assert(v.l.obj.sections[k] == u.l.obj.sections[k]);
        }
    }
}

proof fn lemma_contribution_symbols(u: UnitModel, pe: &PeContext, cs: Seq<PeContrib>, i: int)
    requires
        with_contributions(u, pe, cs, i) is Some,
    ensures
        u.l.obj.symbols.len() <= with_contributions(u, pe, cs, i)->0.l.obj.symbols.len(),
    decreases cs.len() - i,
{
    if 0 <= i < cs.len() {
        let c = cs[i];
        let v = with_contribution(u, pe, c)->0;
        if c.section_name@ != ".text"@ && section_index(pe.sections@, c.section_name@) is Some {
            let s = pe.sections@[section_index(pe.sections@, c.section_name@)->0];
            let kind = data_kind(s.characteristics);
            let sid = u.l.obj.sections.len() as usize;
            let opened = u.l.over(u.l.obj.with_section(""@, c.section_name@, kind));
            let variables = pe.symbols.variables@;
            let keys = keys_in(variables.dom(), c.va, c.size as int);
            if kind == SectionKind::UninitializedData {
                let filled = opened.obj.with_bss(sid as nat, c.size as u64, 1);
                lemma_data_symbols(filled, keys, variables, c.va, sid, 0);
            } else {
                let begin = StagedModel {
                    bytes: contribution_bytes(s, c),
                    l: opened,
                    pointers: Seq::empty(),
                };
                let staged = staged_from(begin, pe, c.va, c.size as int, true, 0);
                lemma_stage_symbols(begin, pe, c.va, c.size as int, true, 0);
                let filled = staged.l.over(staged.l.obj.with_data(sid as nat, staged.bytes, 1));
                let kind = pointer_reloc(pe.arch);
                lemma_pointer_symbols(filled, staged.pointers, 0, sid, kind, 0);
                let l = with_pointers(filled, staged.pointers, 0, sid, kind, 0)->0;
                lemma_data_symbols(l.obj, keys, variables, c.va, sid, 0);
            }
        }
        lemma_contribution_symbols(v, pe, cs, i + 1);
    }
}

/// The object of a unit has, for each live function, a symbol of the function's name and in
/// its first section the function's code where the symbol says, with the relocations of the
/// pointers in it and of the references that recovery finds: each at its offset from the
/// symbol, against the symbol of the name that it refers to, with its addend. The section
/// has no others, and so each lies in the code of the function it was found in. Each
/// contribution with contents is a section with the relocations of its pointers.
pub proof fn law_relocations_lie_in_their_function(pe: &PeContext, cu: &PeCompilationUnit)
    requires
        cu.functions@.len() <= usize::MAX,
        cu.contributions@.len() < usize::MAX,
        unit_object(pe, cu) is Ok,
        addressable((unit_object(pe, cu)->Ok_0).0),
        (unit_object(pe, cu)->Ok_0).0.symbols.len() <= usize::MAX,
        all_spaced(pe, cu, pe.sections@[section_index(pe.sections@, ".text"@)->0]),
        forall|j: int|
            0 <= j < cu.contributions@.len() ==> is_sound(pe, #[trigger] cu.contributions@[j]),
    ensures
        ({
            let m = (unit_object(pe, cu)->Ok_0).0;
            let text = pe.sections@[section_index(pe.sections@, ".text"@)->0];
            &&& m.sections.len() >= 1
            &&& m.sections[0].name == ".text"@
            &&& forall|k: int|
                0 <= k < cu.functions@.len() && is_live(text, #[trigger] cu.functions@[k])
                    ==> has_live(m, pe, cu, text, k)
            &&& forall|p: int|
                0 <= p < m.sections[0].relocations.len() ==> #[trigger] is_owned(
                    m,
                    pe,
                    cu,
                    text,
                    p,
                )
            &&& m.sections[0].relocations.len() == relocation_count(
                pe,
                cu,
                text,
                live_functions(cu, text),
                0,
            )
            &&& forall|j: int|
                0 <= j < cu.contributions@.len() && has_contents(
                    pe,
                    #[trigger] cu.contributions@[j],
                ) ==> has_section_of(m, pe, cu.contributions@[j])
        }),
{
    let text = pe.sections@[section_index(pe.sections@, ".text"@)->0];
    let live = live_functions(cu, text);
    let m = (unit_object(pe, cu)->Ok_0).0;
    let empty = LinkageModel::empty(ObjectFormat::Coff, machine_of(pe.arch));
    let opened = empty.over(empty.obj.with_section(""@, ".text"@, SectionKind::Text));
    let u = UnitModel { l: opened, stats: no_stats() };
    let coded = with_functions(u, pe, cu, text, live, 0, 0)->0;
    law_functions_keep_their_order(cu, text);
    lemma_functions_grow(u, pe, cu, text, live, 0);
    lemma_contribution_symbols(coded, pe, cu.contributions@, 0);
    lemma_first_section_stays(coded, pe, cu.contributions@, 0);
    assert(addressable(coded.l.obj)) by {
        assert(m.sections[0].data.len() <= u64::MAX);
    }
    lemma_functions(u, pe, cu, text, live, 0);
    lemma_contributions(coded, pe, cu.contributions@, 0);
    assert(m.sections[0] == coded.l.obj.sections[0]);
    assert(keeps_below(coded.l.obj, m, 0, coded.l.obj.sections[0].data.len() as int));
    assert forall|k: int|
        0 <= k < cu.functions@.len() && is_live(
            text,
            #[trigger] cu.functions@[k],
        ) implies has_live(m, pe, cu, text, k) by {
        let f = cu.functions@[k];
        let e = (f.va, k as usize);
        assert(live.contains(e));
        let j = choose|j: int| 0 <= j < live.len() && live[j] == e;
        assert(live[j].1 as int == k);
        assert(has_live(coded.l.obj, pe, cu, text, k));
        let (s, first) = choose|s: int, first: int| #[trigger]
            has_function(coded.l.obj, pe, text, f, s, first);
        lemma_function_stays(coded.l.obj, m, pe, text, f, s, first);
    }
    assert forall|p: int| 0 <= p < m.sections[0].relocations.len() implies #[trigger] is_owned(
        m,
        pe,
        cu,
        text,
        p,
    ) by {
        assert(is_owned(coded.l.obj, pe, cu, text, p));
        let k = choose|k: int| #[trigger] belongs_to(coded.l.obj, pe, cu, text, p, k);
        let f = cu.functions@[k];
        let (s, first) = choose|s: int, first: int| #[trigger]
            has_function(coded.l.obj, pe, text, f, s, first) && first <= p < first + wants_of(
                pe,
                text,
                f,
            ).len();
        lemma_function_stays(coded.l.obj, m, pe, text, f, s, first);
        assert(belongs_to(m, pe, cu, text, p, k));
    }
}

/// Contributions leave the first section alone.
proof fn lemma_first_section_stays(u: UnitModel, pe: &PeContext, cs: Seq<PeContrib>, i: int)
    requires
        u.l.obj.sections.len() >= 1,
        u.l.obj.sections.len() + (cs.len() - i) <= usize::MAX,
        0 <= i <= cs.len(),
        with_contributions(u, pe, cs, i) is Some,
    ensures
        ({
            let end = with_contributions(u, pe, cs, i)->0.l.obj;
            &&& end.sections.len() >= 1
            &&& end.sections[0] == u.l.obj.sections[0]
        }),
    decreases cs.len() - i,
{
    if i < cs.len() {
        let c = cs[i];
        let v = with_contribution(u, pe, c)->0;
        if c.section_name@ != ".text"@ && section_index(pe.sections@, c.section_name@) is Some {
            let s = pe.sections@[section_index(pe.sections@, c.section_name@)->0];
            let kind = data_kind(s.characteristics);
            let sid = u.l.obj.sections.len() as usize;
            let opened = u.l.over(u.l.obj.with_section(""@, c.section_name@, kind));
            let variables = pe.symbols.variables@;
            let keys = keys_in(variables.dom(), c.va, c.size as int);
            if kind == SectionKind::UninitializedData {
                let filled = opened.obj.with_bss(sid as nat, c.size as u64, 1);
                lemma_data_symbols(filled, keys, variables, c.va, sid, 0);
            } else {
                let begin = StagedModel {
                    bytes: contribution_bytes(s, c),
                    l: opened,
                    pointers: Seq::empty(),
                };
                let staged = staged_from(begin, pe, c.va, c.size as int, true, 0);
                lemma_stage_sections(begin, pe, c.va, c.size as int, true, 0);
                let filled = staged.l.over(staged.l.obj.with_data(sid as nat, staged.bytes, 1));
                let kind = pointer_reloc(pe.arch);
                lemma_other_sections(filled, staged.pointers, sid, kind, 0);
                let l = with_pointers(filled, staged.pointers, 0, sid, kind, 0)->0;
                lemma_data_symbols(l.obj, keys, variables, c.va, sid, 0);
            }
        }
        assert(v.l.obj.sections[0] == u.l.obj.sections[0]);
        lemma_first_section_stays(v, pe, cs, i + 1);
    }
}

proof fn lemma_other_sections(
    l: LinkageModel,
    pointers: Seq<Pointer>,
    sid: usize,
    kind: RelocationType,
    i: int,
)
    requires
        0 < sid < l.obj.sections.len(),
        with_pointers(l, pointers, 0, sid, kind, i) is Some,
    ensures
        ({
            let end = with_pointers(l, pointers, 0, sid, kind, i)->0.obj;
            &&& end.sections.len() == l.obj.sections.len()
            &&& end.sections[0] == l.obj.sections[0]
        }),
    decreases pointers.len() - i,
{
    if 0 <= i < pointers.len() {
        let p = pointers[i];
        let at = (0 + p.offset) as u64;
        let added = l.over(
            l.obj.with_relocation(sid as nat, at, p.symbol as nat, kind, p.addend as int),
        );
        lemma_other_sections(added, pointers, sid, kind, i + 1);
    }
}

} // verus!
