//! What the code of a function has in its relocated fields as it goes into an object.
use vstd::prelude::*;

use super::code::{
    arm_code, prepared, with_addends, Aarch64Recovery, Aarch64RelocKind, CodeModel, PreparedView,
};
use crate::arch::Arch;
use crate::arm::addend::{decoded, encoded, fits, law_addend_round_trip, RelocKind};
use crate::arm::recover::{recovered, Context, RelocView};
use crate::bytes::{le_bytes, le_value, lemma_le_bytes_len, patched};

verus! {

/// The relocation type of an AArch64 kind.
pub open spec fn aarch64_number(kind: Aarch64RelocKind) -> u32 {
    match kind {
        Aarch64RelocKind::Call26 => 283,
        Aarch64RelocKind::Jump26 => 282,
        Aarch64RelocKind::AdrPrelPgHi21 => 275,
        Aarch64RelocKind::AddAbsLo12Nc => 277,
        Aarch64RelocKind::Ldst8AbsLo12Nc => 278,
        Aarch64RelocKind::Ldst16AbsLo12Nc => 284,
        Aarch64RelocKind::Ldst32AbsLo12Nc => 285,
        Aarch64RelocKind::Ldst64AbsLo12Nc => 286,
        Aarch64RelocKind::Ldst128AbsLo12Nc => 299,
        Aarch64RelocKind::AdrGotPage => 311,
        Aarch64RelocKind::Ld64GotLo12Nc => 312,
    }
}

/// The relocation type of an ARM kind.
pub open spec fn arm_number(kind: RelocKind) -> u32 {
    match kind {
        RelocKind::Call => 28,
        RelocKind::Jump24 => 29,
        RelocKind::Rel32 => 3,
        RelocKind::GotPrel => 96,
        RelocKind::Abs32 => 2,
        RelocKind::Prel31 => 42,
    }
}

/// The bytes of the function in the code section.
pub open spec fn bytes_of(cx: Context) -> Seq<u8> {
    cx.bytes.subrange(cx.fn_addr - cx.base, cx.fn_addr - cx.base + cx.fn_size)
}

/// True when no other field shares a byte with that of relocation `k`.
pub open spec fn is_alone(relocs: Seq<RelocView>, k: int) -> bool {
    forall|j: int|
        0 <= j < relocs.len() && j != k ==> ((#[trigger] relocs[j]).offset + 4 <= relocs[k].offset
            || relocs[k].offset + 4 <= relocs[j].offset)
}

/// True when byte `b` is in some field.
pub open spec fn in_fields(relocs: Seq<RelocView>, b: int) -> bool {
    exists|j: int|
        0 <= j < relocs.len() && (#[trigger] relocs[j]).offset <= b < relocs[j].offset + 4
}

/// True when the field of relocation `k` holds its addend: a linker reads it back, and of
/// what stood there before it leaves the condition and the operation of a branch.
pub open spec fn field_holds(
    before: Seq<u8>,
    after: Seq<u8>,
    relocs: Seq<RelocView>,
    k: int,
) -> bool {
    let r = relocs[k];
    let at = r.offset as int;
    &&& at + 4 <= after.len()
    &&& decoded(r.kind, le_value(after, at, 4) as u32) == r.addend
    &&& r.kind == RelocKind::Call || r.kind == RelocKind::Jump24 ==> after[at + 3]
        == before[at + 3]
}

/// Code goes into an object as it was, with a relocation for each that recovery found: at
/// the same offset, to the same symbol, of the type of its kind. The addend is in the
/// relocation on AArch64. On ARM it is in the field, and the rest of the code stays.
pub proof fn law_code_keeps_its_relocations(
    arch: Arch,
    cx: Context,
    disassembles: bool,
    rec: Option<Aarch64Recovery>,
)
    requires
        prepared(arch, cx, disassembles, rec) is Ok,
    ensures
        ({
            let code = prepared(arch, cx, disassembles, rec)->Ok_0;
            match arch {
                Arch::Aarch64 => {
                    &&& rec is Some
                    &&& code.bytes == bytes_of(cx)
                    &&& code.relocs.len() == rec->0.relocs@.len()
                    &&& forall|k: int|
                        0 <= k < code.relocs.len() ==> {
                            let r = rec->0.relocs@[k];
                            let x = #[trigger] code.relocs[k];
                            x.offset == r.offset && x.target == r.target@ && x.addend == r.addend
                                && x.r_type == aarch64_number(r.kind)
                        }
                },
                Arch::Arm => {
                    let relocs = recovered(cx).relocs;
                    let was = bytes_of(cx);
                    &&& code.bytes.len() == was.len()
                    &&& code.relocs.len() == relocs.len()
                    &&& forall|k: int|
                        0 <= k < code.relocs.len() ==> {
                            let r = relocs[k];
                            let x = #[trigger] code.relocs[k];
                            x.offset == r.offset && x.target == r.target && x.addend == 0
                                && x.r_type == arm_number(r.kind)
                        }
                    &&& forall|k: int|
                        0 <= k < relocs.len() && #[trigger] is_alone(relocs, k) && fits(
                            relocs[k].kind,
                            relocs[k].addend,
                        ) ==> field_holds(was, code.bytes, relocs, k)
                    &&& forall|b: int|
                        0 <= b < was.len() && !in_fields(relocs, b) ==> #[trigger] code.bytes[b]
                            == was[b]
                },
            }
        }),
{
    if arch == Arch::Arm {
        let relocs = recovered(cx).relocs;
        let was = bytes_of(cx);
        lemma_addends(was, relocs, 0);
        let code = prepared(arch, cx, disassembles, rec)->Ok_0;
        assert(with_addends(was, relocs, 0) == Some(code.bytes));
        assert forall|k: int|
            0 <= k < relocs.len() && #[trigger] is_alone(relocs, k) && fits(
                relocs[k].kind,
                relocs[k].addend,
            ) implies field_holds(was, code.bytes, relocs, k) by {
            let r = relocs[k];
            let old = le_value(was, r.offset as int, 4) as u32;
            assert(is_alone_from(relocs, 0, k));
            assert(has_word(code.bytes, r.offset as int, encoded(r.kind, old, r.addend)));
            law_addend_round_trip(r.kind, old, r.addend);
            lemma_word(was, code.bytes, r.offset as int, r.kind, r.addend);
        }
        assert forall|b: int|
            0 <= b < was.len() && !in_fields(relocs, b) implies #[trigger] code.bytes[b]
            == was[b] by {
            assert(!in_fields_from(relocs, 0, b)) by {
                if in_fields_from(relocs, 0, b) {
                    let j = choose|j: int|
                        0 <= j < relocs.len() && (#[trigger] relocs[j]).offset <= b
                            < relocs[j].offset + 4;
                    assert(in_fields(relocs, b));
                }
            }
        }
    }
}

spec fn is_alone_from(relocs: Seq<RelocView>, i: int, k: int) -> bool {
    forall|j: int|
        i <= j < relocs.len() && j != k ==> ((#[trigger] relocs[j]).offset + 4 <= relocs[k].offset
            || relocs[k].offset + 4 <= relocs[j].offset)
}

spec fn in_fields_from(relocs: Seq<RelocView>, i: int, b: int) -> bool {
    exists|j: int|
        i <= j < relocs.len() && (#[trigger] relocs[j]).offset <= b < relocs[j].offset + 4
}

/// True when the bytes at `at` are those of the word.
spec fn has_word(s: Seq<u8>, at: int, word: u32) -> bool {
    &&& 0 <= at
    &&& at + 4 <= s.len()
    &&& forall|b: int| 0 <= b < 4 ==> #[trigger] s[at + b] == le_bytes(word as int, 4)[b]
}

proof fn lemma_addends(code: Seq<u8>, relocs: Seq<RelocView>, i: int)
    requires
        0 <= i <= relocs.len(),
        with_addends(code, relocs, i) is Some,
    ensures
        ({
            let end = with_addends(code, relocs, i)->0;
            &&& end.len() == code.len()
            &&& forall|b: int|
                0 <= b < code.len() && !in_fields_from(relocs, i, b) ==> #[trigger] end[b]
                    == code[b]
            &&& forall|k: int|
                i <= k < relocs.len() && #[trigger] is_alone_from(relocs, i, k) ==> has_word(
                    end,
                    relocs[k].offset as int,
                    encoded(
                        relocs[k].kind,
                        le_value(code, relocs[k].offset as int, 4) as u32,
                        relocs[k].addend,
                    ),
                )
        }),
    decreases relocs.len() - i,
{
    if i < relocs.len() {
        let r = relocs[i];
        let at = r.offset as int;
        let word = encoded(r.kind, le_value(code, at, 4) as u32, r.addend);
        lemma_le_bytes_len(word as int, 4);
        let next = patched(code, at, le_bytes(word as int, 4));
        assert(next.len() == code.len());
        lemma_addends(next, relocs, i + 1);
        let end = with_addends(code, relocs, i)->0;
        assert forall|b: int|
            0 <= b < code.len() && !in_fields_from(relocs, i, b) implies #[trigger] end[b]
            == code[b] by {
            assert(!in_fields_from(relocs, i + 1, b)) by {
                if in_fields_from(relocs, i + 1, b) {
                    let j = choose|j: int|
                        i + 1 <= j < relocs.len() && (#[trigger] relocs[j]).offset <= b
                            < relocs[j].offset + 4;
                    assert(in_fields_from(relocs, i, b));
                }
            }
            assert(!(at <= b < at + 4)) by {
                if at <= b < at + 4 {
                    assert(relocs[i].offset <= b < relocs[i].offset + 4);
                }
            }
            assert(next[b] == code[b]);
        }
        assert forall|k: int|
            i <= k < relocs.len() && #[trigger] is_alone_from(relocs, i, k) implies has_word(
            end,
            relocs[k].offset as int,
            encoded(
                relocs[k].kind,
                le_value(code, relocs[k].offset as int, 4) as u32,
                relocs[k].addend,
            ),
        ) by {
            if k == i {
                assert forall|b: int| 0 <= b < 4 implies #[trigger] end[at + b] == le_bytes(
                    word as int,
                    4,
                )[b] by {
                    assert(!in_fields_from(relocs, i + 1, at + b)) by {
                        if in_fields_from(relocs, i + 1, at + b) {
                            let j = choose|j: int|
                                i + 1 <= j < relocs.len() && (#[trigger] relocs[j]).offset <= at
                                    + b < relocs[j].offset + 4;
                            assert(relocs[j].offset + 4 <= relocs[i].offset
                                || relocs[i].offset + 4 <= relocs[j].offset);
                        }
                    }
                    assert(next[at + b] == le_bytes(word as int, 4)[b]);
                }
            } else {
                let o = relocs[k].offset as int;
                assert(is_alone_from(relocs, i + 1, k));
                assert(relocs[i].offset + 4 <= relocs[k].offset || relocs[k].offset + 4
                    <= relocs[i].offset);
                assert(has_word(
                    end,
                    o,
                    encoded(relocs[k].kind, le_value(next, o, 4) as u32, relocs[k].addend),
                ));
                assert(le_value(next, o, 4) == le_value(code, o, 4)) by {
                    assert forall|j: int| o <= j < o + 4 implies next[j] == code[j] by {}
                    lemma_same_value(next, code, o, 4);
                }
            }
        }
    }
}

proof fn lemma_same_value(a: Seq<u8>, b: Seq<u8>, off: int, w: nat)
    requires
        forall|j: int| off <= j < off + w ==> a[j] == b[j],
    ensures
        le_value(a, off, w) == le_value(b, off, w),
    decreases w,
{
    if w > 0 {
        lemma_same_value(a, b, off + 1, (w - 1) as nat);
    }
}

/// What the four bytes of a word are worth.
proof fn lemma_word(was: Seq<u8>, s: Seq<u8>, at: int, kind: RelocKind, addend: i64)
    requires
        was.len() == s.len(),
        has_word(s, at, encoded(kind, le_value(was, at, 4) as u32, addend)),
    ensures
        le_value(s, at, 4) as u32 == encoded(kind, le_value(was, at, 4) as u32, addend),
        kind == RelocKind::Call || kind == RelocKind::Jump24 ==> s[at + 3] == was[at + 3],
{
    let old = le_value(was, at, 4) as u32;
    let word = encoded(kind, old, addend);
    let v = word as int;
    reveal_with_fuel(le_bytes, 5);
    reveal_with_fuel(le_value, 5);
    assert(s[at + 0] == le_bytes(v, 4)[0]);
    assert(s[at + 1] == le_bytes(v, 4)[1]);
    assert(s[at + 2] == le_bytes(v, 4)[2]);
    assert(s[at + 3] == le_bytes(v, 4)[3]);
    assert(le_bytes(v, 4)[0] == (v % 256) as u8);
    assert(le_bytes(v, 4)[1] == (v / 256 % 256) as u8);
    assert(le_bytes(v, 4)[2] == (v / 256 / 256 % 256) as u8);
    assert(le_bytes(v, 4)[3] == (v / 256 / 256 / 256 % 256) as u8);
    assert(le_value(s, at, 4) == s[at] + 256 * (s[at + 1] + 256 * (s[at + 2] + 256 * (s[at + 3]
        + 0))));
    assert(le_value(s, at, 4) == v);
    if kind == RelocKind::Call || kind == RelocKind::Jump24 {
        let x = (addend >> 2) as u32;
        assert(x & 0x00ff_ffff <= 0x00ff_ffff) by (bit_vector);
        let low = x & 0x00ff_ffff;
        assert(word == (old & 0xff00_0000) | low);
        assert((((old & 0xff00_0000) | low) / 0x100_0000) == old / 0x100_0000) by (bit_vector)
            requires
                low <= 0x00ff_ffff,
        ;
        assert(le_value(was, at, 4) == was[at] + 256 * (was[at + 1] + 256 * (was[at + 2] + 256 * (
        was[at + 3] + 0))));
        assert(old == le_value(was, at, 4));
        assert(old / 0x100_0000 == was[at + 3]);
        assert(v / 256 / 256 / 256 == v / 0x100_0000);
    }
}

} // verus!
