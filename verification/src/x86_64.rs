//! x86-64 relocation recovery from linked code.
//!
//! Handles:
//!   * `E8 rel32`       (call rel32)
//!   * `E9 rel32`       (jmp rel32)
//!   * `0F 8x rel32`    (jcc rel32)
//!   * `[rip + disp32]` (operands relative to the next instruction)
//!
//! Branches inside the function are skipped. Targets that no symbol covers are
//! counted.
use vstd::prelude::*;

use crate::x86_decode::{decode, first_instruction, DecodedInsn, Flow};

verus! {

/// What a recovered relocation patches.
#[derive(Debug, Clone, Copy, PartialEq, Eq, Structural)]
pub enum RelocKind {
    /// A 32-bit distance from the next instruction (calls, jumps, [rip+disp]).
    Rel32,
    /// A 64-bit absolute pointer embedded in code or data.
    Addr64,
}

/// One relocation that recovery found.
#[derive(Debug)]
pub struct RecoveredReloc {
    /// Byte offset within the function bytes where the fixup field lives.
    pub offset: u64,
    /// Instruction address.
    pub pc: u64,
    pub kind: RelocKind,
    /// Symbol name the relocation targets.
    pub target: String,
    /// Addend relative to the symbol (0: the target is the symbol itself).
    pub addend: i64,
}

/// A recovered relocation, with its target as text.
pub ghost struct RelocView {
    pub offset: u64,
    pub pc: u64,
    pub kind: RelocKind,
    pub target: Seq<char>,
    pub addend: i64,
}

impl View for RecoveredReloc {
    type V = RelocView;

    open spec fn view(&self) -> RelocView {
        RelocView {
            offset: self.offset,
            pc: self.pc,
            kind: self.kind,
            target: self.target@,
            addend: self.addend,
        }
    }
}

/// Counts of what recovery met.
#[derive(Debug, Clone, Copy, PartialEq, Eq, Structural)]
pub struct RecoveryDiagnostics {
    pub instructions: usize,
    pub decode_failures: usize,
    pub calls_resolved: usize,
    pub calls_unresolved: usize,
    pub rip_refs_resolved: usize,
    pub rip_refs_unresolved: usize,
}

impl Default for RecoveryDiagnostics {
    fn default() -> (d: Self)
        ensures
            d == no_diagnostics(),
    {
        RecoveryDiagnostics {
            instructions: 0,
            decode_failures: 0,
            calls_resolved: 0,
            calls_unresolved: 0,
            rip_refs_resolved: 0,
            rip_refs_unresolved: 0,
        }
    }
}

/// Nothing met yet.
pub open spec fn no_diagnostics() -> RecoveryDiagnostics {
    RecoveryDiagnostics {
        instructions: 0,
        decode_failures: 0,
        calls_resolved: 0,
        calls_unresolved: 0,
        rip_refs_resolved: 0,
        rip_refs_unresolved: 0,
    }
}

/// What recovery returns.
pub struct RecoveryOutput {
    pub relocs: Vec<RecoveredReloc>,
    pub diag: RecoveryDiagnostics,
}

/// What recovery returns, with the relocations' targets as text.
#[verifier::ext_equal]
pub ghost struct RecoveryView {
    pub relocs: Seq<RelocView>,
    pub diag: RecoveryDiagnostics,
}

impl View for RecoveryOutput {
    type V = RecoveryView;

    open spec fn view(&self) -> RecoveryView {
        RecoveryView { relocs: self.relocs@.map_values(|r: RecoveredReloc| r@), diag: self.diag }
    }
}

/// A symbol and an offset into it, with the symbol's name as text.
pub open spec fn resolution(r: Option<(String, i64)>) -> Option<(Seq<char>, i64)> {
    match r {
        Some((name, addend)) => Some((name@, addend)),
        None => None,
    }
}

/// True when `target` lies in the function of `size` bytes at `start`.
pub open spec fn inside(start: u64, size: u64, target: u64) -> bool {
    start <= target < start + size
}

/// Tests whether `target` lies in the function of `size` bytes at `start`.
pub fn is_inside(start: u64, size: u64, target: u64) -> (b: bool)
    ensures
        b == inside(start, size, target),
{
    target >= start && target - start < size
}

/// Resolves addresses to symbol names.
pub trait SymbolResolver {
    /// The symbol and addend that a code address stands for.
    spec fn code_symbol(&self, va: u64) -> Option<(Seq<char>, i64)>;

    /// The symbol and addend that a data address stands for.
    spec fn data_symbol(&self, va: u64) -> Option<(Seq<char>, i64)>;

    /// Resolves a code target (call or jump destination).
    fn resolve_code(&self, va: u64) -> (r: Option<(String, i64)>)
        ensures
            resolution(r) == self.code_symbol(va),
    ;

    /// Resolves a data reference.
    fn resolve_data(&self, va: u64) -> (r: Option<(String, i64)>)
        ensures
            resolution(r) == self.data_symbol(va),
    ;

    /// True when a branch target counts as inside the current function. Unless a
    /// resolver says otherwise, that goes by its address.
    open spec fn stays_inside(&self, fn_va: u64, fn_size: u64, target_va: u64) -> bool {
        inside(fn_va, fn_size, target_va)
    }

    /// Tests whether a branch target counts as inside the current function.
    fn is_intra_function(&self, fn_va: u64, fn_size: u64, target_va: u64) -> (b: bool)
        ensures
            b == self.stays_inside(fn_va, fn_size, target_va),
    ;
}

/// A field of four bytes, `at` bytes behind the start of the instruction at `pos`,
/// which refers to `symbol`.
pub open spec fn field_at(pos: nat, at: int, fn_va: u64, symbol: (Seq<char>, i64)) -> RelocView {
    RelocView {
        offset: (pos + at) as u64,
        pc: fn_va.wrapping_add(pos as u64),
        kind: RelocKind::Rel32,
        target: symbol.0,
        addend: symbol.1,
    }
}

/// What the instruction at `pos` adds to what was recovered before it.
pub open spec fn recover_step<R: SymbolResolver>(
    v: RecoveryView,
    pos: nat,
    insn: DecodedInsn,
    fn_va: u64,
    fn_size: u64,
    resolver: &R,
) -> RecoveryView {
    let d = v.diag;
    let met = (d.instructions + 1) as usize;
    if insn.invalid {
        RecoveryView {
            diag: RecoveryDiagnostics {
                instructions: met,
                decode_failures: (d.decode_failures + 1) as usize,
                ..d
            },
            ..v
        }
    } else if insn.spec_branches() {
        if insn.len < 5 || resolver.stays_inside(fn_va, fn_size, insn.near_branch64) {
            RecoveryView { diag: RecoveryDiagnostics { instructions: met, ..d }, ..v }
        } else {
            match resolver.code_symbol(insn.near_branch64) {
                Some(symbol) => RecoveryView {
                    relocs: v.relocs.push(field_at(pos, insn.len - 4, fn_va, symbol)),
                    diag: RecoveryDiagnostics {
                        instructions: met,
                        calls_resolved: (d.calls_resolved + 1) as usize,
                        ..d
                    },
                },
                None => RecoveryView {
                    diag: RecoveryDiagnostics {
                        instructions: met,
                        calls_unresolved: (d.calls_unresolved + 1) as usize,
                        ..d
                    },
                    ..v
                },
            }
        }
    } else if insn.spec_refers_rip() {
        match resolver.data_symbol(insn.displacement) {
            Some(symbol) => RecoveryView {
                relocs: v.relocs.push(
                    field_at(pos, insn.displacement_offset as int, fn_va, symbol),
                ),
                diag: RecoveryDiagnostics {
                    instructions: met,
                    rip_refs_resolved: (d.rip_refs_resolved + 1) as usize,
                    ..d
                },
            },
            None => RecoveryView {
                diag: RecoveryDiagnostics {
                    instructions: met,
                    rip_refs_unresolved: (d.rip_refs_unresolved + 1) as usize,
                    ..d
                },
                ..v
            },
        }
    } else {
        RecoveryView { diag: RecoveryDiagnostics { instructions: met, ..d }, ..v }
    }
}

/// The instruction at `pos` of a function's code.
pub open spec fn instruction_at(code: Seq<u8>, pos: nat, fn_va: u64) -> DecodedInsn {
    first_instruction(
        64,
        code.subrange(pos as int, code.len() as int),
        fn_va.wrapping_add(pos as u64),
    )
}

/// The patched fields lie one behind the other in the first `n` bytes.
pub open spec fn fields_within(relocs: Seq<RecoveredReloc>, n: nat) -> bool {
    &&& forall|i: int| 0 <= i < relocs.len() ==> (#[trigger] relocs[i]).offset + 4 <= n
    &&& forall|i: int, j: int|
        0 <= i < j < relocs.len() ==> (#[trigger] relocs[i]).offset + 4 <= (
        #[trigger] relocs[j]).offset
}

/// What is recovered from `pos` on, added to `v`.
pub open spec fn recover_from<R: SymbolResolver>(
    v: RecoveryView,
    code: Seq<u8>,
    pos: nat,
    fn_va: u64,
    fn_size: u64,
    resolver: &R,
) -> RecoveryView
    decreases code.len() - pos,
{
    if pos >= code.len() {
        v
    } else {
        let insn = instruction_at(code, pos, fn_va);
        if insn.len == 0 || pos + insn.len > code.len() {
            v
        } else {
            recover_from(
                recover_step(v, pos, insn, fn_va, fn_size, resolver),
                code,
                pos + insn.len as nat,
                fn_va,
                fn_size,
                resolver,
            )
        }
    }
}

/// All that is recovered from the code of one function.
pub open spec fn recovered<R: SymbolResolver>(
    code: Seq<u8>,
    fn_va: u64,
    fn_size: u64,
    resolver: &R,
) -> RecoveryView {
    recover_from(
        RecoveryView { relocs: Seq::empty(), diag: no_diagnostics() },
        code,
        0,
        fn_va,
        fn_size,
        resolver,
    )
}

/// Takes in one decoded instruction: the function's references outside it
/// become relocations.
pub fn recover_instruction<R: SymbolResolver>(
    out: &mut RecoveryOutput,
    pos: usize,
    insn: &DecodedInsn,
    fn_va: u64,
    fn_size: u64,
    resolver: &R,
)
    requires
        old(out).diag.instructions <= pos,
        old(out).diag.decode_failures <= pos,
        old(out).diag.calls_resolved <= pos,
        old(out).diag.calls_unresolved <= pos,
        old(out).diag.rip_refs_resolved <= pos,
        old(out).diag.rip_refs_unresolved <= pos,
        pos + insn.len <= usize::MAX,
        1 <= insn.len,
        !insn.invalid && insn.rip_base ==> insn.displacement_offset + 4 <= insn.len,
    ensures
        final(out)@ == recover_step(old(out)@, pos as nat, *insn, fn_va, fn_size, resolver),
        fields_within(old(out).relocs@, pos as nat) ==> fields_within(
            final(out).relocs@,
            (pos + insn.len) as nat,
        ),
        final(out).relocs@.len() <= old(out).relocs@.len() + 1,
        final(out).diag.instructions <= pos + 1,
        final(out).diag.decode_failures <= pos + 1,
        final(out).diag.calls_resolved <= pos + 1,
        final(out).diag.calls_unresolved <= pos + 1,
        final(out).diag.rip_refs_resolved <= pos + 1,
        final(out).diag.rip_refs_unresolved <= pos + 1,
{
    let ghost before = out@;
    out.diag.instructions = out.diag.instructions + 1;
    if insn.invalid {
        out.diag.decode_failures = out.diag.decode_failures + 1;
        return ;
    }
    let pc: u64 = fn_va.wrapping_add(pos as u64);
    if insn.branches() {
        if insn.len >= 5 {
            let target_va = insn.near_branch64;
            if !resolver.is_intra_function(fn_va, fn_size, target_va) {
                match resolver.resolve_code(target_va) {
                    Some((target, addend)) => {
                        let reloc = RecoveredReloc {
                            offset: (pos + (insn.len - 4)) as u64,
                            pc,
                            kind: RelocKind::Rel32,
                            target,
                            addend,
                        };
                        let ghost r = reloc@;
                        out.relocs.push(reloc);
                        out.diag.calls_resolved = out.diag.calls_resolved + 1;
                        assert(out@.relocs =~= before.relocs.push(r));
                    },
                    None => {
                        out.diag.calls_unresolved = out.diag.calls_unresolved + 1;
                    },
                }
            }
        }
        return ;
    }
    if insn.refers_rip() {
        match resolver.resolve_data(insn.displacement) {
            Some((target, addend)) => {
                let reloc = RecoveredReloc {
                    offset: (pos + insn.displacement_offset) as u64,
                    pc,
                    kind: RelocKind::Rel32,
                    target,
                    addend,
                };
                let ghost r = reloc@;
                out.relocs.push(reloc);
                out.diag.rip_refs_resolved = out.diag.rip_refs_resolved + 1;
                assert(out@.relocs =~= before.relocs.push(r));
            },
            None => {
                out.diag.rip_refs_unresolved = out.diag.rip_refs_unresolved + 1;
            },
        }
    }
}

/// Walks `fn_bytes`, the code at `fn_va`, and recovers the relocations of its
/// branches and of its references relative to the next instruction. The fields
/// that the relocations patch lie in the code and do not overlap.
///
/// `fn_size` is the function's byte count, by which branches inside it are told
/// from those that leave it.
pub fn recover<R: SymbolResolver>(
    fn_bytes: &[u8],
    fn_va: u64,
    fn_size: u64,
    resolver: &R,
) -> (out: RecoveryOutput)
    ensures
        out@ == recovered(fn_bytes@, fn_va, fn_size, resolver),
        out.diag.instructions <= fn_bytes@.len(),
        out.diag.calls_unresolved <= fn_bytes@.len(),
        out.diag.rip_refs_unresolved <= fn_bytes@.len(),
        out.relocs@.len() <= fn_bytes@.len(),
        fields_within(out.relocs@, fn_bytes@.len()),
{
    let mut out = RecoveryOutput { relocs: Vec::new(), diag: RecoveryDiagnostics::default() };
    let mut pos: usize = 0;
    assert(out@ =~= RecoveryView { relocs: Seq::empty(), diag: no_diagnostics() });
    while pos < fn_bytes.len()
        invariant
            pos <= fn_bytes@.len(),
            recovered(fn_bytes@, fn_va, fn_size, resolver) == recover_from(
                out@,
                fn_bytes@,
                pos as nat,
                fn_va,
                fn_size,
                resolver,
            ),
            out.relocs@.len() <= pos,
            fields_within(out.relocs@, pos as nat),
            out.diag.instructions <= pos,
            out.diag.decode_failures <= pos,
            out.diag.calls_resolved <= pos,
            out.diag.calls_unresolved <= pos,
            out.diag.rip_refs_resolved <= pos,
            out.diag.rip_refs_unresolved <= pos,
        decreases fn_bytes@.len() - pos,
    {
        let rest = vstd::slice::slice_subrange(fn_bytes, pos, fn_bytes.len());
        let insn = decode(64, rest, fn_va.wrapping_add(pos as u64));
        recover_instruction(&mut out, pos, &insn, fn_va, fn_size, resolver);
        pos = pos + insn.len;
    }
    out
}

/// True when the resolver gave the symbol and addend of the relocation for some
/// address.
pub open spec fn resolved_by<R: SymbolResolver>(r: RelocView, resolver: &R) -> bool {
    exists|va: u64|
        #![trigger resolver.code_symbol(va)]
        resolver.code_symbol(va) == Some((r.target, r.addend)) || resolver.data_symbol(va) == Some(
            (r.target, r.addend),
        )
}

proof fn lemma_recover_from_resolved<R: SymbolResolver>(
    v: RecoveryView,
    code: Seq<u8>,
    pos: nat,
    fn_va: u64,
    fn_size: u64,
    resolver: &R,
)
    requires
        forall|i: int| 0 <= i < v.relocs.len() ==> resolved_by(#[trigger] v.relocs[i], resolver),
    ensures
        forall|i: int|
            0 <= i < recover_from(v, code, pos, fn_va, fn_size, resolver).relocs.len()
                ==> resolved_by(
                #[trigger] recover_from(v, code, pos, fn_va, fn_size, resolver).relocs[i],
                resolver,
            ),
    decreases code.len() - pos,
{
    if pos < code.len() {
        let insn = instruction_at(code, pos, fn_va);
        if insn.len != 0 && pos + insn.len <= code.len() {
            let w = recover_step(v, pos, insn, fn_va, fn_size, resolver);
            assert forall|i: int| 0 <= i < w.relocs.len() implies resolved_by(
                #[trigger] w.relocs[i],
                resolver,
            ) by {
                if i < v.relocs.len() {
                    assert(w.relocs[i] == v.relocs[i]);
                } else {
                    let va = if insn.spec_branches() {
                        insn.near_branch64
                    } else {
                        insn.displacement
                    };
                    assert(resolver.code_symbol(va) == resolver.code_symbol(va));
                }
            }
            let next = pos + insn.len as nat;
            lemma_recover_from_resolved(w, code, next, fn_va, fn_size, resolver);
            assert(recover_from(v, code, pos, fn_va, fn_size, resolver) == recover_from(
                w,
                code,
                next,
                fn_va,
                fn_size,
                resolver,
            ));
        }
    }
}

/// Recovery invents no symbols: each relocation names a symbol, with the addend,
/// that the resolver gives for some address.
pub proof fn law_relocations_are_resolved<R: SymbolResolver>(
    code: Seq<u8>,
    fn_va: u64,
    fn_size: u64,
    resolver: &R,
)
    ensures
        forall|i: int|
            0 <= i < recovered(code, fn_va, fn_size, resolver).relocs.len() ==> resolved_by(
                #[trigger] recovered(code, fn_va, fn_size, resolver).relocs[i],
                resolver,
            ),
{
    lemma_recover_from_resolved(
        RecoveryView { relocs: Seq::empty(), diag: no_diagnostics() },
        code,
        0,
        fn_va,
        fn_size,
        resolver,
    );
}

/// The instruction that begins `pos` bytes into the code of a function at `fn_va`.
pub open spec fn insn_at(code: Seq<u8>, fn_va: u64, pos: int) -> DecodedInsn {
    first_instruction(64, code.skip(pos), address_at(fn_va, pos))
}

/// The address `pos` bytes into a function at `fn_va`.
#[verifier::opaque]
pub open spec fn address_at(fn_va: u64, pos: int) -> u64 {
    ((fn_va + pos) % 0x1_0000_0000_0000_0000) as u64
}

/// How far into a function at `fn_va` the instruction of a relocation begins.
#[verifier::opaque]
pub open spec fn place_of(r: RelocView, fn_va: u64) -> int {
    (r.pc - fn_va) % 0x1_0000_0000_0000_0000
}

/// True when walking the code from `from` on, one instruction behind the other, comes
/// to a whole instruction that begins at `pos`.
pub open spec fn begins(code: Seq<u8>, fn_va: u64, from: int, pos: int) -> bool
    decreases code.len() - from,
{
    let n = insn_at(code, fn_va, from).len;
    &&& 0 <= from < code.len()
    &&& n > 0
    &&& from + n <= code.len()
    &&& from == pos || begins(code, fn_va, from + n, pos)
}

/// True when the instruction is a call, a jump or a conditional jump of at least five
/// bytes whose target does not count as inside the function.
pub open spec fn leaves<R: SymbolResolver>(
    i: DecodedInsn,
    fn_va: u64,
    fn_size: u64,
    resolver: &R,
) -> bool {
    &&& !i.invalid
    &&& i.flow == Flow::Call || i.flow == Flow::UnconditionalBranch || i.flow
        == Flow::ConditionalBranch
    &&& i.len >= 5
    &&& !resolver.stays_inside(fn_va, fn_size, i.near_branch64)
}

/// True when the instruction is no call or jump, and an operand of it is in memory at a
/// distance from the next instruction.
pub open spec fn refers(i: DecodedInsn) -> bool {
    &&& !i.invalid
    &&& i.flow == Flow::Other
    &&& i.rip_base
    &&& {
        ||| i.op_count > 0 && i.memory.0
        ||| i.op_count > 1 && i.memory.1
        ||| i.op_count > 2 && i.memory.2
        ||| i.op_count > 3 && i.memory.3
        ||| i.op_count > 4 && i.memory.4
    }
}

/// True when the relocation is that of the instruction `i`, which begins `pos` bytes
/// into the function: of the last four bytes of
/// a call or jump, or of the displacement of an operand, with the symbol and addend that
/// the resolver gives for the target.
pub open spec fn relocates<R: SymbolResolver>(
    r: RelocView,
    i: DecodedInsn,
    pos: int,
    fn_va: u64,
    fn_size: u64,
    resolver: &R,
) -> bool {
    &&& r.kind == RelocKind::Rel32
    &&& {
        ||| leaves(i, fn_va, fn_size, resolver) && r.offset == pos + i.len - 4
            && resolver.code_symbol(i.near_branch64) == Some((r.target, r.addend))
        ||| refers(i) && (i.displacement_offset + 4 <= i.len ==> r.offset == pos
            + i.displacement_offset) && resolver.data_symbol(i.displacement) == Some(
            (r.target, r.addend),
        )
    }
}

/// How many instructions from `from` on `p` holds of.
pub open spec fn count_of(
    code: Seq<u8>,
    fn_va: u64,
    from: int,
    p: spec_fn(DecodedInsn) -> bool,
) -> nat
    decreases code.len() - from,
{
    let i = insn_at(code, fn_va, from);
    if 0 <= from < code.len() && i.len > 0 && from + i.len <= code.len() {
        count_of(code, fn_va, from + i.len, p) + (if p(i) {
            1nat
        } else {
            0nat
        })
    } else {
        0
    }
}

/// True when the relocations behind the first `n` are those of the instructions from
/// `from` on, in their order.
spec fn relocates_from<R: SymbolResolver>(
    relocs: Seq<RelocView>,
    n: int,
    code: Seq<u8>,
    from: int,
    fn_va: u64,
    fn_size: u64,
    resolver: &R,
) -> bool {
    &&& forall|k: int|
        n <= k < relocs.len() ==> begins(code, fn_va, from, place_of(#[trigger] relocs[k], fn_va))
            && relocates(
            relocs[k],
            insn_at(code, fn_va, place_of(relocs[k], fn_va)),
            place_of(relocs[k], fn_va),
            fn_va,
            fn_size,
            resolver,
        )
    &&& forall|j: int, k: int|
        n <= j < k < relocs.len() ==> place_of(#[trigger] relocs[j], fn_va) < place_of(
            #[trigger] relocs[k],
            fn_va,
        )
    &&& forall|pos: int| #[trigger]
        begins(code, fn_va, from, pos) && has_symbol(
            insn_at(code, fn_va, pos),
            fn_va,
            fn_size,
            resolver,
        ) ==> is_placed(relocs, n, fn_va, pos)
}

spec fn is_placed(relocs: Seq<RelocView>, n: int, fn_va: u64, pos: int) -> bool {
    exists|k: int| n <= k < relocs.len() && place_of(#[trigger] relocs[k], fn_va) == pos
}

/// True when the instruction refers outside the function to something that the resolver
/// has a symbol for.
pub open spec fn has_symbol<R: SymbolResolver>(
    i: DecodedInsn,
    fn_va: u64,
    fn_size: u64,
    resolver: &R,
) -> bool {
    ||| leaves(i, fn_va, fn_size, resolver) && resolver.code_symbol(i.near_branch64) is Some
    ||| refers(i) && resolver.data_symbol(i.displacement) is Some
}

proof fn lemma_begins_from(code: Seq<u8>, fn_va: u64, from: int, pos: int)
    requires
        begins(code, fn_va, from, pos),
    ensures
        from <= pos < code.len(),
    decreases code.len() - from,
{
    if from != pos {
        lemma_begins_from(code, fn_va, from + insn_at(code, fn_va, from).len, pos);
    }
}

/// What an instruction adds is the relocation of its reference, if it has one.
proof fn lemma_step<R: SymbolResolver>(
    v: RecoveryView,
    pos: nat,
    i: DecodedInsn,
    fn_va: u64,
    fn_size: u64,
    resolver: &R,
)
    requires
        pos + i.len <= usize::MAX,
    ensures
        ({
            let w = recover_step(v, pos, i, fn_va, fn_size, resolver);
            if has_symbol(i, fn_va, fn_size, resolver) {
                &&& w.relocs == v.relocs.push(w.relocs.last())
                &&& place_of(w.relocs.last(), fn_va) == pos
                &&& relocates(w.relocs.last(), i, pos as int, fn_va, fn_size, resolver)
            } else {
                w.relocs == v.relocs
            }
        }),
{
    let w = recover_step(v, pos, i, fn_va, fn_size, resolver);
    assert(i.spec_refers_rip() == (i.rip_base && ((i.op_count > 0 && i.memory.0) || (i.op_count
        > 1 && i.memory.1) || (i.op_count > 2 && i.memory.2) || (i.op_count > 3 && i.memory.3)
        || (i.op_count > 4 && i.memory.4)))) by {
        assert(i.spec_is_memory(0) == i.memory.0 && i.spec_is_memory(1) == i.memory.1
            && i.spec_is_memory(2) == i.memory.2 && i.spec_is_memory(3) == i.memory.3
            && i.spec_is_memory(4) == i.memory.4);
    }
    if has_symbol(i, fn_va, fn_size, resolver) {
        let r = w.relocs.last();
        assert(r.pc == fn_va.wrapping_add(pos as u64));
        lemma_place(fn_va, r, pos as int);
        assert(w.relocs =~= v.relocs.push(r));
    }
}

/// The instruction that is decoded at `pos` is the one that begins there.
proof fn lemma_insn_at(code: Seq<u8>, fn_va: u64, pos: nat)
    requires
        pos <= code.len() <= u64::MAX,
    ensures
        instruction_at(code, pos, fn_va) == insn_at(code, fn_va, pos as int),
{
    reveal(address_at);
    assert(code.skip(pos as int) =~= code.subrange(pos as int, code.len() as int));
}

proof fn lemma_references<R: SymbolResolver>(
    v: RecoveryView,
    code: Seq<u8>,
    pos: nat,
    fn_va: u64,
    fn_size: u64,
    resolver: &R,
)
    requires
        code.len() <= usize::MAX,
        pos <= code.len(),
    ensures
        ({
            let out = recover_from(v, code, pos, fn_va, fn_size, resolver);
            &&& v.relocs.len() <= out.relocs.len()
            &&& forall|k: int|
                0 <= k < v.relocs.len() ==> #[trigger] out.relocs[k] == v.relocs[k]
            &&& relocates_from(
                out.relocs,
                v.relocs.len() as int,
                code,
                pos as int,
                fn_va,
                fn_size,
                resolver,
            )
        }),
    decreases code.len() - pos,
{
    let out = recover_from(v, code, pos, fn_va, fn_size, resolver);
    let n = v.relocs.len() as int;
    lemma_insn_at(code, fn_va, pos);
    let i = instruction_at(code, pos, fn_va);
    if pos < code.len() && i.len != 0 && pos + i.len <= code.len() {
        let next = pos + i.len as nat;
        let w = recover_step(v, pos, i, fn_va, fn_size, resolver);
        lemma_references(w, code, next, fn_va, fn_size, resolver);
        let m = w.relocs.len() as int;
        assert(out == recover_from(w, code, next, fn_va, fn_size, resolver));
        let made = has_symbol(i, fn_va, fn_size, resolver);
        lemma_step(v, pos, i, fn_va, fn_size, resolver);
        assert forall|k: int| 0 <= k < n implies #[trigger] out.relocs[k] == v.relocs[k] by {
            assert(w.relocs[k] == v.relocs[k]);
        }
        if made {
            assert(out.relocs[n] == w.relocs[n]);
        }
        assert forall|k: int| n <= k < out.relocs.len() implies begins(
            code,
            fn_va,
            pos as int,
            place_of(#[trigger] out.relocs[k], fn_va),
        ) && relocates(
            out.relocs[k],
            insn_at(code, fn_va, place_of(out.relocs[k], fn_va)),
            place_of(out.relocs[k], fn_va),
            fn_va,
            fn_size,
            resolver,
        ) by {
            if k >= m {
                assert(begins(code, fn_va, next as int, place_of(out.relocs[k], fn_va)));
            }
        }
        assert forall|j: int, k: int| n <= j < k < out.relocs.len() implies place_of(
            #[trigger] out.relocs[j],
            fn_va,
        ) < place_of(#[trigger] out.relocs[k], fn_va) by {
            assert(k >= m);
            lemma_begins_from(code, fn_va, next as int, place_of(out.relocs[k], fn_va));
        }
        assert forall|p: int| #[trigger]
            begins(code, fn_va, pos as int, p) && has_symbol(
                insn_at(code, fn_va, p),
                fn_va,
                fn_size,
                resolver,
            ) implies is_placed(out.relocs, n, fn_va, p) by {
            if p == pos {
                assert(place_of(out.relocs[n], fn_va) == p);
            } else {
                assert(begins(code, fn_va, next as int, p));
                assert(is_placed(out.relocs, m, fn_va, p));
                let k = choose|k: int|
                    m <= k < out.relocs.len() && place_of(#[trigger] out.relocs[k], fn_va) == p;
                assert(place_of(out.relocs[k], fn_va) == p);
            }
        }
    } else {
        assert forall|p: int| !#[trigger] begins(code, fn_va, pos as int, p) by {}
    }
}

/// No reference is forgotten: each call, jump or operand that leaves the
/// function and that the resolver has a symbol for gets one relocation, of the bytes
/// that hold the distance, with that symbol and addend.
#[verifier::rlimit(60)]
pub proof fn law_references_are_relocated<R: SymbolResolver>(
    code: Seq<u8>,
    fn_va: u64,
    fn_size: u64,
    resolver: &R,
    pos: int,
)
    requires
        code.len() <= usize::MAX,
        begins(code, fn_va, 0, pos),
        has_symbol(insn_at(code, fn_va, pos), fn_va, fn_size, resolver),
    ensures
        ({
            let relocs = recovered(code, fn_va, fn_size, resolver).relocs;
            exists|k: int|
                {
                    &&& 0 <= k < relocs.len()
                    &&& (#[trigger] relocs[k]).pc == address_at(fn_va, pos)
                    &&& relocates(
                        relocs[k],
                        insn_at(code, fn_va, pos),
                        pos,
                        fn_va,
                        fn_size,
                        resolver,
                    )
                    &&& forall|j: int|
                        0 <= j < relocs.len() && j != k ==> (#[trigger] relocs[j]).pc
                            != address_at(fn_va, pos)
                }
        }),
{
    let start = RecoveryView { relocs: Seq::empty(), diag: no_diagnostics() };
    lemma_references(start, code, 0, fn_va, fn_size, resolver);
    lemma_begins_from(code, fn_va, 0, pos);
    let relocs = recovered(code, fn_va, fn_size, resolver).relocs;
    assert(is_placed(relocs, 0, fn_va, pos));
    let k = choose|k: int|
        0 <= k < relocs.len() && place_of(#[trigger] relocs[k], fn_va) == pos;
    lemma_place(fn_va, relocs[k], pos);
    assert forall|j: int| 0 <= j < relocs.len() && j != k implies (#[trigger] relocs[j]).pc
        != address_at(fn_va, pos) by {
        lemma_place(fn_va, relocs[j], pos);
        assert(place_of(relocs[j], fn_va) != pos);
    }
    assert(relocs[k].pc == address_at(fn_va, pos));
    assert(relocates(relocs[k], insn_at(code, fn_va, pos), pos, fn_va, fn_size, resolver));
}

/// The instruction of a relocation is known by its address.
proof fn lemma_place(fn_va: u64, r: RelocView, pos: int)
    requires
        0 <= pos <= u64::MAX,
    ensures
        (place_of(r, fn_va) == pos) == (r.pc == address_at(fn_va, pos)),
        address_at(fn_va, pos) == fn_va.wrapping_add(pos as u64),
{
    reveal(place_of);
    reveal(address_at);
}

/// Nothing but references is relocated: each relocation is that of an instruction of the
/// code, which refers outside the function to what the resolver has the symbol and addend
/// for, and the relocations stand in the order of the code.
pub proof fn law_only_references_are_relocated<R: SymbolResolver>(
    code: Seq<u8>,
    fn_va: u64,
    fn_size: u64,
    resolver: &R,
)
    requires
        code.len() <= usize::MAX,
    ensures
        ({
            let relocs = recovered(code, fn_va, fn_size, resolver).relocs;
            &&& forall|k: int|
                0 <= k < relocs.len() ==> begins(
                    code,
                    fn_va,
                    0,
                    place_of(#[trigger] relocs[k], fn_va),
                ) && relocates(
                    relocs[k],
                    insn_at(code, fn_va, place_of(relocs[k], fn_va)),
                    place_of(relocs[k], fn_va),
                    fn_va,
                    fn_size,
                    resolver,
                )
            &&& forall|j: int, k: int|
                0 <= j < k < relocs.len() ==> place_of(#[trigger] relocs[j], fn_va) < place_of(
                    #[trigger] relocs[k],
                    fn_va,
                )
        }),
{
    let start = RecoveryView { relocs: Seq::empty(), diag: no_diagnostics() };
    lemma_references(start, code, 0, fn_va, fn_size, resolver);
}

proof fn lemma_counts<R: SymbolResolver>(
    v: RecoveryView,
    code: Seq<u8>,
    pos: nat,
    fn_va: u64,
    fn_size: u64,
    resolver: &R,
)
    requires
        code.len() <= usize::MAX,
        pos <= code.len(),
        v.diag.instructions <= pos,
        v.diag.decode_failures <= pos,
        v.diag.calls_resolved <= pos,
        v.diag.calls_unresolved <= pos,
        v.diag.rip_refs_resolved <= pos,
        v.diag.rip_refs_unresolved <= pos,
    ensures
        ({
            let d = recover_from(v, code, pos, fn_va, fn_size, resolver).diag;
            let from = pos as int;
            &&& d.instructions == v.diag.instructions + count_of(
                code,
                fn_va,
                from,
                |i: DecodedInsn| true,
            )
            &&& d.decode_failures == v.diag.decode_failures + count_of(
                code,
                fn_va,
                from,
                |i: DecodedInsn| i.invalid,
            )
            &&& d.calls_resolved == v.diag.calls_resolved + count_of(
                code,
                fn_va,
                from,
                |i: DecodedInsn|
                    leaves(i, fn_va, fn_size, resolver) && resolver.code_symbol(i.near_branch64) is Some,
            )
            &&& d.calls_unresolved == v.diag.calls_unresolved + count_of(
                code,
                fn_va,
                from,
                |i: DecodedInsn|
                    leaves(i, fn_va, fn_size, resolver) && resolver.code_symbol(i.near_branch64) is None,
            )
            &&& d.rip_refs_resolved == v.diag.rip_refs_resolved + count_of(
                code,
                fn_va,
                from,
                |i: DecodedInsn| refers(i) && resolver.data_symbol(i.displacement) is Some,
            )
            &&& d.rip_refs_unresolved == v.diag.rip_refs_unresolved + count_of(
                code,
                fn_va,
                from,
                |i: DecodedInsn| refers(i) && resolver.data_symbol(i.displacement) is None,
            )
        }),
    decreases code.len() - pos,
{
    lemma_insn_at(code, fn_va, pos);
    let i = instruction_at(code, pos, fn_va);
    if pos < code.len() && i.len != 0 && pos + i.len <= code.len() {
        let w = recover_step(v, pos, i, fn_va, fn_size, resolver);
        assert(i.spec_refers_rip() == (i.rip_base && ((i.op_count > 0 && i.memory.0) || (i.op_count
            > 1 && i.memory.1) || (i.op_count > 2 && i.memory.2) || (i.op_count > 3 && i.memory.3)
            || (i.op_count > 4 && i.memory.4)))) by {
            assert(i.spec_is_memory(0) == i.memory.0 && i.spec_is_memory(1) == i.memory.1
                && i.spec_is_memory(2) == i.memory.2 && i.spec_is_memory(3) == i.memory.3
                && i.spec_is_memory(4) == i.memory.4);
        }
        lemma_counts(w, code, pos + i.len as nat, fn_va, fn_size, resolver);
    }
}

/// Every instruction is counted, and every reference that leaves the function is counted
/// as one that has a symbol or as one that has none.
pub proof fn law_references_are_counted<R: SymbolResolver>(
    code: Seq<u8>,
    fn_va: u64,
    fn_size: u64,
    resolver: &R,
)
    requires
        code.len() <= usize::MAX,
    ensures
        ({
            let d = recovered(code, fn_va, fn_size, resolver).diag;
            &&& d.instructions == count_of(code, fn_va, 0, |i: DecodedInsn| true)
            &&& d.decode_failures == count_of(code, fn_va, 0, |i: DecodedInsn| i.invalid)
            &&& d.calls_resolved == count_of(
                code,
                fn_va,
                0,
                |i: DecodedInsn|
                    leaves(i, fn_va, fn_size, resolver) && resolver.code_symbol(i.near_branch64) is Some,
            )
            &&& d.calls_unresolved == count_of(
                code,
                fn_va,
                0,
                |i: DecodedInsn|
                    leaves(i, fn_va, fn_size, resolver) && resolver.code_symbol(i.near_branch64) is None,
            )
            &&& d.rip_refs_resolved == count_of(
                code,
                fn_va,
                0,
                |i: DecodedInsn| refers(i) && resolver.data_symbol(i.displacement) is Some,
            )
            &&& d.rip_refs_unresolved == count_of(
                code,
                fn_va,
                0,
                |i: DecodedInsn| refers(i) && resolver.data_symbol(i.displacement) is None,
            )
        }),
{
    let start = RecoveryView { relocs: Seq::empty(), diag: no_diagnostics() };
    lemma_counts(start, code, 0, fn_va, fn_size, resolver);
}

/// A target is inside a function when it is the address of one of its bytes.
pub proof fn law_inside_is_by_address(start: u64, size: u64, target: u64)
    ensures
        inside(start, size, target) <==> exists|k: int| 0 <= k < size && #[trigger] (start + k)
            == target,
{
    if inside(start, size, target) {
        assert(start + (target - start) == target);
    }
}

} // verus!
