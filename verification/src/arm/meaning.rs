//! What the relocations of 32-bit ARM code say of the code that calls for them.
use vstd::prelude::*;

use super::addend::RelocKind;
use super::decode::{ArmInsnView, Operand, OperandKind};
use super::recover::{
    branch_target, classified, first_imm_from, function_bytes, disassembled, image_word,
    initial_state, is_pool_kind, names_pc, pool_distance, pool_target, recovered, reg_of, registers,
    with_insn, with_insns, with_meaning, with_runs, written, ClaimView, Context, InsnClass,
    PoolLoad, RecoveryDiagnostics, RecoveryState, RelocView,
};
use super::runs::{pool_words, spec_code_runs};
use crate::bytes::le_value;
use crate::elf::symbols::{enclosing, DataResolutionView, GlobalSymbols};
use crate::ranges::{lemma_reaches, range_contains, reaches};
use crate::text::has_prefix;

verus! {

/// True when the four bytes at `addr` of the code section are `value`, least byte first.
pub open spec fn word_reads(cx: Context, addr: u64, value: u32) -> bool {
    let at = addr - cx.base;
    &&& 0 <= at
    &&& at + 4 <= cx.bytes.len()
    &&& value == cx.bytes[at] + 0x100 * cx.bytes[at + 1] + 0x1_0000 * cx.bytes[at + 2]
        + 0x100_0000 * cx.bytes[at + 3]
}

/// True when operand `j` is the first immediate, and it is the address `target`.
pub open spec fn is_first_imm(ops: Seq<Operand>, j: int, target: u64) -> bool {
    &&& 0 <= j < ops.len()
    &&& ops[j].kind matches OperandKind::Imm(v) && target == v as int % 0x1_0000_0000
    &&& forall|l: int| 0 <= l < j ==> !((#[trigger] ops[l]).kind is Imm)
}

/// True when the first immediate is the address `target`.
pub open spec fn names_address(ops: Seq<Operand>, target: u64) -> bool {
    exists|j: int| #[trigger] is_first_imm(ops, j, target)
}

/// True for `bl` and `blx` (`link`), or `b`, to the address `target`.
pub open spec fn branches_to(insn: ArmInsnView, link: bool, target: u64) -> bool {
    &&& insn.mnemonic is Some
    &&& insn.operands is Some
    &&& if link {
        insn.id == 16 || insn.id == 17
    } else {
        insn.id == 11
    }
    &&& names_address(insn.operands->0, target)
}

/// True for `ldr rD, [pc, #imm]` that reads the pool word at `addr`: the program counter
/// reads eight bytes ahead.
pub open spec fn loads_pool(insn: ArmInsnView, rd: u32, addr: u64) -> bool {
    &&& insn.mnemonic is Some
    &&& insn.id == 83
    &&& insn.operands matches Some(ops) && ops.len() == 2 && ops[0].kind == OperandKind::Reg(rd)
        && !ops[1].shifted && (ops[1].kind matches OperandKind::Mem(base, index, disp) && base == 11
        && index == 0 && addr == (insn.address + 8 + disp) % 0x1_0000_0000_0000_0000)
}

/// True for `ldr rD, [pc, rN]` (`indirect`), or `add rD, pc, rN`.
pub open spec fn adds_to_pc(insn: ArmInsnView, indirect: bool, rn: u32) -> bool {
    &&& insn.mnemonic is Some
    &&& insn.operands matches Some(ops) && if indirect {
        &&& insn.id == 83
        &&& ops.len() == 2
        &&& ops[0].kind is Reg
        &&& !ops[1].shifted
        &&& !ops[1].subtracted
        &&& ops[1].kind matches OperandKind::Mem(base, index, disp) && base == 11 && index == rn
            && rn != 0
    } else {
        &&& insn.id == 2
        &&& ops.len() == 3
        &&& ops[0].kind is Reg
        &&& ops[1].kind == OperandKind::Reg(11)
        &&& ops[2].kind == OperandKind::Reg(rn)
        &&& !ops[2].shifted
    }
}

/// True for the forms above that write their first operand.
pub open spec fn reads_pc(insn: ArmInsnView) -> bool {
    ||| exists|rd: u32, addr: u64| #[trigger] loads_pool(insn, rd, addr)
    ||| exists|indirect: bool, rn: u32| #[trigger] adds_to_pc(insn, indirect, rn)
}

/// True when an instruction of this mnemonic may change `r`: stores and comparisons change
/// no register, loads of several each that they list, and others the first operand.
pub open spec fn may_write(m: Seq<char>, ops: Seq<Operand>, r: u32) -> bool {
    if has_prefix(m, "str"@) || has_prefix(m, "vstr"@) || has_prefix(m, "stm"@) || has_prefix(
        m,
        "push"@,
    ) || has_prefix(m, "cmp"@) || has_prefix(m, "cmn"@) || has_prefix(m, "tst"@) || has_prefix(
        m,
        "teq"@,
    ) {
        false
    } else if has_prefix(m, "ldm"@) || has_prefix(m, "pop"@) {
        exists|j: int| 0 <= j < ops.len() && (#[trigger] ops[j]).kind == OperandKind::Reg(r)
    } else {
        ops.len() > 0 && ops[0].kind == OperandKind::Reg(r)
    }
}

/// True when what `r` held is gone behind the instruction: it cannot be read, calls, goes
/// where only a register tells, returns, or writes the register.
pub open spec fn overwrites(insn: ArmInsnView, r: u32) -> bool {
    match (insn.mnemonic, insn.operands) {
        (Some(m), Some(ops)) => if insn.id == 16 || insn.id == 17 || insn.id == 19 || insn.id
            == 20 {
            true
        } else if insn.id == 11 {
            forall|j: int| 0 <= j < ops.len() ==> !((#[trigger] ops[j]).kind is Imm)
        } else if reads_pc(insn) {
            ops[0].kind == OperandKind::Reg(r)
        } else if (insn.id == 127 || insn.id == 79) && exists|j: int|
            0 <= j < ops.len() && (#[trigger] ops[j]).kind == OperandKind::Reg(11) {
            true
        } else {
            may_write(m, ops, r)
        },
        _ => true,
    }
}

/// True when instruction `j` loads the pool word of `site` into `r` and nothing up to
/// instruction `n` overwrites it.
pub open spec fn is_load(
    cx: Context,
    insns: Seq<ArmInsnView>,
    n: int,
    j: int,
    r: u32,
    site: PoolLoad,
) -> bool {
    &&& 0 <= j < n
    &&& loads_pool(insns[j], r, site.pool_addr)
    &&& word_reads(cx, site.pool_addr, site.value)
    &&& forall|l: int| j < l < n ==> !overwrites(#[trigger] insns[l], r)
}

/// True when `r` holds the pool word of `site` before instruction `n`.
pub open spec fn holds(
    cx: Context,
    insns: Seq<ArmInsnView>,
    n: int,
    r: u32,
    site: PoolLoad,
) -> bool {
    exists|j: int| #[trigger] is_load(cx, insns, n, j, r, site)
}

/// A word as a signed number.
pub open spec fn signed_word(value: u32) -> int {
    if value < 0x8000_0000 {
        value as int
    } else {
        value - 0x1_0000_0000
    }
}

/// The address that the instruction at `pc` forms from a pool word.
pub open spec fn formed(pc: u64, value: u32) -> int {
    (pc + 8 + signed_word(value)) % 0x1_0000_0000_0000_0000
}

/// True when the word lies in the function.
pub open spec fn in_function(cx: Context, addr: u64) -> bool {
    cx.fn_addr <= addr && addr + 4 <= cx.fn_addr + cx.fn_size
}

/// True when a linker that puts S + A - P into the word at `p`, for the symbol at `s` and
/// the addend `a`, puts back `value`.
pub open spec fn links_back(s: int, a: int, p: u64, value: u32) -> bool {
    (s + a - p - value) % 0x1_0000_0000 == 0
}

/// True when `r` is the relocation of the pool word of `site`, from which the instruction
/// at `pc` forms an address. Where it loads from a slot of the global offset table, the
/// relocation is one to the slot of the symbol that the slot holds; else it is one to the
/// symbol. Either gives back the word with the addresses that were.
pub open spec fn relocates_pool(
    cx: Context,
    indirect: bool,
    pc: u64,
    site: PoolLoad,
    r: RelocView,
) -> bool {
    &&& r.pc == pc
    &&& in_function(cx, site.pool_addr)
    &&& cx.fn_addr + r.offset == site.pool_addr
    &&& r.target_addr == formed(pc, site.value)
    &&& if indirect && range_contains(cx.symbols.got_range, r.target_addr) {
        &&& r.kind == RelocKind::GotPrel
        &&& exists|x: DataResolutionView| #[trigger]
            cx.symbols.slot_holds(x, r.target_addr) && r.target == x.symbol && links_back(
                r.target_addr as int,
                r.addend as int,
                site.pool_addr,
                site.value,
            )
    } else {
        &&& r.kind == RelocKind::Rel32
        &&& exists|x: DataResolutionView| #[trigger]
            cx.symbols.stands_for(x, r.target_addr) && r.target == x.symbol && links_back(
                r.target_addr - x.addend,
                r.addend as int,
                site.pool_addr,
                site.value,
            )
    }
}

/// True when some symbol stands for what the instruction at `pc` forms.
pub open spec fn is_known(cx: Context, indirect: bool, va: u64) -> bool {
    if indirect && range_contains(cx.symbols.got_range, va) {
        exists|x: DataResolutionView| #[trigger] cx.symbols.slot_holds(x, va)
    } else {
        exists|x: DataResolutionView| #[trigger] cx.symbols.stands_for(x, va)
    }
}

/// True when a branch to `target` goes `d` bytes past `name`: past the function there, the
/// stub there, or the function that holds it.
pub open spec fn leads_to(symbols: GlobalSymbols, name: Seq<char>, d: int, target: u64) -> bool {
    if symbols.functions@.contains_key(target) {
        symbols.function_goes_by(target, name) && d == 0
    } else if range_contains(symbols.plt_range, target) && symbols.plt@.contains_key(target) {
        name == symbols.plt@[target]@ && d == 0
    } else {
        exists|a: u64| #[trigger]
            symbols.function_covers(a, target) && symbols.function_goes_by(a, name) && reaches(
                a,
                d,
                target,
            )
    }
}

/// True when a branch to `target` gets a relocation: calls always do, others where they
/// leave the function.
pub open spec fn leaves(cx: Context, link: bool, target: u64) -> bool {
    link || !(cx.fn_addr <= target < cx.fn_addr + cx.fn_size)
}

/// True when `r` is the relocation of a branch at `pc` to `target`. The program counter
/// reads eight bytes ahead.
pub open spec fn relocates_branch(
    cx: Context,
    link: bool,
    pc: u64,
    target: u64,
    r: RelocView,
) -> bool {
    &&& r.pc == pc
    &&& r.target_addr == target
    &&& (cx.fn_addr + r.offset) % 0x1_0000_0000_0000_0000 == pc
    &&& r.kind == if link {
        RelocKind::Call
    } else {
        RelocKind::Jump24
    }
    &&& leaves(cx, link, target)
    &&& leads_to(cx.symbols, r.target, r.addend + 8, target)
}

/// True when instruction `k` calls for `r`.
pub open spec fn calls_for(cx: Context, insns: Seq<ArmInsnView>, k: int, r: RelocView) -> bool {
    ||| exists|link: bool, target: u64| #[trigger]
        branches_to(insns[k], link, target) && relocates_branch(
            cx,
            link,
            insns[k].address,
            target,
            r,
        )
    ||| exists|indirect: bool, rn: u32, site: PoolLoad|
        adds_to_pc(insns[k], indirect, rn) && #[trigger] holds(cx, insns, k, rn, site)
            && #[trigger] relocates_pool(cx, indirect, insns[k].address, site, r)
}

/// True when some relocation is that of the pool word at `addr`.
pub open spec fn is_relocated(cx: Context, relocs: Seq<RelocView>, addr: u64) -> bool {
    exists|i: int|
        0 <= i < relocs.len() && is_pool_kind((#[trigger] relocs[i]).kind) && cx.fn_addr
            + relocs[i].offset == addr
}

/// True when an instruction before `n` calls for `r`.
pub open spec fn is_called_for(
    cx: Context,
    insns: Seq<ArmInsnView>,
    n: int,
    r: RelocView,
) -> bool {
    exists|k: int| 0 <= k < n && #[trigger] calls_for(cx, insns, k, r)
}

/// Each relocation is one that an instruction before `n` calls for.
pub open spec fn all_called_for(
    cx: Context,
    insns: Seq<ArmInsnView>,
    n: int,
    relocs: Seq<RelocView>,
) -> bool {
    forall|i: int| 0 <= i < relocs.len() ==> is_called_for(cx, insns, n, #[trigger] relocs[i])
}

/// Each branch before instruction `n` that leads to something known has its relocation.
pub open spec fn branches_relocated(
    cx: Context,
    insns: Seq<ArmInsnView>,
    n: int,
    relocs: Seq<RelocView>,
) -> bool {
    forall|k: int, link: bool, target: u64, name: Seq<char>, d: int|
        0 <= k < n && #[trigger] branches_to(insns[k], link, target) && leaves(cx, link, target)
            && #[trigger] leads_to(cx.symbols, name, d, target) ==> exists|i: int|
            0 <= i < relocs.len() && #[trigger] relocates_branch(
                cx,
                link,
                insns[k].address,
                target,
                relocs[i],
            )
}

/// Each pool word of the function from which an instruction before `n` forms a known
/// address has a relocation.
pub open spec fn pools_relocated(
    cx: Context,
    insns: Seq<ArmInsnView>,
    n: int,
    relocs: Seq<RelocView>,
) -> bool {
    forall|k: int, indirect: bool, rn: u32, site: PoolLoad|
        0 <= k < n && #[trigger] adds_to_pc(insns[k], indirect, rn) && #[trigger] holds(
            cx,
            insns,
            k,
            rn,
            site,
        ) && in_function(cx, site.pool_addr) && is_known(
            cx,
            indirect,
            formed(insns[k].address, site.value) as u64,
        ) ==> is_relocated(cx, relocs, site.pool_addr)
}

/// The registers known after `n` instructions are those that hold a pool word.
spec fn tracks(cx: Context, insns: Seq<ArmInsnView>, n: int, tracker: Map<u32, PoolLoad>) -> bool {
    forall|r: u32, site: PoolLoad| #[trigger]
        holds(cx, insns, n, r, site) <==> tracker.contains_key(r) && tracker[r] == site
}

/// Each pool word that was decided has a relocation.
spec fn claims(cx: Context, st: RecoveryState) -> bool {
    forall|p: u64| #[trigger] st.claimed.contains_key(p) ==> is_relocated(cx, st.relocs, p)
}

/// All of it, after `n` instructions.
spec fn recovery_holds(cx: Context, insns: Seq<ArmInsnView>, n: int, st: RecoveryState) -> bool {
    &&& tracks(cx, insns, n, st.tracker)
    &&& claims(cx, st)
    &&& all_called_for(cx, insns, n, st.relocs)
    &&& branches_relocated(cx, insns, n, st.relocs)
    &&& pools_relocated(cx, insns, n, st.relocs)
}

proof fn lemma_image_word(cx: Context, addr: u64)
    ensures
        match image_word(cx.base, cx.bytes, addr) {
            Some(value) => forall|v: u32| #[trigger] word_reads(cx, addr, v) <==> v == value,
            None => forall|v: u32| !#[trigger] word_reads(cx, addr, v),
        },
{
    reveal_with_fuel(le_value, 5);
}

proof fn lemma_first_imm(ops: Seq<Operand>, i: int)
    requires
        0 <= i <= ops.len(),
        forall|l: int| 0 <= l < i ==> !((#[trigger] ops[l]).kind is Imm),
    ensures
        match first_imm_from(ops, i) {
            Some(t) => forall|target: u64| #[trigger]
                names_address(ops, target) <==> target == t,
            None => (forall|j: int| 0 <= j < ops.len() ==> !((#[trigger] ops[j]).kind is Imm)),
        },
    decreases ops.len() - i,
{
    if i < ops.len() {
        if let OperandKind::Imm(v) = ops[i].kind {
            assert(v >= 0 ==> v as u32 == v) by (bit_vector);
            assert(v < 0 ==> v as u32 == v + 0x1_0000_0000) by (bit_vector);
            let t = first_imm_from(ops, i)->0;
            assert(is_first_imm(ops, i, t));
            assert forall|target: u64| #[trigger] names_address(ops, target) <==> target == t by {
                if names_address(ops, target) {
                    let j = choose|j: int| #[trigger] is_first_imm(ops, j, target);
                    assert(j == i);
                }
            }
        } else {
            lemma_first_imm(ops, i + 1);
        }
    }
}

/// What the meaning of an instruction says of it.
proof fn lemma_class(insn: ArmInsnView, m: Seq<char>, ops: Seq<Operand>)
    requires
        insn.mnemonic == Some(m),
        insn.operands == Some(ops),
    ensures
        match classified(ops, insn.id, insn.address) {
            InsnClass::Branch(link, target) => {
                &&& forall|l: bool, t: u64| #[trigger]
                    branches_to(insn, l, t) <==> l == link && t == target
                &&& !reads_pc(insn)
                &&& forall|r: u32| #[trigger] overwrites(insn, r) == link
            },
            InsnClass::PoolLoad(rd, addr) => {
                &&& forall|l: bool, t: u64| !#[trigger] branches_to(insn, l, t)
                &&& forall|r: u32, a: u64| #[trigger]
                    loads_pool(insn, r, a) <==> r == rd && a == addr
                &&& forall|b: bool, r: u32| !#[trigger] adds_to_pc(insn, b, r)
                &&& forall|r: u32| #[trigger] overwrites(insn, r) == (r == rd)
            },
            InsnClass::AddPc(rd, rn) => {
                &&& forall|l: bool, t: u64| !#[trigger] branches_to(insn, l, t)
                &&& forall|r: u32, a: u64| !#[trigger] loads_pool(insn, r, a)
                &&& forall|b: bool, r: u32| #[trigger] adds_to_pc(insn, b, r) <==> !b && r == rn
                &&& forall|r: u32| #[trigger] overwrites(insn, r) == (r == rd)
            },
            InsnClass::PcIndexedLoad(rd, rn) => {
                &&& forall|l: bool, t: u64| !#[trigger] branches_to(insn, l, t)
                &&& forall|r: u32, a: u64| !#[trigger] loads_pool(insn, r, a)
                &&& forall|b: bool, r: u32| #[trigger] adds_to_pc(insn, b, r) <==> b && r == rn
                &&& forall|r: u32| #[trigger] overwrites(insn, r) == (r == rd)
            },
            InsnClass::Barrier => {
                &&& forall|l: bool, t: u64| !#[trigger] branches_to(insn, l, t)
                &&& !reads_pc(insn)
                &&& forall|r: u32| #[trigger] overwrites(insn, r)
            },
            InsnClass::Other => {
                &&& forall|l: bool, t: u64| !#[trigger] branches_to(insn, l, t)
                &&& !reads_pc(insn)
                &&& forall|r: u32| #[trigger] overwrites(insn, r) == may_write(m, ops, r)
            },
        },
{
    lemma_first_imm(ops, 0);
    let class = classified(ops, insn.id, insn.address);
    assert(names_pc(ops) <==> exists|j: int|
        0 <= j < ops.len() && (#[trigger] ops[j]).kind == OperandKind::Reg(11)) by {
        if names_pc(ops) {
            let j = choose|j: int| 0 <= j < ops.len() && reg_of(#[trigger] ops[j]) == Some(11u32);
            assert(ops[j].kind == OperandKind::Reg(11));
        }
        if exists|j: int| 0 <= j < ops.len() && (#[trigger] ops[j]).kind == OperandKind::Reg(11) {
            let j = choose|j: int|
                0 <= j < ops.len() && (#[trigger] ops[j]).kind == OperandKind::Reg(11);
            assert(reg_of(ops[j]) == Some(11u32));
        }
    }
    match class {
        InsnClass::Branch(link, target) => {
            assert(names_address(ops, target));
            let j = choose|j: int| #[trigger] is_first_imm(ops, j, target);
            assert(ops[j].kind is Imm);
            assert(!reads_pc(insn));
        },
        InsnClass::PoolLoad(rd, addr) => {
            if let OperandKind::Mem(base, index, disp) = ops[1].kind {
                lemma_pc_relative(insn.address, disp);
            }
            assert(loads_pool(insn, rd, addr));
            assert(reads_pc(insn));
        },
        InsnClass::AddPc(rd, rn) => {
            assert(adds_to_pc(insn, false, rn));
            assert(reads_pc(insn));
        },
        InsnClass::PcIndexedLoad(rd, rn) => {
            assert(adds_to_pc(insn, true, rn));
            assert(reads_pc(insn));
        },
        InsnClass::Barrier => {
            assert(forall|t: u64| !#[trigger] names_address(ops, t) || insn.id == 19 || insn.id
                == 20 || insn.id == 127 || insn.id == 79);
            assert(!reads_pc(insn));
        },
        InsnClass::Other => {
            assert(!reads_pc(insn));
        },
    }
}

proof fn lemma_pc_relative(address: u64, disp: i32)
    ensures
        super::runs::pc_relative(address, disp) == (address + 8 + disp)
            % 0x1_0000_0000_0000_0000,
{
    assert(disp >= 0 ==> disp as i64 as u64 == disp) by (bit_vector);
    assert(disp < 0 ==> disp as i64 as u64 == disp + 0x1_0000_0000_0000_0000) by (bit_vector);
}

/// The registers that an instruction writes.
proof fn lemma_registers(ops: Seq<Operand>, n: int, r: u32)
    requires
        0 <= n <= ops.len(),
    ensures
        registers(ops, n).contains(r) <==> exists|j: int|
            0 <= j < n && (#[trigger] ops[j]).kind == OperandKind::Reg(r),
    decreases n,
{
    if n > 0 {
        lemma_registers(ops, n - 1, r);
        let before = registers(ops, n - 1);
        if let Some(x) = reg_of(ops[n - 1]) {
            let after = before.push(x);
            assert(after[before.len() as int] == x);
            if before.contains(r) {
                let k = choose|k: int| 0 <= k < before.len() && before[k] == r;
                assert(after[k] == r);
            }
            if after.contains(r) && x != r {
                let k = choose|k: int| 0 <= k < after.len() && after[k] == r;
                assert(before[k] == r);
            }
        }
    }
}

proof fn lemma_written(m: Seq<char>, ops: Seq<Operand>, r: u32)
    ensures
        written(m, ops).contains(r) <==> may_write(m, ops, r),
{
    lemma_registers(ops, ops.len() as int, r);
    if ops.len() > 0 {
        lemma_registers(ops, 1, r);
        assert(registers(ops, 1).contains(r) <==> ops[0].kind == OperandKind::Reg(r));
    } else {
        lemma_registers(ops, 0, r);
    }
}

proof fn lemma_forgets(st: RecoveryState, regs: Seq<u32>, i: int)
    requires
        0 <= i <= regs.len(),
    ensures
        ({
            let next = st.without_all(regs, i);
            &&& next.relocs == st.relocs
            &&& next.claimed == st.claimed
            &&& forall|r: u32| #[trigger]
                next.tracker.contains_key(r) <==> st.tracker.contains_key(r) && !(exists|k: int|
                    i <= k < regs.len() && #[trigger] regs[k] == r)
            &&& forall|r: u32| #[trigger]
                next.tracker.contains_key(r) ==> next.tracker[r] == st.tracker[r]
        }),
    decreases regs.len() - i,
{
    if i < regs.len() {
        lemma_forgets(st.without(regs[i]), regs, i + 1);
    }
}

/// What an instruction does to what is known of a register.
proof fn lemma_tracker(st: RecoveryState, cx: Context, insn: ArmInsnView, r: u32, site: PoolLoad)
    ensures
        ({
            let next = with_insn(st, cx, insn);
            next.tracker.contains_key(r) && next.tracker[r] == site
        }) <==> ({
            ||| loads_pool(insn, r, site.pool_addr) && word_reads(cx, site.pool_addr, site.value)
            ||| !overwrites(insn, r) && st.tracker.contains_key(r) && st.tracker[r] == site
        }),
{
    let counted = RecoveryState {
        diag: RecoveryDiagnostics {
            instructions: st.diag.instructions.wrapping_add(1),
            ..st.diag
        },
        ..st
    };
    match (insn.mnemonic, insn.operands) {
        (Some(m), Some(ops)) => {
            lemma_class(insn, m, ops);
            let class = classified(ops, insn.id, insn.address);
            let next = with_meaning(counted, cx, class, m, ops, insn.address);
            assert(with_insn(st, cx, insn) == next);
            match class {
                InsnClass::PoolLoad(rd, addr) => {
                    lemma_image_word(cx, addr);
                    assert(word_reads(cx, addr, site.value) <==> image_word(
                        cx.base,
                        cx.bytes,
                        addr,
                    ) == Some(site.value));
                },
                InsnClass::Other => {
                    let w = written(m, ops);
                    lemma_forgets(counted, w, 0);
                    lemma_written(m, ops, r);
                    assert(w.contains(r) <==> exists|k: int|
                        0 <= k < w.len() && #[trigger] w[k] == r);
                    assert(next == counted.without_all(w, 0));
                    assert(next.tracker.contains_key(r) <==> st.tracker.contains_key(r)
                        && !may_write(m, ops, r));
                    assert(overwrites(insn, r) == may_write(m, ops, r));
                    assert(!loads_pool(insn, r, site.pool_addr));
                },
                InsnClass::Branch(link, target) => {
                    assert(!loads_pool(insn, r, site.pool_addr));
                    assert(overwrites(insn, r) == link);
                },
                InsnClass::Barrier => {
                    assert(!loads_pool(insn, r, site.pool_addr));
                    assert(overwrites(insn, r));
                },
                InsnClass::AddPc(rd, rn) => {
                    assert(overwrites(insn, r) == (r == rd));
                },
                InsnClass::PcIndexedLoad(rd, rn) => {
                    assert(overwrites(insn, r) == (r == rd));
                },
            }
        },
        _ => {},
    }
}

/// The arithmetic of pool words: the distance that is stored makes the linker put back
/// the word.
proof fn lemma_distance(site: PoolLoad, pc: u64, extra: i64)
    ensures
        pool_target(site, pc) == formed(pc, site.value),
        links_back(
            pool_target(site, pc) as int,
            pool_distance(site.pool_addr, pc) as int,
            site.pool_addr,
            site.value,
        ),
        links_back(
            pool_target(site, pc) - extra,
            pool_distance(site.pool_addr, pc).wrapping_add(extra) as int,
            site.pool_addr,
            site.value,
        ),
{
    let value = site.value;
    let p = site.pool_addr;
    let pc8 = pc.wrapping_add(8);
    assert(value < 0x8000_0000u32 ==> value as i32 as i64 as u64 == value) by (bit_vector);
    assert(value >= 0x8000_0000u32 ==> value as i32 as i64 as u64 == value + 0xffff_ffff_0000_0000)
        by (bit_vector);
    assert(p < 0x8000_0000_0000_0000u64 ==> p as i64 == p) by (bit_vector);
    assert(p >= 0x8000_0000_0000_0000u64 ==> p as i64 == p - 0x1_0000_0000_0000_0000)
        by (bit_vector);
    assert(pc8 < 0x8000_0000_0000_0000u64 ==> pc8 as i64 == pc8) by (bit_vector);
    assert(pc8 >= 0x8000_0000_0000_0000u64 ==> pc8 as i64 == pc8 - 0x1_0000_0000_0000_0000)
        by (bit_vector);
    let t = pool_target(site, pc);
    let d = pool_distance(p, pc);
    let big: int = 0x1_0000_0000_0000_0000;
    let k1: int = if value < 0x8000_0000 { 0 } else { 1 };
    let k2: int = if pc8 + (value as i32 as i64 as u64) > u64::MAX { 1 } else { 0 };
    let k3: int = (if p < 0x8000_0000_0000_0000 { 0int } else { 1 });
    let k4: int = (if pc8 < 0x8000_0000_0000_0000 { 0int } else { 1 });
    let k5: int = if (p as i64) - (pc8 as i64) > i64::MAX {
        -1
    } else if (p as i64) - (pc8 as i64) < i64::MIN {
        1
    } else {
        0
    };
    let k6: int = if d + extra > i64::MAX {
        -1
    } else if d + extra < i64::MIN {
        1
    } else {
        0
    };
    assert(t == pc8 + value + k1 * 0xffff_ffff_0000_0000 - k2 * 0x1_0000_0000_0000_0000);
    assert(d == p - k3 * 0x1_0000_0000_0000_0000 - pc8 + k4 * 0x1_0000_0000_0000_0000 + k5
        * 0x1_0000_0000_0000_0000);
    let q: int = k1 * 0xffff_ffff - k2 * 0x1_0000_0000 - k3 * 0x1_0000_0000 + k4 * 0x1_0000_0000
        + k5 * 0x1_0000_0000;
    assert(t + d - p - value == q * 0x1_0000_0000);
    lemma_multiple(t + d - p - value, q);
    let e = d.wrapping_add(extra);
    assert(e == d + extra + k6 * 0x1_0000_0000_0000_0000);
    let q2: int = q + k6 * 0x1_0000_0000;
    assert(t - extra + e - p - value == q2 * 0x1_0000_0000);
    lemma_multiple(t - extra + e - p - value, q2);
}

proof fn lemma_multiple(x: int, q: int)
    requires
        x == q * 0x1_0000_0000,
    ensures
        x % 0x1_0000_0000 == 0,
{
}

/// A longer list of relocations has what a shorter one has.
proof fn lemma_longer(cx: Context, relocs: Seq<RelocView>, more: Seq<RelocView>, addr: u64)
    requires
        relocs.len() <= more.len(),
        forall|i: int| 0 <= i < relocs.len() ==> more[i] == #[trigger] relocs[i],
        is_relocated(cx, relocs, addr),
    ensures
        is_relocated(cx, more, addr),
{
    let i = choose|i: int|
        0 <= i < relocs.len() && is_pool_kind((#[trigger] relocs[i]).kind) && cx.fn_addr
            + relocs[i].offset == addr;
    assert(more[i] == relocs[i]);
}

/// What a pool word adds.
proof fn lemma_with_pool(
    st: RecoveryState,
    cx: Context,
    site: PoolLoad,
    pc: u64,
    claim: ClaimView,
    target: u64,
)
    requires
        claims(cx, st),
        is_pool_kind(claim.kind),
    ensures
        ({
            let next = st.with_pool(cx, site.pool_addr, pc, claim, target);
            &&& claims(cx, next)
            &&& in_function(cx, site.pool_addr) ==> is_relocated(cx, next.relocs, site.pool_addr)
            &&& next.relocs == st.relocs || {
                &&& next.relocs == st.relocs.push(next.relocs.last())
                &&& in_function(cx, site.pool_addr)
                &&& next.relocs.last().pc == pc
                &&& next.relocs.last().kind == claim.kind
                &&& next.relocs.last().target == claim.symbol
                &&& next.relocs.last().addend == claim.addend
                &&& next.relocs.last().target_addr == target
                &&& cx.fn_addr + next.relocs.last().offset == site.pool_addr
            }
        }),
{
    let next = st.with_pool(cx, site.pool_addr, pc, claim, target);
    if next.relocs != st.relocs {
        let n = st.relocs.len() as int;
        assert(next.relocs[n] == next.relocs.last());
        assert(is_relocated(cx, next.relocs, site.pool_addr));
        assert forall|p: u64| #[trigger] next.claimed.contains_key(p) implies is_relocated(
            cx,
            next.relocs,
            p,
        ) by {
            if p != site.pool_addr {
                assert(st.claimed.contains_key(p));
                lemma_longer(cx, st.relocs, next.relocs, p);
            }
        }
    }
}

/// What an instruction that forms an address from a pool word adds.
proof fn lemma_use(st: RecoveryState, cx: Context, indirect: bool, site: PoolLoad, pc: u64)
    requires
        claims(cx, st),
    ensures
        ({
            let target = pool_target(site, pc);
            let next = if indirect && range_contains(cx.symbols.got_range, target) {
                st.with_got(cx, site, pc, target)
            } else {
                st.with_pcrel(cx, site, pc, target)
            };
            &&& target == formed(pc, site.value)
            &&& claims(cx, next)
            &&& in_function(cx, site.pool_addr) && is_known(cx, indirect, target) ==> is_relocated(
                cx,
                next.relocs,
                site.pool_addr,
            )
            &&& next.relocs == st.relocs || {
                &&& next.relocs == st.relocs.push(next.relocs.last())
                &&& relocates_pool(cx, indirect, pc, site, next.relocs.last())
            }
        }),
{
    let target = pool_target(site, pc);
    lemma_distance(site, pc, 0);
    if indirect && range_contains(cx.symbols.got_range, target) {
        cx.symbols.law_slots_denote_what_they_hold(target);
        if let Some(res) = cx.symbols.spec_resolve_got_slot(target) {
            let counted = RecoveryState {
                diag: RecoveryDiagnostics {
                    got_slot_interior: st.diag.got_slot_interior.wrapping_add(1),
                    ..st.diag
                },
                ..st
            };
            let claim = ClaimView {
                kind: RelocKind::GotPrel,
                symbol: res.symbol,
                addend: pool_distance(site.pool_addr, pc),
            };
            lemma_with_pool(st, cx, site, pc, claim, target);
            lemma_with_pool(counted, cx, site, pc, claim, target);
            assert(cx.symbols.slot_holds(res, target));
        }
    } else {
        cx.symbols.law_pointers_denote_their_address(target);
        if let Some(res) = cx.symbols.spec_resolve_data(target) {
            lemma_distance(site, pc, res.addend);
            let claim = ClaimView {
                kind: RelocKind::Rel32,
                symbol: res.symbol,
                addend: pool_distance(site.pool_addr, pc).wrapping_add(res.addend),
            };
            lemma_with_pool(st, cx, site, pc, claim, target);
            assert(cx.symbols.stands_for(res, target));
        }
    }
}

/// What a branch that leaves the function adds.
proof fn lemma_branch(st: RecoveryState, cx: Context, link: bool, pc: u64, target: u64)
    requires
        leaves(cx, link, target),
    ensures
        ({
            let kind = if link {
                RelocKind::Call
            } else {
                RelocKind::Jump24
            };
            let next = st.with_branch(cx, pc, target, kind);
            &&& next.claimed == st.claimed
            &&& next.relocs == st.relocs || {
                &&& next.relocs == st.relocs.push(next.relocs.last())
                &&& relocates_branch(cx, link, pc, target, next.relocs.last())
            }
            &&& next.relocs == st.relocs ==> forall|name: Seq<char>, d: int|
                !#[trigger] leads_to(cx.symbols, name, d, target)
        }),
{
    let symbols = cx.symbols;
    symbols.lemma_enclosing(target);
    if symbols.functions@.contains_key(target) {
        assert(symbols.function_goes_by(target, symbols.functions@[target]@.export_name()));
    } else if let Some(a) = enclosing(symbols.functions@, target) {
        lemma_reaches(a, target);
        assert(symbols.function_covers(a, target) && symbols.function_goes_by(
            a,
            symbols.functions@[a]@.export_name(),
        ));
        let delta = (target - a) as u64 as i64;
        assert(reaches(a, (-8i64).wrapping_add(delta) + 8, target));
    }
    let kind = if link {
        RelocKind::Call
    } else {
        RelocKind::Jump24
    };
    let next = st.with_branch(cx, pc, target, kind);
    match branch_target(symbols, target) {
        Some((name, delta)) => {
            let last = next.relocs[st.relocs.len() as int];
            assert(next.relocs.last() == last);
            assert(next.relocs =~= st.relocs.push(last));
            assert(last.addend == (-8i64).wrapping_add(delta));
            assert(leads_to(symbols, name, last.addend + 8, target));
            assert((cx.fn_addr + last.offset) % 0x1_0000_0000_0000_0000 == pc);
            assert(relocates_branch(cx, link, pc, target, last));
        },
        None => {
            assert(next.relocs == st.relocs);
            assert(forall|a: u64| !#[trigger] symbols.function_covers(a, target));
        },
    }
}

/// What a register holds one instruction later.
proof fn lemma_holds(cx: Context, insns: Seq<ArmInsnView>, n: int, r: u32, site: PoolLoad)
    requires
        0 <= n < insns.len(),
    ensures
        holds(cx, insns, n + 1, r, site) <==> ({
            ||| loads_pool(insns[n], r, site.pool_addr) && word_reads(
                cx,
                site.pool_addr,
                site.value,
            )
            ||| !overwrites(insns[n], r) && holds(cx, insns, n, r, site)
        }),
{
    if holds(cx, insns, n + 1, r, site) {
        let j = choose|j: int| #[trigger] is_load(cx, insns, n + 1, j, r, site);
        if j < n {
            assert(is_load(cx, insns, n, j, r, site));
        }
    }
    if loads_pool(insns[n], r, site.pool_addr) && word_reads(cx, site.pool_addr, site.value) {
        assert(is_load(cx, insns, n + 1, n, r, site));
    }
    if !overwrites(insns[n], r) && holds(cx, insns, n, r, site) {
        let j = choose|j: int| #[trigger] is_load(cx, insns, n, j, r, site);
        assert(is_load(cx, insns, n + 1, j, r, site));
    }
}

proof fn lemma_tracks(cx: Context, insns: Seq<ArmInsnView>, n: int, st: RecoveryState)
    requires
        0 <= n < insns.len(),
        tracks(cx, insns, n, st.tracker),
    ensures
        tracks(cx, insns, n + 1, with_insn(st, cx, insns[n]).tracker),
{
    assert forall|r: u32, site: PoolLoad| #[trigger]
        holds(cx, insns, n + 1, r, site) <==> with_insn(st, cx, insns[n]).tracker.contains_key(r)
            && with_insn(st, cx, insns[n]).tracker[r] == site by {
        lemma_holds(cx, insns, n, r, site);
        lemma_tracker(st, cx, insns[n], r, site);
        assert(holds(cx, insns, n, r, site) <==> st.tracker.contains_key(r) && st.tracker[r]
            == site);
    }
}

/// True when the relocations of `next` are those of `st` and at most one more, which
/// instruction `n` calls for, and nothing that it calls for is left out.
spec fn advances(
    cx: Context,
    insns: Seq<ArmInsnView>,
    n: int,
    st: RecoveryState,
    next: RecoveryState,
) -> bool {
    &&& claims(cx, next)
    &&& next.relocs == st.relocs || {
        &&& next.relocs == st.relocs.push(next.relocs.last())
        &&& calls_for(cx, insns, n, next.relocs.last())
    }
    &&& forall|link: bool, target: u64, name: Seq<char>, d: int| #[trigger]
        branches_to(insns[n], link, target) && leaves(cx, link, target) && #[trigger] leads_to(
            cx.symbols,
            name,
            d,
            target,
        ) ==> exists|i: int|
            0 <= i < next.relocs.len() && #[trigger] relocates_branch(
                cx,
                link,
                insns[n].address,
                target,
                next.relocs[i],
            )
    &&& forall|indirect: bool, rn: u32, site: PoolLoad| #[trigger]
        adds_to_pc(insns[n], indirect, rn) && #[trigger] holds(cx, insns, n, rn, site)
            && in_function(cx, site.pool_addr) && is_known(
            cx,
            indirect,
            formed(insns[n].address, site.value) as u64,
        ) ==> is_relocated(cx, next.relocs, site.pool_addr)
}

proof fn lemma_advances(cx: Context, insns: Seq<ArmInsnView>, n: int, st: RecoveryState)
    requires
        0 <= n < insns.len(),
        tracks(cx, insns, n, st.tracker),
        claims(cx, st),
    ensures
        advances(cx, insns, n, st, with_insn(st, cx, insns[n])),
{
    let insn = insns[n];
    let pc = insn.address;
    let counted = RecoveryState {
        diag: RecoveryDiagnostics {
            instructions: st.diag.instructions.wrapping_add(1),
            ..st.diag
        },
        ..st
    };
    assert(claims(cx, counted));
    let next = with_insn(st, cx, insn);
    match (insn.mnemonic, insn.operands) {
        (Some(m), Some(ops)) => {
            lemma_class(insn, m, ops);
            let class = classified(ops, insn.id, pc);
            assert(next == with_meaning(counted, cx, class, m, ops, pc));
            match class {
                InsnClass::Branch(link, target) => {
                    assert(branches_to(insn, link, target));
                    if leaves(cx, link, target) {
                        lemma_branch(counted, cx, link, pc, target);
                        if next.relocs != st.relocs {
                            let k = st.relocs.len() as int;
                            assert(next.relocs[k] == next.relocs.last());
                            assert(relocates_branch(cx, link, pc, target, next.relocs[k]));
                        }
                        assert forall|p: u64| #[trigger]
                            next.claimed.contains_key(p) implies is_relocated(
                            cx,
                            next.relocs,
                            p,
                        ) by {
                            assert(st.claimed.contains_key(p));
                            lemma_longer(cx, st.relocs, next.relocs, p);
                        }
                    }
                },
                InsnClass::AddPc(rd, rn) => {
                    lemma_consumer(cx, insns, n, counted, false, rd, rn);
                },
                InsnClass::PcIndexedLoad(rd, rn) => {
                    lemma_consumer(cx, insns, n, counted, true, rd, rn);
                },
                InsnClass::Other => {
                    lemma_forgets(counted, written(m, ops), 0);
                },
                _ => {},
            }
        },
        _ => {},
    }
}

/// An instruction that forms an address from a register.
proof fn lemma_consumer(
    cx: Context,
    insns: Seq<ArmInsnView>,
    n: int,
    st: RecoveryState,
    indirect: bool,
    rd: u32,
    rn: u32,
)
    requires
        0 <= n < insns.len(),
        tracks(cx, insns, n, st.tracker),
        claims(cx, st),
        forall|b: bool, r: u32| #[trigger]
            adds_to_pc(insns[n], b, r) <==> b == indirect && r == rn,
        forall|l: bool, t: u64| !#[trigger] branches_to(insns[n], l, t),
    ensures
        advances(
            cx,
            insns,
            n,
            st,
            with_meaning(
                st,
                cx,
                if indirect {
                    InsnClass::PcIndexedLoad(rd, rn)
                } else {
                    InsnClass::AddPc(rd, rn)
                },
                Seq::empty(),
                Seq::empty(),
                insns[n].address,
            ),
        ),
{
    let pc = insns[n].address;
    assert(adds_to_pc(insns[n], indirect, rn));
    if st.tracker.contains_key(rn) {
        let site = st.tracker[rn];
        lemma_use(st, cx, indirect, site, pc);
        assert(holds(cx, insns, n, rn, site));
        let target = pool_target(site, pc);
        let next = if indirect && range_contains(cx.symbols.got_range, target) {
            st.with_got(cx, site, pc, target)
        } else {
            st.with_pcrel(cx, site, pc, target)
        };
        if next.relocs != st.relocs {
            assert(relocates_pool(cx, indirect, pc, site, next.relocs.last()));
            assert(calls_for(cx, insns, n, next.relocs.last()));
        }
        assert(claims(cx, next.without(rd)));
    } else {
        assert(forall|site: PoolLoad| !#[trigger] holds(cx, insns, n, rn, site));
        assert(claims(cx, st.without(rd)));
    }
}

proof fn lemma_step(cx: Context, insns: Seq<ArmInsnView>, n: int, st: RecoveryState)
    requires
        0 <= n < insns.len(),
        recovery_holds(cx, insns, n, st),
    ensures
        recovery_holds(cx, insns, n + 1, with_insn(st, cx, insns[n])),
{
    let next = with_insn(st, cx, insns[n]);
    lemma_tracks(cx, insns, n, st);
    lemma_advances(cx, insns, n, st);
    assert(forall|i: int| 0 <= i < st.relocs.len() ==> next.relocs[i] == #[trigger] st.relocs[i]);
    assert forall|i: int| 0 <= i < next.relocs.len() implies is_called_for(
        cx,
        insns,
        n + 1,
        #[trigger] next.relocs[i],
    ) by {
        if i < st.relocs.len() {
            assert(next.relocs[i] == st.relocs[i]);
            assert(is_called_for(cx, insns, n, st.relocs[i]));
            let k = choose|k: int| 0 <= k < n && #[trigger] calls_for(cx, insns, k, st.relocs[i]);
            assert(calls_for(cx, insns, k, next.relocs[i]));
        } else {
            assert(calls_for(cx, insns, n, next.relocs[i]));
        }
    }
    assert forall|k: int, link: bool, target: u64, name: Seq<char>, d: int|
        0 <= k < n + 1 && #[trigger] branches_to(insns[k], link, target) && leaves(
            cx,
            link,
            target,
        ) && #[trigger] leads_to(cx.symbols, name, d, target) implies exists|i: int|
        0 <= i < next.relocs.len() && #[trigger] relocates_branch(
            cx,
            link,
            insns[k].address,
            target,
            next.relocs[i],
        ) by {
        if k < n {
            let i = choose|i: int|
                0 <= i < st.relocs.len() && #[trigger] relocates_branch(
                    cx,
                    link,
                    insns[k].address,
                    target,
                    st.relocs[i],
                );
            assert(relocates_branch(cx, link, insns[k].address, target, next.relocs[i]));
        }
    }
    assert forall|k: int, indirect: bool, rn: u32, site: PoolLoad|
        0 <= k < n + 1 && #[trigger] adds_to_pc(insns[k], indirect, rn) && #[trigger] holds(
            cx,
            insns,
            k,
            rn,
            site,
        ) && in_function(cx, site.pool_addr) && is_known(
            cx,
            indirect,
            formed(insns[k].address, site.value) as u64,
        ) implies is_relocated(cx, next.relocs, site.pool_addr) by {
        if k < n {
            lemma_longer(cx, st.relocs, next.relocs, site.pool_addr);
        }
    }
    assert(tracks(cx, insns, n + 1, next.tracker));
    assert(claims(cx, next));
    assert(all_called_for(cx, insns, n + 1, next.relocs));
    assert(branches_relocated(cx, insns, n + 1, next.relocs));
    assert(pools_relocated(cx, insns, n + 1, next.relocs));
}

/// The instructions of the first `n` runs, one after the other.
pub open spec fn flattened(runs: Seq<Option<Seq<ArmInsnView>>>, n: int) -> Seq<ArmInsnView>
    decreases n,
{
    if n <= 0 {
        Seq::empty()
    } else {
        flattened(runs, n - 1) + match runs[n - 1] {
            Some(insns) => insns,
            None => Seq::empty(),
        }
    }
}

proof fn lemma_flattened(runs: Seq<Option<Seq<ArmInsnView>>>, i: int, n: int)
    requires
        0 <= i <= n <= runs.len(),
    ensures
        flattened(runs, i).len() <= flattened(runs, n).len(),
        forall|k: int|
            0 <= k < flattened(runs, i).len() ==> #[trigger] flattened(runs, i)[k] == flattened(
                runs,
                n,
            )[k],
    decreases n - i,
{
    if i < n {
        lemma_flattened(runs, i, n - 1);
        let a = flattened(runs, n - 1);
        assert forall|k: int|
            0 <= k < flattened(runs, i).len() implies #[trigger] flattened(runs, i)[k] == flattened(
            runs,
            n,
        )[k] by {
            assert(flattened(runs, n)[k] == a[k]);
        }
    }
}

proof fn lemma_run(
    cx: Context,
    all: Seq<ArmInsnView>,
    n: int,
    st: RecoveryState,
    insns: Seq<ArmInsnView>,
    i: int,
)
    requires
        0 <= i <= insns.len(),
        0 <= n,
        n + insns.len() <= all.len(),
        forall|k: int| 0 <= k < insns.len() ==> #[trigger] insns[k] == all[n + k],
        recovery_holds(cx, all, n + i, st),
    ensures
        recovery_holds(cx, all, n + insns.len(), with_insns(st, cx, insns, i)),
    decreases insns.len() - i,
{
    if i < insns.len() {
        assert(insns[i] == all[n + i]);
        lemma_step(cx, all, n + i, st);
        lemma_run(cx, all, n, with_insn(st, cx, insns[i]), insns, i + 1);
    }
}

proof fn lemma_runs(
    cx: Context,
    runs: Seq<Option<Seq<ArmInsnView>>>,
    st: RecoveryState,
    i: int,
)
    requires
        0 <= i <= runs.len(),
        recovery_holds(
            cx,
            flattened(runs, runs.len() as int),
            flattened(runs, i).len() as int,
            st,
        ),
    ensures
        recovery_holds(
            cx,
            flattened(runs, runs.len() as int),
            flattened(runs, runs.len() as int).len() as int,
            with_runs(st, cx, runs, i),
        ),
    decreases runs.len() - i,
{
    if i < runs.len() {
        let all = flattened(runs, runs.len() as int);
        let n = flattened(runs, i).len() as int;
        let next = match runs[i] {
            Some(insns) => with_insns(st, cx, insns, 0),
            None => RecoveryState {
                diag: RecoveryDiagnostics {
                    decode_failures: st.diag.decode_failures.wrapping_add(1),
                    ..st.diag
                },
                ..st
            },
        };
        match runs[i] {
            Some(insns) => {
                lemma_flattened(runs, i + 1, runs.len() as int);
                let upto = flattened(runs, i + 1);
                assert forall|k: int| 0 <= k < insns.len() implies #[trigger] insns[k] == all[n
                    + k] by {
                    assert(upto[n + k] == insns[k]);
                }
                lemma_run(cx, all, n, st, insns, 0);
            },
            None => {
                assert(flattened(runs, i + 1).len() == n);
                assert(claims(cx, next));
            },
        }
        lemma_runs(cx, runs, next, i + 1);
    }
}

/// Relocations of code mean what the code did: each is one that an instruction calls for,
/// with the kind, the symbol and the addend that give back the branch or the pool word at
/// the addresses that were.
pub proof fn law_relocations_give_back_the_code(
    cx: Context,
    runs: Seq<Option<Seq<ArmInsnView>>>,
)
    ensures
        ({
            let insns = flattened(runs, runs.len() as int);
            all_called_for(
                cx,
                insns,
                insns.len() as int,
                with_runs(initial_state(), cx, runs, 0).relocs,
            )
        }),
{
    lemma_initial(cx, runs);
}

/// No reference is left out: each branch that leaves the function, and each pool word of it
/// from which an instruction forms an address, has a relocation wherever a symbol stands
/// for what it refers to.
pub proof fn law_references_are_relocated(cx: Context, runs: Seq<Option<Seq<ArmInsnView>>>)
    ensures
        ({
            let insns = flattened(runs, runs.len() as int);
            let relocs = with_runs(initial_state(), cx, runs, 0).relocs;
            &&& branches_relocated(cx, insns, insns.len() as int, relocs)
            &&& pools_relocated(cx, insns, insns.len() as int, relocs)
        }),
{
    lemma_initial(cx, runs);
}

/// Both hold of a function as it lies in the code section.
pub proof fn law_functions_are_recovered(cx: Context)
    ensures
        ({
            let bytes = function_bytes(cx);
            let runs = disassembled(
                spec_code_runs(bytes, cx.fn_addr, pool_words(bytes, cx.fn_addr)),
            );
            let insns = flattened(runs, runs.len() as int);
            let relocs = recovered(cx).relocs;
            &&& all_called_for(cx, insns, insns.len() as int, relocs)
            &&& branches_relocated(cx, insns, insns.len() as int, relocs)
            &&& pools_relocated(cx, insns, insns.len() as int, relocs)
        }),
{
    let bytes = function_bytes(cx);
    lemma_initial(
        cx,
        disassembled(spec_code_runs(bytes, cx.fn_addr, pool_words(bytes, cx.fn_addr))),
    );
}

proof fn lemma_initial(cx: Context, runs: Seq<Option<Seq<ArmInsnView>>>)
    ensures
        ({
            let insns = flattened(runs, runs.len() as int);
            recovery_holds(
                cx,
                insns,
                insns.len() as int,
                with_runs(initial_state(), cx, runs, 0),
            )
        }),
{
    let insns = flattened(runs, runs.len() as int);
    assert forall|r: u32, site: PoolLoad| !#[trigger] holds(cx, insns, 0, r, site) by {
        if holds(cx, insns, 0, r, site) {
            let j = choose|j: int| #[trigger] is_load(cx, insns, 0, j, r, site);
            assert(0 <= j < 0);
        }
    }
    assert(tracks(cx, insns, 0, initial_state().tracker));
    assert(recovery_holds(cx, insns, 0, initial_state()));
    lemma_runs(cx, runs, initial_state(), 0);
}

} // verus!
