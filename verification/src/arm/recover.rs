//! Relocations that 32-bit ARM code calls for.
//!
//! Position-independent code reaches what lies outside a function through a
//! literal pool:
//!
//! ```text
//!   ldr r3, [pc, #N]      ; r3 = pool word
//!   add r3, pc, r3        ; r3 = address of a symbol
//!
//!   ldr r3, [pc, #N]      ; r3 = pool word
//!   ldr r3, [pc, r3]      ; r3 = what a slot of the global offset table holds
//! ```
//!
//! so the relocation belongs to the pool word. Branches that leave the function
//! carry a relocation themselves. `movw` and `movt` load constants in such code
//! and are left alone.
use std::collections::HashMap;
use vstd::prelude::*;

use super::addend::RelocKind;
use super::decode::{
    arm_instructions, insn_views, ArmInsn, ArmInsnView, Disassembler, Operand,
    OperandKind, INS_ADD, INS_B, INS_BL, INS_BLX, INS_BX, INS_BXJ, INS_LDM, INS_LDR, INS_POP,
    REG_PC,
};
use super::runs::{
    code_runs, find_pool_words, pc_relative, pool_words, run_views, spec_code_runs, ARM_PC_BIAS,
};
use crate::bytes::{le_value, read_u32_le};
use crate::elf::symbols::{enclosing, DataSource, GlobalSymbols, ResolvedTarget};
use crate::ranges::range_contains;
use crate::text::{has_prefix, owned, starts_with, str_eq};

verus! {

broadcast use vstd::std_specs::hash::group_hash_axioms;

/// One relocation that recovery found.
#[derive(Debug)]
pub struct RecoveredReloc {
    /// Offset of the field from the start of the function.
    pub offset: u64,
    /// Address of the instruction that calls for the relocation.
    pub pc: u64,
    pub kind: RelocKind,
    /// Symbol that the relocation refers to.
    pub target: String,
    /// Addend to store in the field.
    pub addend: i64,
    pub target_addr: u64,
}

/// A recovered relocation, with its target as text.
pub ghost struct RelocView {
    pub offset: u64,
    pub pc: u64,
    pub kind: RelocKind,
    pub target: Seq<char>,
    pub addend: i64,
    pub target_addr: u64,
}

impl View for RecoveredReloc {
    type V = RelocView;

    open spec fn view(&self) -> RelocView {
        RelocView {
            offset: self.offset,
            pc: self.pc,
            kind: self.kind,
            target: self.target@,
            addend: self.addend,
            target_addr: self.target_addr,
        }
    }
}

/// Counts of what recovery met.
#[derive(Debug, Clone, Copy, PartialEq, Eq, Structural)]
pub struct RecoveryDiagnostics {
    pub instructions: usize,
    pub decode_failures: usize,
    pub bl_resolved: usize,
    pub bl_unresolved: usize,
    /// Loads from a literal pool.
    pub pool_loads: usize,
    /// Pool words that got a relocation.
    pub pool_relocated: usize,
    /// Pool words whose target no symbol covers.
    pub pool_unresolved: usize,
    /// Pool words outside the function, which cannot be patched with it.
    pub pool_out_of_range: usize,
    /// Slots that point inside a symbol, which the relocation cannot express.
    pub got_slot_interior: usize,
    /// References that disagree about a pool word.
    pub pool_conflicts: usize,
}

/// Nothing met yet.
pub open spec fn no_diagnostics() -> RecoveryDiagnostics {
    RecoveryDiagnostics {
        instructions: 0,
        decode_failures: 0,
        bl_resolved: 0,
        bl_unresolved: 0,
        pool_loads: 0,
        pool_relocated: 0,
        pool_unresolved: 0,
        pool_out_of_range: 0,
        got_slot_interior: 0,
        pool_conflicts: 0,
    }
}

impl Default for RecoveryDiagnostics {
    fn default() -> (d: Self)
        ensures
            d == no_diagnostics(),
    {
        RecoveryDiagnostics {
            instructions: 0,
            decode_failures: 0,
            bl_resolved: 0,
            bl_unresolved: 0,
            pool_loads: 0,
            pool_relocated: 0,
            pool_unresolved: 0,
            pool_out_of_range: 0,
            got_slot_interior: 0,
            pool_conflicts: 0,
        }
    }
}

/// What recovery returns.
pub struct RecoveryOutput {
    pub relocs: Vec<RecoveredReloc>,
    pub diag: RecoveryDiagnostics,
}

/// Relocations, with their targets as text.
pub open spec fn reloc_views(v: Seq<RecoveredReloc>) -> Seq<RelocView> {
    v.map_values(|r: RecoveredReloc| r@)
}

/// The code section, so that pool words outside a function can be read.
pub struct CodeImage<'a> {
    pub base: u64,
    pub bytes: &'a [u8],
}

/// The word at `addr` of the code of `bytes` at `base`.
pub open spec fn image_word(base: u64, bytes: Seq<u8>, addr: u64) -> Option<u32> {
    if base <= addr && addr - base + 4 <= bytes.len() {
        Some(le_value(bytes, addr - base, 4) as u32)
    } else {
        None
    }
}

impl<'a> CodeImage<'a> {
    /// Reads the word at `addr`.
    pub fn word(&self, addr: u64) -> (r: Option<u32>)
        ensures
            r == image_word(self.base, self.bytes@, addr),
    {
        if addr < self.base {
            return None;
        }
        let n: usize = self.bytes.len();
        let at: u64 = addr - self.base;
        if at > n as u64 || 4 > n - at as usize {
            return None;
        }
        Some(read_u32_le(self.bytes, at as usize))
    }
}

/// Why recovery failed.
#[derive(Debug, Clone, Copy, PartialEq, Eq, Structural)]
pub enum RecoverError {
    /// The function starts before the code image.
    BeforeImage,
    /// The function extends past the code image.
    PastImage,
    /// The disassembler could not be set up.
    NoDisassembler,
}

/// A load from a literal pool.
#[derive(Debug, Clone, Copy, PartialEq, Eq, Structural)]
pub struct PoolLoad {
    pub pool_addr: u64,
    pub value: u32,
}

/// What an instruction means to recovery.
#[derive(Debug, Clone, Copy, PartialEq, Eq, Structural)]
pub enum InsnClass {
    /// A branch to a known address, with or without a link.
    Branch(bool, u64),
    /// `ldr rD, [pc, #imm]`: the register, and the address of the pool word.
    PoolLoad(u32, u64),
    /// `add rD, pc, rN`.
    AddPc(u32, u32),
    /// `ldr rD, [pc, rN]`.
    PcIndexedLoad(u32, u32),
    /// Ends a block of code, or overwrites every register.
    Barrier,
    Other,
}

/// The register that an operand is.
pub open spec fn reg_of(op: Operand) -> Option<u32> {
    match op.kind {
        OperandKind::Reg(r) => Some(r),
        _ => None,
    }
}

fn register(op: &Operand) -> (r: Option<u32>)
    ensures
        r == reg_of(*op),
{
    match op.kind {
        OperandKind::Reg(r) => Some(r),
        _ => None,
    }
}

/// The first immediate among the operands from `i` on, as an address.
pub open spec fn first_imm_from(ops: Seq<Operand>, i: int) -> Option<u64>
    decreases ops.len() - i,
{
    if i < 0 || i >= ops.len() {
        None
    } else {
        match ops[i].kind {
            OperandKind::Imm(v) => Some(v as u32 as u64),
            _ => first_imm_from(ops, i + 1),
        }
    }
}

fn first_imm(ops: &Vec<Operand>) -> (r: Option<u64>)
    ensures
        r == first_imm_from(ops@, 0),
{
    let mut i: usize = 0;
    while i < ops.len()
        invariant
            i <= ops@.len(),
            first_imm_from(ops@, 0) == first_imm_from(ops@, i as int),
        decreases ops@.len() - i,
    {
        if let OperandKind::Imm(v) = ops[i].kind {
            return Some(v as u32 as u64);
        }
        i = i + 1;
    }
    None
}

/// True when one of the operands is the program counter.
pub open spec fn names_pc(ops: Seq<Operand>) -> bool {
    exists|i: int| 0 <= i < ops.len() && reg_of(#[trigger] ops[i]) == Some(REG_PC)
}

fn has_pc(ops: &Vec<Operand>) -> (b: bool)
    ensures
        b == names_pc(ops@),
{
    let mut i: usize = 0;
    while i < ops.len()
        invariant
            i <= ops@.len(),
            forall|k: int| 0 <= k < i ==> reg_of(#[trigger] ops@[k]) != Some(REG_PC),
        decreases ops@.len() - i,
    {
        if let Some(r) = register(&ops[i]) {
            if r == REG_PC {
                assert(reg_of(ops@[i as int]) == Some(REG_PC));
                return true;
            }
        }
        i = i + 1;
    }
    false
}

/// What a load of a register does: it reads a pool word, or memory at the program
/// counter and a register.
pub open spec fn load_insn(ops: Seq<Operand>, address: u64) -> Option<InsnClass> {
    if ops.len() == 2 && reg_of(ops[0]) is Some && !ops[1].shifted {
        match ops[1].kind {
            OperandKind::Mem(base, index, disp) => if base != REG_PC {
                None
            } else if index == 0 {
                Some(InsnClass::PoolLoad(reg_of(ops[0])->0, pc_relative(address, disp)))
            } else if !ops[1].subtracted {
                Some(InsnClass::PcIndexedLoad(reg_of(ops[0])->0, index))
            } else {
                None
            },
            _ => None,
        }
    } else {
        None
    }
}

/// What an instruction means. Conditional forms have the number of the
/// unconditional one, so the number decides and not the mnemonic.
pub open spec fn classified(ops: Seq<Operand>, id: u32, address: u64) -> InsnClass {
    if id == INS_BL || id == INS_BLX {
        match first_imm_from(ops, 0) {
            Some(target) => InsnClass::Branch(true, target),
            None => InsnClass::Barrier,
        }
    } else if id == INS_B {
        match first_imm_from(ops, 0) {
            Some(target) => InsnClass::Branch(false, target),
            None => InsnClass::Barrier,
        }
    } else if id == INS_BX || id == INS_BXJ {
        InsnClass::Barrier
    } else if id == INS_LDR && load_insn(ops, address) is Some {
        load_insn(ops, address)->0
    } else if id == INS_ADD && ops.len() == 3 && !ops[2].shifted && reg_of(ops[0]) is Some
        && reg_of(ops[1]) == Some(REG_PC) && reg_of(ops[2]) is Some {
        InsnClass::AddPc(reg_of(ops[0])->0, reg_of(ops[2])->0)
    } else if (id == INS_POP || id == INS_LDM) && names_pc(ops) {
        InsnClass::Barrier
    } else {
        InsnClass::Other
    }
}

fn classify_load(ops: &Vec<Operand>, address: u64) -> (r: Option<InsnClass>)
    ensures
        r == load_insn(ops@, address),
{
    if ops.len() == 2 && !ops[1].shifted {
        if let Some(rd) = register(&ops[0]) {
            if let OperandKind::Mem(base, index, disp) = ops[1].kind {
                if base == REG_PC {
                    if index == 0 {
                        return Some(
                            InsnClass::PoolLoad(
                                rd,
                                address.wrapping_add(ARM_PC_BIAS).wrapping_add(disp as i64 as u64),
                            ),
                        );
                    }
                    if !ops[1].subtracted {
                        return Some(InsnClass::PcIndexedLoad(rd, index));
                    }
                }
            }
        }
    }
    None
}

/// Tells what an instruction means.
pub fn classify(ops: &Vec<Operand>, id: u32, address: u64) -> (r: InsnClass)
    ensures
        r == classified(ops@, id, address),
{
    if id == INS_BL || id == INS_BLX {
        return match first_imm(ops) {
            Some(target) => InsnClass::Branch(true, target),
            None => InsnClass::Barrier,
        };
    }
    if id == INS_B {
        return match first_imm(ops) {
            Some(target) => InsnClass::Branch(false, target),
            None => InsnClass::Barrier,
        };
    }
    if id == INS_BX || id == INS_BXJ {
        return InsnClass::Barrier;
    }
    if id == INS_LDR {
        if let Some(insn) = classify_load(ops, address) {
            return insn;
        }
    }
    if id == INS_ADD && ops.len() == 3 && !ops[2].shifted {
        if let Some(rd) = register(&ops[0]) {
            if let Some(rn) = register(&ops[1]) {
                if let Some(rm) = register(&ops[2]) {
                    if rn == REG_PC {
                        return InsnClass::AddPc(rd, rm);
                    }
                }
            }
        }
    }
    if id == INS_POP || id == INS_LDM {
        if has_pc(ops) {
            return InsnClass::Barrier;
        }
    }
    InsnClass::Other
}

/// True when instructions of this mnemonic write no register.
pub open spec fn writes_none(m: Seq<char>) -> bool {
    has_prefix(m, "str"@) || has_prefix(m, "vstr"@) || has_prefix(m, "stm"@) || has_prefix(
        m,
        "push"@,
    ) || has_prefix(m, "cmp"@) || has_prefix(m, "cmn"@) || has_prefix(m, "tst"@) || has_prefix(
        m,
        "teq"@,
    )
}

/// True when instructions of this mnemonic write every register that they list.
pub open spec fn writes_all(m: Seq<char>) -> bool {
    has_prefix(m, "ldm"@) || has_prefix(m, "pop"@)
}

/// The registers among the first `n` operands.
pub open spec fn registers(ops: Seq<Operand>, n: int) -> Seq<u32>
    decreases n,
{
    if n <= 0 {
        Seq::empty()
    } else {
        let before = registers(ops, n - 1);
        match reg_of(ops[n - 1]) {
            Some(r) => before.push(r),
            None => before,
        }
    }
}

/// The registers that an instruction writes, as far as its mnemonic tells. Where
/// it does not, the first operand counts as written: what is forgotten merely
/// leaves a relocation out, what is kept too long would make a wrong one.
pub open spec fn written(m: Seq<char>, ops: Seq<Operand>) -> Seq<u32> {
    if writes_none(m) {
        Seq::empty()
    } else if writes_all(m) {
        registers(ops, ops.len() as int)
    } else {
        registers(
            ops,
            if ops.len() > 0 {
                1
            } else {
                0
            },
        )
    }
}

fn written_registers(m: &str, ops: &Vec<Operand>) -> (r: Vec<u32>)
    ensures
        r@ == written(m@, ops@),
{
    let mut r: Vec<u32> = Vec::new();
    if starts_with(m, "str") || starts_with(m, "vstr") || starts_with(m, "stm") || starts_with(
        m,
        "push",
    ) || starts_with(m, "cmp") || starts_with(m, "cmn") || starts_with(m, "tst") || starts_with(
        m,
        "teq",
    ) {
        return r;
    }
    let n: usize = if starts_with(m, "ldm") || starts_with(m, "pop") {
        ops.len()
    } else if ops.len() > 0 {
        1
    } else {
        0
    };
    let mut i: usize = 0;
    while i < n
        invariant
            i <= n <= ops@.len(),
            r@ == registers(ops@, i as int),
        decreases n - i,
    {
        if let Some(x) = register(&ops[i]) {
            r.push(x);
        }
        i = i + 1;
    }
    r
}

/// What was decided for a pool word.
#[derive(Debug)]
pub struct Claim {
    pub kind: RelocKind,
    pub symbol: String,
    pub addend: i64,
}

/// What was decided for a pool word, with the symbol as text.
pub ghost struct ClaimView {
    pub kind: RelocKind,
    pub symbol: Seq<char>,
    pub addend: i64,
}

impl View for Claim {
    type V = ClaimView;

    open spec fn view(&self) -> ClaimView {
        ClaimView { kind: self.kind, symbol: self.symbol@, addend: self.addend }
    }
}

/// Recovery under way: the pool word that each register holds, what was decided
/// for pool words, and what was found.
#[verifier::ext_equal]
pub ghost struct RecoveryState {
    pub tracker: Map<u32, PoolLoad>,
    pub claimed: Map<u64, ClaimView>,
    pub relocs: Seq<RelocView>,
    pub diag: RecoveryDiagnostics,
}

/// Nothing found yet.
pub open spec fn initial_state() -> RecoveryState {
    RecoveryState {
        tracker: Map::empty(),
        claimed: Map::empty(),
        relocs: Seq::empty(),
        diag: no_diagnostics(),
    }
}

/// A function and the code section around it.
pub ghost struct Context {
    pub symbols: GlobalSymbols,
    pub base: u64,
    pub bytes: Seq<u8>,
    pub fn_addr: u64,
    pub fn_size: u64,
}

impl RecoveryState {
    /// With no register known.
    pub open spec fn cleared(self) -> RecoveryState {
        RecoveryState { tracker: Map::empty(), ..self }
    }

    /// With the register `r` unknown.
    pub open spec fn without(self, r: u32) -> RecoveryState {
        RecoveryState { tracker: self.tracker.remove(r), ..self }
    }

    /// With the registers from `i` on unknown.
    pub open spec fn without_all(self, regs: Seq<u32>, i: int) -> RecoveryState
        decreases regs.len() - i,
    {
        if i < 0 || i >= regs.len() {
            self
        } else {
            self.without(regs[i]).without_all(regs, i + 1)
        }
    }

    /// With one more instruction that cannot be used.
    pub open spec fn failed(self) -> RecoveryState {
        RecoveryState {
            tracker: Map::empty(),
            diag: RecoveryDiagnostics {
                decode_failures: self.diag.decode_failures.wrapping_add(1),
                ..self.diag
            },
            ..self
        }
    }

    /// With the relocation of a branch to `target`. It holds the distance from
    /// the field, and the program counter reads eight bytes ahead, so a branch to
    /// the symbol itself has the addend -8.
    pub open spec fn with_branch(self, cx: Context, pc: u64, target: u64, kind: RelocKind) -> RecoveryState {
        match branch_target(cx.symbols, target) {
            Some((name, delta)) => RecoveryState {
                relocs: self.relocs.push(
                    RelocView {
                        offset: pc.wrapping_sub(cx.fn_addr),
                        pc,
                        kind,
                        target: name,
                        addend: (-8i64).wrapping_add(delta),
                        target_addr: target,
                    },
                ),
                diag: RecoveryDiagnostics {
                    bl_resolved: self.diag.bl_resolved.wrapping_add(1),
                    ..self.diag
                },
                ..self
            },
            None => RecoveryState {
                diag: RecoveryDiagnostics {
                    bl_unresolved: self.diag.bl_unresolved.wrapping_add(1),
                    ..self.diag
                },
                ..self
            },
        }
    }

    /// With the relocation of a pool word, unless it lies outside the function or
    /// was decided before.
    pub open spec fn with_pool(
        self,
        cx: Context,
        pool_addr: u64,
        pc: u64,
        claim: ClaimView,
        target_addr: u64,
    ) -> RecoveryState {
        if pool_addr < cx.fn_addr || pool_addr + 4 > cx.fn_addr + cx.fn_size {
            RecoveryState {
                diag: RecoveryDiagnostics {
                    pool_out_of_range: self.diag.pool_out_of_range.wrapping_add(1),
                    ..self.diag
                },
                ..self
            }
        } else if self.claimed.contains_key(pool_addr) {
            if self.claimed[pool_addr] == claim {
                self
            } else {
                RecoveryState {
                    diag: RecoveryDiagnostics {
                        pool_conflicts: self.diag.pool_conflicts.wrapping_add(1),
                        ..self.diag
                    },
                    ..self
                }
            }
        } else {
            RecoveryState {
                claimed: self.claimed.insert(pool_addr, claim),
                relocs: self.relocs.push(
                    RelocView {
                        offset: (pool_addr - cx.fn_addr) as u64,
                        pc,
                        kind: claim.kind,
                        target: claim.symbol,
                        addend: claim.addend,
                        target_addr,
                    },
                ),
                diag: RecoveryDiagnostics {
                    pool_relocated: self.diag.pool_relocated.wrapping_add(1),
                    ..self.diag
                },
                ..self
            }
        }
    }

    /// With one more pool word that no symbol covers.
    pub open spec fn unresolved(self) -> RecoveryState {
        RecoveryState {
            diag: RecoveryDiagnostics {
                pool_unresolved: self.diag.pool_unresolved.wrapping_add(1),
                ..self.diag
            },
            ..self
        }
    }

    /// With a pool word that holds the distance to `target`. The instruction at
    /// `pc` adds it to the program counter, and the linker takes it from the pool
    /// word, so the addend makes up for the distance between the two.
    pub open spec fn with_pcrel(self, cx: Context, site: PoolLoad, pc: u64, target: u64) -> RecoveryState {
        match cx.symbols.spec_resolve_data(target) {
            Some(res) => self.with_pool(
                cx,
                site.pool_addr,
                pc,
                ClaimView {
                    kind: RelocKind::Rel32,
                    symbol: res.symbol,
                    addend: pool_distance(site.pool_addr, pc).wrapping_add(res.addend),
                },
                target,
            ),
            None => self.unresolved(),
        }
    }

    /// With a pool word that holds the distance to the slot at `slot`.
    pub open spec fn with_got(self, cx: Context, site: PoolLoad, pc: u64, slot: u64) -> RecoveryState {
        match cx.symbols.spec_resolve_got_slot(slot) {
            Some(res) => {
                let st = if res.addend != 0 && res.source != DataSource::GotSlot {
                    RecoveryState {
                        diag: RecoveryDiagnostics {
                            got_slot_interior: self.diag.got_slot_interior.wrapping_add(1),
                            ..self.diag
                        },
                        ..self
                    }
                } else {
                    self
                };
                st.with_pool(
                    cx,
                    site.pool_addr,
                    pc,
                    ClaimView {
                        kind: RelocKind::GotPrel,
                        symbol: res.symbol,
                        addend: pool_distance(site.pool_addr, pc),
                    },
                    slot,
                )
            },
            None => self.unresolved(),
        }
    }
}

/// The distance from what the program counter reads at `pc` to the pool word.
pub open spec fn pool_distance(pool_addr: u64, pc: u64) -> i64 {
    (pool_addr as i64).wrapping_sub(pc.wrapping_add(ARM_PC_BIAS) as i64)
}

/// What a pool word refers to at `pc`.
pub open spec fn pool_target(site: PoolLoad, pc: u64) -> u64 {
    pc.wrapping_add(ARM_PC_BIAS).wrapping_add(site.value as i32 as i64 as u64)
}

/// The symbol that a branch goes to, and the distance from it.
pub open spec fn branch_target(symbols: GlobalSymbols, target: u64) -> Option<(Seq<char>, i64)> {
    if symbols.functions@.contains_key(target) {
        Some((symbols.functions@[target]@.export_name(), 0))
    } else if range_contains(symbols.plt_range, target) && symbols.plt@.contains_key(target) {
        Some((symbols.plt@[target]@, 0))
    } else {
        match enclosing(symbols.functions@, target) {
            Some(start) => Some(
                (symbols.functions@[start]@.export_name(), (target - start) as u64 as i64),
            ),
            None => None,
        }
    }
}

/// What an instruction of known meaning adds.
pub open spec fn with_meaning(
    st: RecoveryState,
    cx: Context,
    insn: InsnClass,
    m: Seq<char>,
    ops: Seq<Operand>,
    pc: u64,
) -> RecoveryState {
    match insn {
        InsnClass::Branch(link, target) => if link {
            st.with_branch(cx, pc, target, RelocKind::Call).cleared()
        } else if cx.fn_addr <= target < cx.fn_addr + cx.fn_size {
            st
        } else {
            st.with_branch(cx, pc, target, RelocKind::Jump24)
        },
        InsnClass::PoolLoad(rd, pool_addr) => {
            let counted = RecoveryState {
                diag: RecoveryDiagnostics {
                    pool_loads: st.diag.pool_loads.wrapping_add(1),
                    ..st.diag
                },
                ..st
            };
            match image_word(cx.base, cx.bytes, pool_addr) {
                Some(value) => RecoveryState {
                    tracker: counted.tracker.insert(rd, PoolLoad { pool_addr, value }),
                    ..counted
                },
                None => counted.without(rd),
            }
        },
        InsnClass::AddPc(rd, rn) => (if st.tracker.contains_key(rn) {
            let site = st.tracker[rn];
            st.with_pcrel(cx, site, pc, pool_target(site, pc))
        } else {
            st
        }).without(rd),
        InsnClass::PcIndexedLoad(rd, rn) => (if st.tracker.contains_key(rn) {
            let site = st.tracker[rn];
            let target = pool_target(site, pc);
            if range_contains(cx.symbols.got_range, target) {
                st.with_got(cx, site, pc, target)
            } else {
                st.with_pcrel(cx, site, pc, target)
            }
        } else {
            st
        }).without(rd),
        InsnClass::Other => st.without_all(written(m, ops), 0),
        InsnClass::Barrier => st.cleared(),
    }
}

/// What an instruction adds.
pub open spec fn with_insn(st: RecoveryState, cx: Context, insn: ArmInsnView) -> RecoveryState {
    let counted = RecoveryState {
        diag: RecoveryDiagnostics {
            instructions: st.diag.instructions.wrapping_add(1),
            ..st.diag
        },
        ..st
    };
    match (insn.mnemonic, insn.operands) {
        (Some(m), Some(ops)) => with_meaning(
            counted,
            cx,
            classified(ops, insn.id, insn.address),
            m,
            ops,
            insn.address,
        ),
        _ => counted.failed(),
    }
}

/// What the instructions from `i` on add.
pub open spec fn with_insns(st: RecoveryState, cx: Context, insns: Seq<ArmInsnView>, i: int) -> RecoveryState
    decreases insns.len() - i,
{
    if i < 0 || i >= insns.len() {
        st
    } else {
        with_insns(with_insn(st, cx, insns[i]), cx, insns, i + 1)
    }
}

/// What the runs from `i` on add, each given by its instructions, or by nothing
/// where it could not be disassembled.
pub open spec fn with_runs(
    st: RecoveryState,
    cx: Context,
    runs: Seq<Option<Seq<ArmInsnView>>>,
    i: int,
) -> RecoveryState
    decreases runs.len() - i,
{
    if i < 0 || i >= runs.len() {
        st
    } else {
        with_runs(
            match runs[i] {
                Some(insns) => with_insns(st, cx, insns, 0),
                None => RecoveryState {
                    diag: RecoveryDiagnostics {
                        decode_failures: st.diag.decode_failures.wrapping_add(1),
                        ..st.diag
                    },
                    ..st
                },
            },
            cx,
            runs,
            i + 1,
        )
    }
}

/// The instructions of each run.
pub open spec fn disassembled(runs: Seq<(u64, Seq<u8>)>) -> Seq<Option<Seq<ArmInsnView>>> {
    runs.map_values(|r: (u64, Seq<u8>)| arm_instructions(r.1, r.0))
}

/// Runs, with the mnemonics as text.
pub open spec fn decoded_views(runs: Seq<Option<Vec<ArmInsn>>>) -> Seq<Option<Seq<ArmInsnView>>> {
    runs.map_values(
        |r: Option<Vec<ArmInsn>>|
            match r {
                Some(v) => Some(insn_views(v@)),
                None => None,
            },
    )
}

/// The bytes of the function.
pub open spec fn function_bytes(cx: Context) -> Seq<u8> {
    cx.bytes.subrange(cx.fn_addr - cx.base, cx.fn_addr - cx.base + cx.fn_size)
}

/// What recovery finds in a function.
pub open spec fn recovered(cx: Context) -> RecoveryState {
    let bytes = function_bytes(cx);
    with_runs(
        initial_state(),
        cx,
        disassembled(spec_code_runs(bytes, cx.fn_addr, pool_words(bytes, cx.fn_addr))),
        0,
    )
}

/// Why recovery refuses a function, if it does.
pub open spec fn refused(cx: Context) -> Option<RecoverError> {
    if cx.fn_addr < cx.base {
        Some(RecoverError::BeforeImage)
    } else if cx.fn_addr - cx.base + cx.fn_size > cx.bytes.len() {
        Some(RecoverError::PastImage)
    } else {
        None
    }
}

/// True when the kind is one for pool words.
pub open spec fn is_pool_kind(kind: RelocKind) -> bool {
    kind == RelocKind::Rel32 || kind == RelocKind::GotPrel
}

/// Each relocation of a pool word lies in the function and belongs to a word that
/// was decided, and no two belong to one word.
pub open spec fn pool_words_once(st: RecoveryState, cx: Context) -> bool {
    &&& forall|i: int|
        0 <= i < st.relocs.len() && is_pool_kind((#[trigger] st.relocs[i]).kind)
            ==> st.relocs[i].offset + 4 <= cx.fn_size && cx.fn_addr + st.relocs[i].offset
            <= u64::MAX && st.claimed.contains_key((cx.fn_addr + st.relocs[i].offset) as u64)
    &&& forall|i: int, j: int|
        0 <= i < j < st.relocs.len() && is_pool_kind((#[trigger] st.relocs[i]).kind)
            && is_pool_kind((#[trigger] st.relocs[j]).kind) ==> st.relocs[i].offset
            != st.relocs[j].offset
}

proof fn lemma_pool(
    st: RecoveryState,
    cx: Context,
    pool_addr: u64,
    pc: u64,
    claim: ClaimView,
    target_addr: u64,
)
    requires
        pool_words_once(st, cx),
    ensures
        pool_words_once(st.with_pool(cx, pool_addr, pc, claim, target_addr), cx),
{
    let next = st.with_pool(cx, pool_addr, pc, claim, target_addr);
    if next.relocs.len() > st.relocs.len() {
        let n = st.relocs.len() as int;
        assert forall|i: int, j: int|
            0 <= i < j < next.relocs.len() && is_pool_kind((#[trigger] next.relocs[i]).kind)
                && is_pool_kind((#[trigger] next.relocs[j]).kind) implies next.relocs[i].offset
            != next.relocs[j].offset by {
            assert(next.relocs[i] == st.relocs[i]);
            if j < n {
                assert(next.relocs[j] == st.relocs[j]);
            }
        }
    }
}

proof fn lemma_without_all(st: RecoveryState, regs: Seq<u32>, i: int)
    ensures
        st.without_all(regs, i).relocs == st.relocs,
        st.without_all(regs, i).claimed == st.claimed,
    decreases regs.len() - i,
{
    if 0 <= i < regs.len() {
        lemma_without_all(st.without(regs[i]), regs, i + 1);
    }
}

proof fn lemma_insn(st: RecoveryState, cx: Context, insn: ArmInsnView)
    requires
        pool_words_once(st, cx),
    ensures
        pool_words_once(with_insn(st, cx, insn), cx),
{
    let counted = RecoveryState {
        diag: RecoveryDiagnostics {
            instructions: st.diag.instructions.wrapping_add(1),
            ..st.diag
        },
        ..st
    };
    match (insn.mnemonic, insn.operands) {
        (Some(m), Some(ops)) => {
            match classified(ops, insn.id, insn.address) {
                InsnClass::AddPc(rd, rn) => {
                    if counted.tracker.contains_key(rn) {
                        lemma_pcrel(counted, cx, counted.tracker[rn], insn.address);
                    }
                },
                InsnClass::PcIndexedLoad(rd, rn) => {
                    if counted.tracker.contains_key(rn) {
                        lemma_pcrel(counted, cx, counted.tracker[rn], insn.address);
                        lemma_got(counted, cx, counted.tracker[rn], insn.address);
                    }
                },
                InsnClass::Other => {
                    lemma_without_all(counted, written(m, ops), 0);
                },
                _ => {},
            }
        },
        _ => {},
    }
}

proof fn lemma_pcrel(st: RecoveryState, cx: Context, site: PoolLoad, pc: u64)
    requires
        pool_words_once(st, cx),
    ensures
        pool_words_once(st.with_pcrel(cx, site, pc, pool_target(site, pc)), cx),
{
    let target = pool_target(site, pc);
    match cx.symbols.spec_resolve_data(target) {
        Some(res) => {
            lemma_pool(
                st,
                cx,
                site.pool_addr,
                pc,
                ClaimView {
                    kind: RelocKind::Rel32,
                    symbol: res.symbol,
                    addend: pool_distance(site.pool_addr, pc).wrapping_add(res.addend),
                },
                target,
            );
        },
        None => {},
    }
}

proof fn lemma_got(st: RecoveryState, cx: Context, site: PoolLoad, pc: u64)
    requires
        pool_words_once(st, cx),
    ensures
        pool_words_once(st.with_got(cx, site, pc, pool_target(site, pc)), cx),
{
    let target = pool_target(site, pc);
    match cx.symbols.spec_resolve_got_slot(target) {
        Some(res) => {
            let claim = ClaimView {
                kind: RelocKind::GotPrel,
                symbol: res.symbol,
                addend: pool_distance(site.pool_addr, pc),
            };
            let counted = RecoveryState {
                diag: RecoveryDiagnostics {
                    got_slot_interior: st.diag.got_slot_interior.wrapping_add(1),
                    ..st.diag
                },
                ..st
            };
            lemma_pool(st, cx, site.pool_addr, pc, claim, target);
            lemma_pool(counted, cx, site.pool_addr, pc, claim, target);
        },
        None => {},
    }
}

proof fn lemma_insns(st: RecoveryState, cx: Context, insns: Seq<ArmInsnView>, i: int)
    requires
        pool_words_once(st, cx),
    ensures
        pool_words_once(with_insns(st, cx, insns, i), cx),
    decreases insns.len() - i,
{
    if 0 <= i < insns.len() {
        lemma_insn(st, cx, insns[i]);
        lemma_insns(with_insn(st, cx, insns[i]), cx, insns, i + 1);
    }
}

proof fn lemma_runs(
    st: RecoveryState,
    cx: Context,
    runs: Seq<Option<Seq<ArmInsnView>>>,
    i: int,
)
    requires
        pool_words_once(st, cx),
    ensures
        pool_words_once(with_runs(st, cx, runs, i), cx),
    decreases runs.len() - i,
{
    if 0 <= i < runs.len() {
        let next = match runs[i] {
            Some(insns) => with_insns(st, cx, insns, 0),
            None => RecoveryState {
                diag: RecoveryDiagnostics {
                    decode_failures: st.diag.decode_failures.wrapping_add(1),
                    ..st.diag
                },
                ..st
            },
        };
        if let Some(insns) = runs[i] {
            lemma_insns(st, cx, insns, 0);
        }
        lemma_runs(next, cx, runs, i + 1);
    }
}

/// Recovery gives a pool word at most one relocation, and only words that lie in
/// the function.
pub proof fn law_pool_words_are_relocated_once(cx: Context)
    ensures
        pool_words_once(recovered(cx), cx),
{
    let bytes = function_bytes(cx);
    lemma_runs(
        initial_state(),
        cx,
        disassembled(spec_code_runs(bytes, cx.fn_addr, pool_words(bytes, cx.fn_addr))),
        0,
    );
}

/// Claims by pool word, with the symbols as text.
pub open spec fn claim_map(m: Map<u64, Claim>) -> Map<u64, ClaimView> {
    m.map_values(|c: Claim| c@)
}

struct Recovery {
    tracker: HashMap<u32, PoolLoad>,
    claimed: HashMap<u64, Claim>,
    relocs: Vec<RecoveredReloc>,
    diag: RecoveryDiagnostics,
}

impl View for Recovery {
    type V = RecoveryState;

    closed spec fn view(&self) -> RecoveryState {
        RecoveryState {
            tracker: self.tracker@,
            claimed: claim_map(self.claimed@),
            relocs: reloc_views(self.relocs@),
            diag: self.diag,
        }
    }
}

struct Site<'a> {
    symbols: &'a GlobalSymbols,
    image: &'a CodeImage<'a>,
    fn_addr: u64,
    fn_size: u64,
}

impl<'a> View for Site<'a> {
    type V = Context;

    closed spec fn view(&self) -> Context {
        Context {
            symbols: *self.symbols,
            base: self.image.base,
            bytes: self.image.bytes@,
            fn_addr: self.fn_addr,
            fn_size: self.fn_size,
        }
    }
}

impl Recovery {
    fn push(&mut self, r: RecoveredReloc)
        ensures
            final(self)@ == (RecoveryState { relocs: old(self)@.relocs.push(r@), ..old(self)@ }),
    {
        let ghost before = self.relocs@;
        let ghost view = r@;
        self.relocs.push(r);
        assert(reloc_views(self.relocs@) =~= reloc_views(before).push(view));
    }

    fn handle_branch(&mut self, cx: &Site<'_>, pc: u64, target: u64, kind: RelocKind)
        ensures
            final(self)@ == old(self)@.with_branch(cx@, pc, target, kind),
    {
        let (name, delta): (String, i64) = match cx.symbols.resolve(target) {
            ResolvedTarget::Internal(f) => (owned(f.export_name()), 0),
            ResolvedTarget::ExternalPlt(name) => (owned(name), 0),
            ResolvedTarget::Unknown => match cx.symbols.resolve_into(target) {
                Some((f, offset)) => (owned(f.export_name()), offset as i64),
                None => {
                    self.diag.bl_unresolved = self.diag.bl_unresolved.wrapping_add(1);
                    return ;
                },
            },
        };
        let addend: i64 = (-8i64).wrapping_add(delta);
        self.push(
            RecoveredReloc {
                offset: pc.wrapping_sub(cx.fn_addr),
                pc,
                kind,
                target: name,
                addend,
                target_addr: target,
            },
        );
        self.diag.bl_resolved = self.diag.bl_resolved.wrapping_add(1);
    }

    fn push_pool_reloc(
        &mut self,
        cx: &Site<'_>,
        pool_addr: u64,
        pc: u64,
        claim: Claim,
        target_addr: u64,
    )
        ensures
            final(self)@ == old(self)@.with_pool(cx@, pool_addr, pc, claim@, target_addr),
    {
        if pool_addr < cx.fn_addr || cx.fn_size < 4 || pool_addr - cx.fn_addr > cx.fn_size - 4 {
            self.diag.pool_out_of_range = self.diag.pool_out_of_range.wrapping_add(1);
            return ;
        }
        if let Some(prev) = self.claimed.get(&pool_addr) {
            if prev.kind != claim.kind || !str_eq(prev.symbol.as_str(), claim.symbol.as_str())
                || prev.addend != claim.addend {
                self.diag.pool_conflicts = self.diag.pool_conflicts.wrapping_add(1);
            }
            return ;
        }
        let r = RecoveredReloc {
            offset: pool_addr - cx.fn_addr,
            pc,
            kind: claim.kind,
            target: claim.symbol.clone(),
            addend: claim.addend,
            target_addr,
        };
        let ghost before = self.claimed@;
        let ghost view = claim@;
        self.claimed.insert(pool_addr, claim);
        assert(claim_map(self.claimed@) =~= claim_map(before).insert(pool_addr, view));
        self.push(r);
        self.diag.pool_relocated = self.diag.pool_relocated.wrapping_add(1);
    }

    fn emit_pcrel(&mut self, cx: &Site<'_>, site: PoolLoad, pc: u64, target: u64)
        ensures
            final(self)@ == old(self)@.with_pcrel(cx@, site, pc, target),
    {
        match cx.symbols.resolve_data(target) {
            Some(res) => {
                let distance: i64 = (site.pool_addr as i64).wrapping_sub(
                    pc.wrapping_add(ARM_PC_BIAS) as i64,
                );
                let claim = Claim {
                    kind: RelocKind::Rel32,
                    symbol: res.symbol,
                    addend: distance.wrapping_add(res.addend),
                };
                self.push_pool_reloc(cx, site.pool_addr, pc, claim, target);
            },
            None => {
                self.diag.pool_unresolved = self.diag.pool_unresolved.wrapping_add(1);
            },
        }
    }

    fn emit_got(&mut self, cx: &Site<'_>, site: PoolLoad, pc: u64, slot: u64)
        ensures
            final(self)@ == old(self)@.with_got(cx@, site, pc, slot),
    {
        match cx.symbols.resolve_got_slot(slot) {
            Some(res) => {
                if res.addend != 0 && res.source != DataSource::GotSlot {
                    self.diag.got_slot_interior = self.diag.got_slot_interior.wrapping_add(1);
                }
                let distance: i64 = (site.pool_addr as i64).wrapping_sub(
                    pc.wrapping_add(ARM_PC_BIAS) as i64,
                );
                let claim = Claim {
                    kind: RelocKind::GotPrel,
                    symbol: res.symbol,
                    addend: distance,
                };
                self.push_pool_reloc(cx, site.pool_addr, pc, claim, slot);
            },
            None => {
                self.diag.pool_unresolved = self.diag.pool_unresolved.wrapping_add(1);
            },
        }
    }

    fn held(&self, r: u32) -> (t: Option<PoolLoad>)
        ensures
            t == (if self@.tracker.contains_key(r) {
                Some(self@.tracker[r])
            } else {
                None
            }),
    {
        match self.tracker.get(&r) {
            Some(p) => Some(*p),
            None => None,
        }
    }

    fn forget(&mut self, regs: &Vec<u32>)
        ensures
            final(self)@ == old(self)@.without_all(regs@, 0),
    {
        let mut i: usize = 0;
        while i < regs.len()
            invariant
                i <= regs@.len(),
                old(self)@.without_all(regs@, 0) == self@.without_all(regs@, i as int),
            decreases regs@.len() - i,
        {
            self.tracker.remove(&regs[i]);
            i = i + 1;
        }
    }

    fn apply(
        &mut self,
        cx: &Site<'_>,
        insn: InsnClass,
        mnemonic: &str,
        ops: &Vec<Operand>,
        pc: u64,
    )
        ensures
            final(self)@ == with_meaning(old(self)@, cx@, insn, mnemonic@, ops@, pc),
    {
        match insn {
            InsnClass::Branch(link, target) => {
                let inside = target >= cx.fn_addr && target - cx.fn_addr < cx.fn_size;
                if link {
                    self.handle_branch(cx, pc, target, RelocKind::Call);
                    self.tracker.clear();
                } else if !inside {
                    self.handle_branch(cx, pc, target, RelocKind::Jump24);
                }
            },
            InsnClass::PoolLoad(rd, pool_addr) => {
                self.diag.pool_loads = self.diag.pool_loads.wrapping_add(1);
                match cx.image.word(pool_addr) {
                    Some(value) => {
                        self.tracker.insert(rd, PoolLoad { pool_addr, value });
                    },
                    None => {
                        self.tracker.remove(&rd);
                    },
                }
            },
            InsnClass::AddPc(rd, rn) => {
                if let Some(site) = self.held(rn) {
                    let target: u64 = pc.wrapping_add(ARM_PC_BIAS).wrapping_add(
                        site.value as i32 as i64 as u64,
                    );
                    self.emit_pcrel(cx, site, pc, target);
                }
                self.tracker.remove(&rd);
            },
            InsnClass::PcIndexedLoad(rd, rn) => {
                if let Some(site) = self.held(rn) {
                    let target: u64 = pc.wrapping_add(ARM_PC_BIAS).wrapping_add(
                        site.value as i32 as i64 as u64,
                    );
                    if cx.symbols.in_got(target) {
                        self.emit_got(cx, site, pc, target);
                    } else {
                        self.emit_pcrel(cx, site, pc, target);
                    }
                }
                self.tracker.remove(&rd);
            },
            InsnClass::Other => {
                let regs = written_registers(mnemonic, ops);
                self.forget(&regs);
            },
            InsnClass::Barrier => {
                self.tracker.clear();
            },
        }
    }

    fn add_insns(&mut self, cx: &Site<'_>, insns: &Vec<ArmInsn>)
        ensures
            final(self)@ == with_insns(old(self)@, cx@, insn_views(insns@), 0),
    {
        let ghost views = insn_views(insns@);
        let mut i: usize = 0;
        while i < insns.len()
            invariant
                i <= insns@.len(),
                views == insn_views(insns@),
                with_insns(old(self)@, cx@, views, 0) == with_insns(self@, cx@, views, i as int),
            decreases insns@.len() - i,
        {
            let insn = &insns[i];
            assert(views[i as int] == insn@);
            let ghost before = self@;
            self.diag.instructions = self.diag.instructions.wrapping_add(1);
            let mut known: bool = false;
            if let Some(m) = &insn.mnemonic {
                if let Some(ops) = &insn.operands {
                    known = true;
                    let meaning = classify(ops, insn.id, insn.address);
                    self.apply(cx, meaning, m.as_str(), ops, insn.address);
                }
            }
            if !known {
                self.diag.decode_failures = self.diag.decode_failures.wrapping_add(1);
                self.tracker.clear();
            }
            assert(self@ =~= with_insn(before, cx@, insn@));
            i = i + 1;
        }
    }
}

/// Finds the relocations that the instructions of a function call for. They come
/// in runs; one that could not be disassembled is missing.
pub fn recover_decoded(
    fn_addr: u64,
    fn_size: u64,
    image: &CodeImage<'_>,
    symbols: &GlobalSymbols,
    runs: &Vec<Option<Vec<ArmInsn>>>,
) -> (out: RecoveryOutput)
    ensures
        ({
            let cx = Context {
                symbols: *symbols,
                base: image.base,
                bytes: image.bytes@,
                fn_addr,
                fn_size,
            };
            let st = with_runs(initial_state(), cx, decoded_views(runs@), 0);
            reloc_views(out.relocs@) == st.relocs && out.diag == st.diag
        }),
{
    let cx = Site { symbols, image, fn_addr, fn_size };
    let ghost views = decoded_views(runs@);
    let mut st = Recovery {
        tracker: HashMap::new(),
        claimed: HashMap::new(),
        relocs: Vec::new(),
        diag: RecoveryDiagnostics::default(),
    };
    assert(st@ =~= initial_state());
    let mut i: usize = 0;
    while i < runs.len()
        invariant
            i <= runs@.len(),
            views == decoded_views(runs@),
            with_runs(initial_state(), cx@, views, 0) == with_runs(st@, cx@, views, i as int),
        decreases runs@.len() - i,
    {
        match &runs[i] {
            Some(insns) => {
                assert(views[i as int] == Some(insn_views(insns@)));
                st.add_insns(&cx, insns);
            },
            None => {
                assert(views[i as int] is None);
                st.diag.decode_failures = st.diag.decode_failures.wrapping_add(1);
            },
        }
        i = i + 1;
    }
    RecoveryOutput { relocs: st.relocs, diag: st.diag }
}

/// Disassembles the function of `fn_size` bytes at `fn_addr` with `d` and finds the
/// relocations that it calls for.
pub fn recover_with(
    d: &Disassembler,
    fn_addr: u64,
    fn_size: u64,
    image: &CodeImage<'_>,
    symbols: &GlobalSymbols,
) -> (r: Result<RecoveryOutput, RecoverError>)
    ensures
        ({
            let cx = Context {
                symbols: *symbols,
                base: image.base,
                bytes: image.bytes@,
                fn_addr,
                fn_size,
            };
            match r {
                Ok(out) => refused(cx) is None && reloc_views(out.relocs@) == recovered(cx).relocs
                    && out.diag == recovered(cx).diag,
                Err(e) => refused(cx) == Some(e),
            }
        }),
{
    if fn_addr < image.base {
        return Err(RecoverError::BeforeImage);
    }
    let n: usize = image.bytes.len();
    let start: u64 = fn_addr - image.base;
    if start > n as u64 || fn_size > n as u64 - start {
        return Err(RecoverError::PastImage);
    }
    let end: usize = start as usize + fn_size as usize;
    let bytes: &[u8] = vstd::slice::slice_subrange(image.bytes, start as usize, end);
    let pools = find_pool_words(d, bytes, fn_addr);
    let runs = code_runs(bytes, fn_addr, &pools);
    let ghost goal = disassembled(run_views(runs@));
    let mut decoded: Vec<Option<Vec<ArmInsn>>> = Vec::new();
    let mut i: usize = 0;
    while i < runs.len()
        invariant
            i <= runs@.len(),
            goal == disassembled(run_views(runs@)),
            fn_addr >= image.base,
            fn_addr - image.base + fn_size <= image.bytes@.len(),
            decoded_views(decoded@) == goal.subrange(0, i as int),
        decreases runs@.len() - i,
    {
        assert(run_views(runs@)[i as int] == (runs@[i as int].0, runs@[i as int].1@));
        let insns = d.disassemble(runs[i].1, runs[i].0);
        let ghost before = decoded@;
        let ghost next = goal[i as int];
        assert(match insns {
            Some(v) => next == Some(insn_views(v@)),
            None => next is None,
        });
        decoded.push(insns);
        assert(decoded_views(decoded@) =~= decoded_views(before).push(next));
        assert(goal.subrange(0, i + 1) =~= goal.subrange(0, i as int).push(next));
        i = i + 1;
    }
    assert(goal.subrange(0, goal.len() as int) =~= goal);
    Ok(recover_decoded(fn_addr, fn_size, image, symbols, &decoded))
}

/// Sets up a disassembler and does what [`recover_with`] does.
pub fn recover(fn_addr: u64, fn_size: u64, image: &CodeImage<'_>, symbols: &GlobalSymbols) -> (r:
    Result<RecoveryOutput, RecoverError>)
    ensures
        ({
            let cx = Context {
                symbols: *symbols,
                base: image.base,
                bytes: image.bytes@,
                fn_addr,
                fn_size,
            };
            match r {
                Ok(out) => refused(cx) is None && reloc_views(out.relocs@) == recovered(cx).relocs
                    && out.diag == recovered(cx).diag,
                Err(e) => refused(cx) == Some(e) || e == RecoverError::NoDisassembler,
            }
        }),
{
    match Disassembler::new() {
        Ok(d) => recover_with(&d, fn_addr, fn_size, image, symbols),
        Err(_) => Err(RecoverError::NoDisassembler),
    }
}

} // verus!
