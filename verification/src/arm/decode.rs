//! Instructions of 32-bit ARM code.
use capstone::arch::arm::{ArchMode, ArmOperandType, ArmShift};
use capstone::arch::{BuildsCapstone, DetailsArchInsn};
use capstone::{Capstone, Instructions};
use vstd::prelude::*;

use crate::text::text_of;

verus! {

/// Register number of the program counter.
pub const REG_PC: u32 = 11;

/// Instruction numbers.
pub const INS_ADD: u32 = 2;

pub const INS_B: u32 = 11;

pub const INS_BL: u32 = 16;

pub const INS_BLX: u32 = 17;

pub const INS_BX: u32 = 19;

pub const INS_BXJ: u32 = 20;

pub const INS_LDM: u32 = 79;

pub const INS_LDR: u32 = 83;

pub const INS_POP: u32 = 127;

/// What an operand is.
#[derive(Debug, Clone, Copy, PartialEq, Eq, Structural)]
pub enum OperandKind {
    Reg(u32),
    Imm(i32),
    /// Memory at a register, an index register (0 for none) and a displacement.
    Mem(u32, u32, i32),
    Other,
}

/// An operand of an instruction.
#[derive(Debug, Clone, Copy, PartialEq, Eq, Structural)]
pub struct Operand {
    pub kind: OperandKind,
    /// The operand is shifted.
    pub shifted: bool,
    /// The operand is subtracted.
    pub subtracted: bool,
}

/// An instruction.
#[derive(Debug)]
pub struct ArmInsn {
    pub address: u64,
    /// Instruction number; conditional forms have that of the unconditional one.
    pub id: u32,
    pub mnemonic: Option<String>,
    pub operands: Option<Vec<Operand>>,
}

/// An instruction, with its mnemonic as text.
pub ghost struct ArmInsnView {
    pub address: u64,
    pub id: u32,
    pub mnemonic: Option<Seq<char>>,
    pub operands: Option<Seq<Operand>>,
}

impl View for ArmInsn {
    type V = ArmInsnView;

    open spec fn view(&self) -> ArmInsnView {
        ArmInsnView {
            address: self.address,
            id: self.id,
            mnemonic: text_of(self.mnemonic),
            operands: match self.operands {
                Some(v) => Some(v@),
                None => None,
            },
        }
    }
}

/// Instructions, with their mnemonics as text.
pub open spec fn insn_views(v: Seq<ArmInsn>) -> Seq<ArmInsnView> {
    v.map_values(|i: ArmInsn| i@)
}

/// The outside disassembler.
#[verifier::external_type_specification]
#[verifier::external_body]
pub struct ExCapstone(Capstone);

/// Instructions as the outside disassembler holds them.
#[verifier::external_type_specification]
#[verifier::external_body]
pub struct ExInstructions<'a>(Instructions<'a>);

/// One of the instructions that the outside disassembler holds: `Instructions`
/// dereferences to a slice of these.
#[verifier::external_type_specification]
#[verifier::external_body]
pub struct ExInsn<'a>(capstone::Insn<'a>);

/// The disassembler could not be set up.
#[derive(Debug, Clone, Copy, PartialEq, Eq, Structural)]
pub struct NoDisassembler;

/// What the outside disassembler is set to.
pub ghost struct Settings {
    /// It decodes ARM code, in ARM mode.
    pub arm: bool,
    pub big_endian: bool,
    /// It keeps the details of instructions, their operands among them.
    pub details: bool,
    /// It goes on behind what is not valid.
    pub skips_data: bool,
}

/// The settings for the code of images: little-endian ARM code, with details, up to
/// what is not valid.
pub open spec fn arm_settings() -> Settings {
    Settings { arm: true, big_endian: false, details: true, skips_data: false }
}

/// A disassembler of ARM code that gives the operands of instructions.
pub struct Disassembler {
    cs: Capstone,
}

/// What `cs` is set to.
pub uninterp spec fn capstone_settings(cs: Capstone) -> Settings;

/// The instructions of `code` at the address `addr` under [`arm_settings`], up to the
/// first that is not valid; nothing where disassembly fails.
pub uninterp spec fn arm_instructions(code: Seq<u8>, addr: u64) -> Option<Seq<ArmInsnView>>;

/// The instructions that disassembly left in `v`.
pub uninterp spec fn held(v: Instructions) -> Seq<ArmInsnView>;

/// `Capstone::new` and the builder behind it, for ARM mode with details: where it
/// gives a disassembler, that is set so, in the default byte order, and does not skip
/// data. It says nothing of when that fails.
#[verifier::external_body]
fn open_capstone() -> (r: Option<Capstone>)
    ensures
        r is Some ==> capstone_settings(r->0) == arm_settings(),
{
    Capstone::new().arm().mode(ArchMode::Arm).detail(true).build().ok()
}

/// `Capstone::disasm_all`: what it decodes under [`arm_settings`] depends on the code
/// and the address alone.
#[verifier::external_body]
fn disasm_all<'a>(cs: &'a Capstone, code: &[u8], addr: u64) -> (r: Option<Instructions<'a>>)
    requires
        capstone_settings(*cs) == arm_settings(),
    ensures
        match r {
            Some(v) => arm_instructions(code@, addr) == Some(held(v)),
            None => arm_instructions(code@, addr) is None,
        },
{
    cs.disasm_all(code, addr).ok()
}

/// The length of the slice that `Instructions` dereferences to is the number of
/// instructions that it holds.
#[verifier::external_body]
fn insn_count(v: &Instructions<'_>) -> (n: usize)
    ensures
        n == held(*v).len(),
{
    v.len()
}

/// `Insn::address`, `Insn::id` and `Insn::mnemonic` of instruction `i` give what
/// was decoded. The operands are left out.
#[verifier::external_body]
fn insn_at(v: &Instructions<'_>, i: usize) -> (r: ArmInsn)
    requires
        i < held(*v).len(),
    ensures
        r@ == (ArmInsnView { operands: None, ..held(*v)[i as int] }),
{
    let insn = &v[i];
    let mnemonic = insn.mnemonic().map(String::from);
    ArmInsn { address: insn.address(), id: insn.id().0, mnemonic, operands: None }
}

/// `Capstone::insn_detail` gives the operands of instruction `i`, as they were
/// decoded, or nothing where the instruction has no details.
#[verifier::external_body]
fn operands_at(cs: &Capstone, v: &Instructions<'_>, i: usize) -> (r: Option<Vec<Operand>>)
    requires
        capstone_settings(*cs) == arm_settings(),
        i < held(*v).len(),
    ensures
        match r {
            Some(ops) => held(*v)[i as int].operands == Some(ops@),
            None => held(*v)[i as int].operands is None,
        },
{
    let detail = cs.insn_detail(&v[i]).ok()?;
    let arch = detail.arch_detail();
    let kind = |t| match t {
        ArmOperandType::Reg(r) => OperandKind::Reg(r.0.into()),
        ArmOperandType::Imm(v) => OperandKind::Imm(v),
        ArmOperandType::Mem(m) => OperandKind::Mem(m.base().0.into(), m.index().0.into(), m.disp()),
        _ => OperandKind::Other,
    };
    let shifted = |s| !matches!(s, ArmShift::Invalid);
    Some(arch.arm()?.operands().map(|o| Operand { kind: kind(o.op_type), shifted: shifted(o.shift), subtracted: o.subtracted }).collect())
}

impl Disassembler {
    /// What the disassembler is set to.
    pub closed spec fn settings(&self) -> Settings {
        capstone_settings(self.cs)
    }

    /// Every disassembler is set to decode ARM code with its operands.
    #[verifier::type_invariant]
    spec fn inv(&self) -> bool {
        self.settings() == arm_settings()
    }

    /// Sets a disassembler up.
    pub fn new() -> (r: Result<Disassembler, NoDisassembler>)
        ensures
            r matches Ok(d) ==> d.settings() == arm_settings(),
    {
        match open_capstone() {
            Some(cs) => Ok(Disassembler { cs }),
            None => Err(NoDisassembler),
        }
    }

    /// Disassembles `code` at the address `addr`, up to the first instruction that
    /// is not valid.
    pub fn disassemble(&self, code: &[u8], addr: u64) -> (r: Option<Vec<ArmInsn>>)
        ensures
            match r {
                Some(v) => arm_instructions(code@, addr) == Some(insn_views(v@)),
                None => arm_instructions(code@, addr) is None,
            },
    {
        proof {
            use_type_invariant(self);
        }
        let all = match disasm_all(&self.cs, code, addr) {
            Some(v) => v,
            None => return None,
        };
        let n = insn_count(&all);
        let ghost goal = held(all);
        let mut out: Vec<ArmInsn> = Vec::new();
        let mut i: usize = 0;
        while i < n
            invariant
                i <= n,
                capstone_settings(self.cs) == arm_settings(),
                n == goal.len(),
                goal == held(all),
                insn_views(out@) == goal.subrange(0, i as int),
            decreases n - i,
        {
            let mut insn = insn_at(&all, i);
            insn.operands = operands_at(&self.cs, &all, i);
            let ghost before = out@;
            let ghost next = goal[i as int];
            assert(insn@ == next);
            out.push(insn);
            assert(insn_views(out@) =~= insn_views(before).push(next));
            assert(goal.subrange(0, i + 1) =~= goal.subrange(0, i as int).push(next));
            i = i + 1;
        }
        assert(goal.subrange(0, goal.len() as int) =~= goal);
        Some(out)
    }
}

} // verus!
