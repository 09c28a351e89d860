//! One x86 instruction at a time, as the `iced-x86` decoder reads it.
use iced_x86::FlowControl::{Call, ConditionalBranch, UnconditionalBranch};
use iced_x86::OpKind::Memory;
use iced_x86::{Decoder, DecoderOptions, Register};
use vstd::prelude::*;

verus! {

/// How an instruction hands control on.
#[derive(Debug, Clone, Copy, PartialEq, Eq, Structural)]
pub enum Flow {
    Call,
    UnconditionalBranch,
    ConditionalBranch,
    /// Falls through, or goes where no operand of the instruction says.
    Other,
}

/// What recovery reads of a decoded instruction.
#[derive(Debug, Clone, Copy)]
pub struct DecodedInsn {
    pub invalid: bool,
    /// Length in bytes.
    pub len: usize,
    pub flow: Flow,
    /// Target of a near branch in 32-bit code.
    pub near_branch32: u32,
    /// Target of a near branch in 64-bit code.
    pub near_branch64: u64,
    pub op_count: u32,
    /// Which operands, counted from the first, are in memory.
    pub memory: (bool, bool, bool, bool, bool),
    /// The memory operand is relative to the next instruction's address.
    pub rip_base: bool,
    /// Address of the memory operand, where it is relative to the next
    /// instruction's address.
    pub displacement: u64,
    /// Where in the instruction the displacement of the memory operand begins.
    pub displacement_offset: usize,
}

impl DecodedInsn {
    /// True when operand `i` is in memory.
    pub open spec fn spec_is_memory(self, i: int) -> bool {
        ||| i == 0 && self.memory.0
        ||| i == 1 && self.memory.1
        ||| i == 2 && self.memory.2
        ||| i == 3 && self.memory.3
        ||| i == 4 && self.memory.4
    }

    /// True when some operand is in memory at an offset from the next
    /// instruction.
    pub open spec fn spec_refers_rip(self) -> bool {
        self.rip_base && exists|i: int|
            0 <= i < self.op_count && #[trigger] self.spec_is_memory(i)
    }

    /// Tests whether operand `i` is in memory.
    pub fn is_memory(&self, i: u32) -> (b: bool)
        ensures
            b == self.spec_is_memory(i as int),
    {
        (i == 0 && self.memory.0) || (i == 1 && self.memory.1) || (i == 2 && self.memory.2) || (i
            == 3 && self.memory.3) || (i == 4 && self.memory.4)
    }

    /// Tests whether some operand is in memory at an offset from the next
    /// instruction.
    pub fn refers_rip(&self) -> (b: bool)
        ensures
            b == self.spec_refers_rip(),
    {
        let mut i: u32 = 0;
        while i < self.op_count
            invariant
                i <= self.op_count,
                forall|j: int| 0 <= j < i ==> !(self.rip_base && #[trigger] self.spec_is_memory(j)),
            decreases self.op_count - i,
        {
            if self.is_memory(i) && self.rip_base {
                assert(self.spec_is_memory(i as int));
                return true;
            }
            i = i + 1;
        }
        false
    }

    /// True when the instruction branches to an operand that says where.
    pub open spec fn spec_branches(self) -> bool {
        self.flow != Flow::Other
    }

    /// Tests whether the instruction branches to an operand that says where.
    pub fn branches(&self) -> (b: bool)
        ensures
            b == self.spec_branches(),
    {
        !matches!(self.flow, Flow::Other)
    }
}

/// The first instruction of `code` at the address `ip`, in the mode of this many bits.
pub uninterp spec fn first_instruction(bits: u32, code: Seq<u8>, ip: u64) -> DecodedInsn;

/// `Decoder::with_ip` and `Decoder::decode` read the first instruction of the
/// code, and `Decoder::get_constant_offsets` tells where its displacement is; nothing
/// but the code, the mode and the address decide what it is. It takes at least one
/// byte and no more than there are, also where it is not valid. An operand relative to
/// the next instruction has a displacement of four bytes in the instruction.
#[verifier::external_body]
pub(crate) fn decode(bits: u32, code: &[u8], ip: u64) -> (insn: DecodedInsn)
    requires
        bits == 32 || bits == 64,
        code@.len() > 0,
    ensures
        insn == first_instruction(bits, code@, ip),
        1 <= insn.len <= code@.len(),
        !insn.invalid && insn.rip_base ==> insn.displacement_offset + 4 <= insn.len,
{
    let mut d = Decoder::with_ip(bits, code, ip, DecoderOptions::NONE);
    let i = d.decode();
    let flow = match i.flow_control() {
        Call => Flow::Call,
        UnconditionalBranch => Flow::UnconditionalBranch,
        ConditionalBranch => Flow::ConditionalBranch,
        _ => Flow::Other,
    };
    let m = |n| i.op_kind(n) == Memory;
    DecodedInsn { invalid: i.is_invalid(), len: i.len(), flow, near_branch32: i.near_branch32(), near_branch64: i.near_branch64(), op_count: i.op_count(), memory: (m(0), m(1), m(2), m(3), m(4)), rip_base: i.memory_base() == Register::RIP, displacement: i.memory_displacement64(), displacement_offset: d.get_constant_offsets(&i).displacement_offset() }
}

} // verus!
