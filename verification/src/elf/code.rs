//! The code of a function and the relocations for it, ready to be put into an
//! object.
//!
//! AArch64 relocations carry their addends, and the code stays as it is. ARM
//! relocations have theirs in the relocated field, so the addends are written
//! into a copy of the code.
use vstd::prelude::*;

use super::reltypes::{
    R_AARCH64_ADD_ABS_LO12_NC, R_AARCH64_ADR_GOT_PAGE, R_AARCH64_ADR_PREL_PG_HI21,
    R_AARCH64_CALL26, R_AARCH64_JUMP26, R_AARCH64_LD64_GOT_LO12_NC, R_AARCH64_LDST128_ABS_LO12_NC,
    R_AARCH64_LDST16_ABS_LO12_NC, R_AARCH64_LDST32_ABS_LO12_NC, R_AARCH64_LDST64_ABS_LO12_NC,
    R_AARCH64_LDST8_ABS_LO12_NC,
};
use super::symbols::GlobalSymbols;
use crate::arch::Arch;
use crate::arm::addend::{apply_addend, elf_reloc_type, encoded, spec_reloc_type};
use crate::arm::decode::Disassembler;
use crate::arm::recover::{
    recover_with, recovered, refused, reloc_views, CodeImage, Context, RecoveredReloc,
    RelocView,
};
use crate::bytes::{copy_range, le_bytes, le_value, patched};
use crate::objfile::WriteError;

verus! {

/// What went into an object.
#[derive(Debug, Clone, Copy, PartialEq, Eq, Structural)]
pub struct EmitStats {
    pub text_bytes: u64,
    pub local_symbols: usize,
    pub undef_symbols: usize,
    pub relocations: usize,
    pub unresolved_calls: usize,
    pub decode_failures: usize,
    pub instructions: usize,
    pub ranges_coalesced: usize,
    /// AArch64: page addresses seen, used, and left unresolved.
    pub adrp_seen: usize,
    pub adrp_paired: usize,
    pub adrp_unresolved: usize,
    /// ARM: loads from literal pools, pool words relocated and unresolved, and
    /// those outside the function.
    pub pool_loads: usize,
    pub pool_relocated: usize,
    pub pool_unresolved: usize,
    pub pool_out_of_range: usize,
    pub dwarf_bytes: u64,
}

/// Nothing emitted yet.
pub open spec fn no_stats() -> EmitStats {
    EmitStats {
        text_bytes: 0,
        local_symbols: 0,
        undef_symbols: 0,
        relocations: 0,
        unresolved_calls: 0,
        decode_failures: 0,
        instructions: 0,
        ranges_coalesced: 0,
        adrp_seen: 0,
        adrp_paired: 0,
        adrp_unresolved: 0,
        pool_loads: 0,
        pool_relocated: 0,
        pool_unresolved: 0,
        pool_out_of_range: 0,
        dwarf_bytes: 0,
    }
}

impl Default for EmitStats {
    fn default() -> (s: Self)
        ensures
            s == no_stats(),
    {
        EmitStats {
            text_bytes: 0,
            local_symbols: 0,
            undef_symbols: 0,
            relocations: 0,
            unresolved_calls: 0,
            decode_failures: 0,
            instructions: 0,
            ranges_coalesced: 0,
            adrp_seen: 0,
            adrp_paired: 0,
            adrp_unresolved: 0,
            pool_loads: 0,
            pool_relocated: 0,
            pool_unresolved: 0,
            pool_out_of_range: 0,
            dwarf_bytes: 0,
        }
    }
}

/// The sums of both, but for the number of ranges, which stays.
pub open spec fn accumulated(a: EmitStats, b: EmitStats) -> EmitStats {
    EmitStats {
        text_bytes: a.text_bytes.wrapping_add(b.text_bytes),
        local_symbols: a.local_symbols.wrapping_add(b.local_symbols),
        undef_symbols: a.undef_symbols.wrapping_add(b.undef_symbols),
        relocations: a.relocations.wrapping_add(b.relocations),
        unresolved_calls: a.unresolved_calls.wrapping_add(b.unresolved_calls),
        decode_failures: a.decode_failures.wrapping_add(b.decode_failures),
        instructions: a.instructions.wrapping_add(b.instructions),
        ranges_coalesced: a.ranges_coalesced,
        adrp_seen: a.adrp_seen.wrapping_add(b.adrp_seen),
        adrp_paired: a.adrp_paired.wrapping_add(b.adrp_paired),
        adrp_unresolved: a.adrp_unresolved.wrapping_add(b.adrp_unresolved),
        pool_loads: a.pool_loads.wrapping_add(b.pool_loads),
        pool_relocated: a.pool_relocated.wrapping_add(b.pool_relocated),
        pool_unresolved: a.pool_unresolved.wrapping_add(b.pool_unresolved),
        pool_out_of_range: a.pool_out_of_range.wrapping_add(b.pool_out_of_range),
        dwarf_bytes: a.dwarf_bytes.wrapping_add(b.dwarf_bytes),
    }
}

impl EmitStats {
    /// Adds the counts of another object.
    pub fn accumulate(&mut self, other: &EmitStats)
        ensures
            *final(self) == accumulated(*old(self), *other),
    {
        self.text_bytes = self.text_bytes.wrapping_add(other.text_bytes);
        self.local_symbols = self.local_symbols.wrapping_add(other.local_symbols);
        self.undef_symbols = self.undef_symbols.wrapping_add(other.undef_symbols);
        self.relocations = self.relocations.wrapping_add(other.relocations);
        self.unresolved_calls = self.unresolved_calls.wrapping_add(other.unresolved_calls);
        self.decode_failures = self.decode_failures.wrapping_add(other.decode_failures);
        self.instructions = self.instructions.wrapping_add(other.instructions);
        self.adrp_seen = self.adrp_seen.wrapping_add(other.adrp_seen);
        self.adrp_paired = self.adrp_paired.wrapping_add(other.adrp_paired);
        self.adrp_unresolved = self.adrp_unresolved.wrapping_add(other.adrp_unresolved);
        self.pool_loads = self.pool_loads.wrapping_add(other.pool_loads);
        self.pool_relocated = self.pool_relocated.wrapping_add(other.pool_relocated);
        self.pool_unresolved = self.pool_unresolved.wrapping_add(other.pool_unresolved);
        self.pool_out_of_range = self.pool_out_of_range.wrapping_add(other.pool_out_of_range);
        self.dwarf_bytes = self.dwarf_bytes.wrapping_add(other.dwarf_bytes);
    }
}

/// Why something did not become an object.
#[derive(Debug, Clone, Copy, PartialEq, Eq, Structural)]
pub enum EmitError {
    /// The unit has no functions.
    NoFunctions,
    /// The image has no `.text` section.
    NoText,
    /// The bytes of a section do not lie in the file.
    UnreadableSection,
    /// The unit has no function inside `.text`.
    NoLiveFunctions,
    /// A function extends past the bytes of `.text`.
    Truncated,
    /// There is no recovery for an AArch64 function.
    NoRecovery,
    /// The disassembler could not be set up.
    NoDisassembler,
    /// A relocated field lies outside the bytes it belongs to.
    FieldOutOfRange,
    /// The object cannot be laid out as a file.
    Write(WriteError),
}

/// Kinds of AArch64 relocations.
#[derive(Debug, Clone, Copy, PartialEq, Eq, Structural)]
pub enum Aarch64RelocKind {
    Call26,
    Jump26,
    AdrPrelPgHi21,
    AddAbsLo12Nc,
    Ldst8AbsLo12Nc,
    Ldst16AbsLo12Nc,
    Ldst32AbsLo12Nc,
    Ldst64AbsLo12Nc,
    Ldst128AbsLo12Nc,
    AdrGotPage,
    Ld64GotLo12Nc,
}

/// The relocation type of a kind.
pub open spec fn spec_aarch64_type(kind: Aarch64RelocKind) -> u32 {
    match kind {
        Aarch64RelocKind::Call26 => R_AARCH64_CALL26,
        Aarch64RelocKind::Jump26 => R_AARCH64_JUMP26,
        Aarch64RelocKind::AdrPrelPgHi21 => R_AARCH64_ADR_PREL_PG_HI21,
        Aarch64RelocKind::AddAbsLo12Nc => R_AARCH64_ADD_ABS_LO12_NC,
        Aarch64RelocKind::Ldst8AbsLo12Nc => R_AARCH64_LDST8_ABS_LO12_NC,
        Aarch64RelocKind::Ldst16AbsLo12Nc => R_AARCH64_LDST16_ABS_LO12_NC,
        Aarch64RelocKind::Ldst32AbsLo12Nc => R_AARCH64_LDST32_ABS_LO12_NC,
        Aarch64RelocKind::Ldst64AbsLo12Nc => R_AARCH64_LDST64_ABS_LO12_NC,
        Aarch64RelocKind::Ldst128AbsLo12Nc => R_AARCH64_LDST128_ABS_LO12_NC,
        Aarch64RelocKind::AdrGotPage => R_AARCH64_ADR_GOT_PAGE,
        Aarch64RelocKind::Ld64GotLo12Nc => R_AARCH64_LD64_GOT_LO12_NC,
    }
}

/// The relocation type of a kind.
pub fn aarch64_reloc_type(kind: Aarch64RelocKind) -> (t: u32)
    ensures
        t == spec_aarch64_type(kind),
{
    match kind {
        Aarch64RelocKind::Call26 => R_AARCH64_CALL26,
        Aarch64RelocKind::Jump26 => R_AARCH64_JUMP26,
        Aarch64RelocKind::AdrPrelPgHi21 => R_AARCH64_ADR_PREL_PG_HI21,
        Aarch64RelocKind::AddAbsLo12Nc => R_AARCH64_ADD_ABS_LO12_NC,
        Aarch64RelocKind::Ldst8AbsLo12Nc => R_AARCH64_LDST8_ABS_LO12_NC,
        Aarch64RelocKind::Ldst16AbsLo12Nc => R_AARCH64_LDST16_ABS_LO12_NC,
        Aarch64RelocKind::Ldst32AbsLo12Nc => R_AARCH64_LDST32_ABS_LO12_NC,
        Aarch64RelocKind::Ldst64AbsLo12Nc => R_AARCH64_LDST64_ABS_LO12_NC,
        Aarch64RelocKind::Ldst128AbsLo12Nc => R_AARCH64_LDST128_ABS_LO12_NC,
        Aarch64RelocKind::AdrGotPage => R_AARCH64_ADR_GOT_PAGE,
        Aarch64RelocKind::Ld64GotLo12Nc => R_AARCH64_LD64_GOT_LO12_NC,
    }
}

/// A relocation that AArch64 code calls for.
#[derive(Debug)]
pub struct Aarch64Reloc {
    pub offset: u64,
    pub kind: Aarch64RelocKind,
    pub target: String,
    pub addend: i64,
}

/// What recovery found in an AArch64 function.
#[derive(Debug)]
pub struct Aarch64Recovery {
    pub relocs: Vec<Aarch64Reloc>,
    pub instructions: usize,
    pub decode_failures: usize,
    pub bl_unresolved: usize,
    pub adrp_seen: usize,
    pub adrp_paired: usize,
    pub adrp_unresolved: usize,
}

/// A relocation, whatever the architecture.
#[derive(Debug)]
pub struct PreparedReloc {
    /// Offset from the start of the function.
    pub offset: u64,
    pub r_type: u32,
    pub target: String,
    /// Addend of the relocation; 0 where it is in the field.
    pub addend: i64,
}

/// A relocation, with its target as text.
pub ghost struct PreparedView {
    pub offset: u64,
    pub r_type: u32,
    pub target: Seq<char>,
    pub addend: i64,
}

impl View for PreparedReloc {
    type V = PreparedView;

    open spec fn view(&self) -> PreparedView {
        PreparedView {
            offset: self.offset,
            r_type: self.r_type,
            target: self.target@,
            addend: self.addend,
        }
    }
}

/// Relocations, with their targets as text.
pub open spec fn prepared_views(v: Seq<PreparedReloc>) -> Seq<PreparedView> {
    v.map_values(|r: PreparedReloc| r@)
}

/// The code of a function as it goes into an object.
#[derive(Debug)]
pub struct FunctionCode {
    pub bytes: Vec<u8>,
    pub relocs: Vec<PreparedReloc>,
    pub stats: EmitStats,
}

/// The code of a function as it goes into an object, with names as text.
#[verifier::ext_equal]
pub ghost struct CodeModel {
    pub bytes: Seq<u8>,
    pub relocs: Seq<PreparedView>,
    pub stats: EmitStats,
}

impl View for FunctionCode {
    type V = CodeModel;

    open spec fn view(&self) -> CodeModel {
        CodeModel {
            bytes: self.bytes@,
            relocs: prepared_views(self.relocs@),
            stats: self.stats,
        }
    }
}

/// The code with the addends of the relocations from `i` on in their fields, or
/// nothing where a field lies outside the code.
pub open spec fn with_addends(code: Seq<u8>, relocs: Seq<RelocView>, i: int) -> Option<Seq<u8>>
    decreases relocs.len() - i,
{
    if i < 0 || i >= relocs.len() {
        Some(code)
    } else {
        let r = relocs[i];
        if r.offset + 4 > code.len() {
            None
        } else {
            with_addends(
                patched(
                    code,
                    r.offset as int,
                    le_bytes(
                        encoded(r.kind, le_value(code, r.offset as int, 4) as u32, r.addend) as int,
                        4,
                    ),
                ),
                relocs,
                i + 1,
            )
        }
    }
}

/// An ARM relocation as it goes into an object: its addend is in the field.
pub open spec fn arm_reloc(r: RelocView) -> PreparedView {
    PreparedView {
        offset: r.offset,
        r_type: spec_reloc_type(r.kind),
        target: r.target,
        addend: 0,
    }
}

/// The code of an ARM function as it goes into an object.
pub open spec fn arm_code(cx: Context) -> Option<CodeModel> {
    let st = recovered(cx);
    match with_addends(crate::arm::recover::function_bytes(cx), st.relocs, 0) {
        None => None,
        Some(bytes) => Some(
            CodeModel {
                bytes,
                relocs: st.relocs.map_values(|r: RelocView| arm_reloc(r)),
                stats: EmitStats {
                    instructions: st.diag.instructions,
                    decode_failures: st.diag.decode_failures,
                    unresolved_calls: st.diag.bl_unresolved,
                    pool_loads: st.diag.pool_loads,
                    pool_relocated: st.diag.pool_relocated,
                    pool_unresolved: st.diag.pool_unresolved,
                    pool_out_of_range: st.diag.pool_out_of_range,
                    ..no_stats()
                },
            },
        ),
    }
}

/// An AArch64 relocation as it goes into an object.
pub open spec fn aarch64_reloc(r: Aarch64Reloc) -> PreparedView {
    PreparedView {
        offset: r.offset,
        r_type: spec_aarch64_type(r.kind),
        target: r.target@,
        addend: r.addend,
    }
}

/// The code of an AArch64 function as it goes into an object.
pub open spec fn aarch64_code(bytes: Seq<u8>, rec: Aarch64Recovery) -> CodeModel {
    CodeModel {
        bytes,
        relocs: rec.relocs@.map_values(|r: Aarch64Reloc| aarch64_reloc(r)),
        stats: EmitStats {
            instructions: rec.instructions,
            decode_failures: rec.decode_failures,
            unresolved_calls: rec.bl_unresolved,
            adrp_seen: rec.adrp_seen,
            adrp_paired: rec.adrp_paired,
            adrp_unresolved: rec.adrp_unresolved,
            ..no_stats()
        },
    }
}

/// The code of a function as it goes into an object, or why it does not go. ARM
/// code goes only where there is a disassembler.
pub open spec fn prepared(
    arch: Arch,
    cx: Context,
    disassembles: bool,
    rec: Option<Aarch64Recovery>,
) -> Result<CodeModel, EmitError> {
    if cx.fn_addr < cx.base || cx.fn_addr - cx.base + cx.fn_size > cx.bytes.len() {
        Err(EmitError::Truncated)
    } else {
        match arch {
            Arch::Aarch64 => match rec {
                Some(r) => Ok(aarch64_code(crate::arm::recover::function_bytes(cx), r)),
                None => Err(EmitError::NoRecovery),
            },
            Arch::Arm => if !disassembles {
                Err(EmitError::NoDisassembler)
            } else {
                match arm_code(cx) {
                    Some(code) => Ok(code),
                    None => Err(EmitError::FieldOutOfRange),
                }
            },
        }
    }
}

fn apply_addends(code: &mut Vec<u8>, relocs: &Vec<RecoveredReloc>) -> (ok: bool)
    ensures
        ok == (with_addends(old(code)@, reloc_views(relocs@), 0) is Some),
        ok ==> with_addends(old(code)@, reloc_views(relocs@), 0) == Some(final(code)@),
{
    let ghost views = reloc_views(relocs@);
    let mut i: usize = 0;
    while i < relocs.len()
        invariant
            i <= relocs@.len(),
            views == reloc_views(relocs@),
            with_addends(old(code)@, views, 0) == with_addends(code@, views, i as int),
        decreases relocs@.len() - i,
    {
        let r = &relocs[i];
        assert(views[i as int] == r@);
        let n: usize = code.len();
        if r.offset > n as u64 {
            return false;
        }
        match apply_addend(r.kind, code, r.offset as usize, r.addend) {
            Ok(_) => {},
            Err(_) => return false,
        }
        i = i + 1;
    }
    true
}

fn arm_relocs(relocs: &Vec<RecoveredReloc>) -> (out: Vec<PreparedReloc>)
    ensures
        prepared_views(out@) == reloc_views(relocs@).map_values(|r: RelocView| arm_reloc(r)),
{
    let ghost goal = reloc_views(relocs@).map_values(|r: RelocView| arm_reloc(r));
    let mut out: Vec<PreparedReloc> = Vec::new();
    let mut i: usize = 0;
    while i < relocs.len()
        invariant
            i <= relocs@.len(),
            goal == reloc_views(relocs@).map_values(|r: RelocView| arm_reloc(r)),
            out@.len() == i,
            forall|k: int| 0 <= k < i ==> (#[trigger] out@[k])@ == goal[k],
        decreases relocs@.len() - i,
    {
        let r = &relocs[i];
        assert(reloc_views(relocs@)[i as int] == r@);
        out.push(
            PreparedReloc {
                offset: r.offset,
                r_type: elf_reloc_type(r.kind),
                target: r.target.clone(),
                addend: 0,
            },
        );
        i = i + 1;
    }
    assert(prepared_views(out@) =~= goal);
    out
}

fn aarch64_relocs(rec: &Aarch64Recovery) -> (out: Vec<PreparedReloc>)
    ensures
        prepared_views(out@) == rec.relocs@.map_values(|r: Aarch64Reloc| aarch64_reloc(r)),
{
    let ghost goal = rec.relocs@.map_values(|r: Aarch64Reloc| aarch64_reloc(r));
    let mut out: Vec<PreparedReloc> = Vec::new();
    let mut i: usize = 0;
    while i < rec.relocs.len()
        invariant
            i <= rec.relocs@.len(),
            goal == rec.relocs@.map_values(|r: Aarch64Reloc| aarch64_reloc(r)),
            out@.len() == i,
            forall|k: int| 0 <= k < i ==> (#[trigger] out@[k])@ == goal[k],
        decreases rec.relocs@.len() - i,
    {
        let r = &rec.relocs[i];
        out.push(
            PreparedReloc {
                offset: r.offset,
                r_type: aarch64_reloc_type(r.kind),
                target: r.target.clone(),
                addend: r.addend,
            },
        );
        i = i + 1;
    }
    assert(prepared_views(out@) =~= goal);
    out
}

/// Prepares the code of a function: finds its relocations with `d` on ARM, or takes
/// those that were found for AArch64, and makes the bytes that go into an object.
pub fn prepare_function(
    arch: Arch,
    fn_addr: u64,
    fn_size: u64,
    text_base: u64,
    text_data: &[u8],
    globals: &GlobalSymbols,
    d: Option<&Disassembler>,
    rec: Option<&Aarch64Recovery>,
) -> (r: Result<FunctionCode, EmitError>)
    ensures
        ({
            let goal = prepared(
                arch,
                (Context {
                    symbols: *globals,
                    base: text_base,
                    bytes: text_data@,
                    fn_addr,
                    fn_size,
                }),
                d is Some,
                match rec {
                    Some(r) => Some(*r),
                    None => None,
                },
            );
            match r {
                Ok(code) => goal == Ok::<CodeModel, EmitError>(code@),
                Err(e) => goal == Err::<CodeModel, EmitError>(e),
            }
        }),
{
    let ghost cx = Context {
        symbols: *globals,
        base: text_base,
        bytes: text_data@,
        fn_addr,
        fn_size,
    };
    let n: usize = text_data.len();
    if fn_addr < text_base {
        return Err(EmitError::Truncated);
    }
    let start: u64 = fn_addr - text_base;
    if start > n as u64 || fn_size > n as u64 - start {
        return Err(EmitError::Truncated);
    }
    let mut bytes = copy_range(text_data, start as usize, start as usize + fn_size as usize);
    assert(bytes@ == crate::arm::recover::function_bytes(cx));
    match arch {
        Arch::Aarch64 => {
            let rec = match rec {
                Some(r) => r,
                None => return Err(EmitError::NoRecovery),
            };
            let mut stats = EmitStats::default();
            stats.instructions = rec.instructions;
            stats.decode_failures = rec.decode_failures;
            stats.unresolved_calls = rec.bl_unresolved;
            stats.adrp_seen = rec.adrp_seen;
            stats.adrp_paired = rec.adrp_paired;
            stats.adrp_unresolved = rec.adrp_unresolved;
            let code = FunctionCode { bytes, relocs: aarch64_relocs(rec), stats };
            assert(code@ =~= aarch64_code(crate::arm::recover::function_bytes(cx), *rec));
            Ok(code)
        },
        Arch::Arm => {
            let d = match d {
                Some(d) => d,
                None => return Err(EmitError::NoDisassembler),
            };
            let image = CodeImage { base: text_base, bytes: text_data };
            assert(refused(cx) is None);
            let out = match recover_with(d, fn_addr, fn_size, &image, globals) {
                Ok(o) => o,
                Err(_) => return Err(EmitError::Truncated),
            };
            if !apply_addends(&mut bytes, &out.relocs) {
                return Err(EmitError::FieldOutOfRange);
            }
            let mut stats = EmitStats::default();
            stats.instructions = out.diag.instructions;
            stats.decode_failures = out.diag.decode_failures;
            stats.unresolved_calls = out.diag.bl_unresolved;
            stats.pool_loads = out.diag.pool_loads;
            stats.pool_relocated = out.diag.pool_relocated;
            stats.pool_unresolved = out.diag.pool_unresolved;
            stats.pool_out_of_range = out.diag.pool_out_of_range;
            let code = FunctionCode { bytes, relocs: arm_relocs(&out.relocs), stats };
            assert(code@ =~= arm_code(cx)->0);
            Ok(code)
        },
    }
}

} // verus!
