//! Literal pools in ARM code: which words of a function are data, and the runs
//! of instructions between them.
use std::collections::BTreeSet;
use vstd::prelude::*;

use super::decode::{
    arm_instructions, insn_views, ArmInsn, ArmInsnView, Disassembler, Operand,
    OperandKind, REG_PC,
};
use crate::text::{has_prefix, starts_with};

verus! {

broadcast use vstd::std_specs::btree::group_btree_axioms;

/// Distance from an instruction to what the program counter reads there.
pub const ARM_PC_BIAS: u64 = 8;

/// True when a pool word begins at offset `at`.
pub open spec fn pool_at(base: u64, pools: Set<u64>, at: int) -> bool {
    pools.contains(base.wrapping_add(at as u64))
}

/// With the bounds of the runs from `cursor` on. The run under way began at
/// `run_start`.
pub open spec fn with_bounds(
    out: Seq<(int, int)>,
    len: int,
    base: u64,
    pools: Set<u64>,
    run_start: int,
    cursor: int,
) -> Seq<(int, int)>
    decreases len - cursor,
{
    if cursor < 0 || cursor + 4 > len {
        if run_start < len {
            out.push((run_start, len))
        } else {
            out
        }
    } else if pool_at(base, pools, cursor) {
        with_bounds(
            if cursor > run_start {
                out.push((run_start, cursor))
            } else {
                out
            },
            len,
            base,
            pools,
            cursor + 4,
            cursor + 4,
        )
    } else {
        with_bounds(out, len, base, pools, run_start, cursor + 4)
    }
}

/// Bounds of the runs of bytes that hold no pool word.
pub open spec fn run_bounds(len: int, base: u64, pools: Set<u64>) -> Seq<(int, int)> {
    with_bounds(Seq::empty(), len, base, pools, 0, 0)
}

/// The runs of bytes that hold no pool word, each with its address.
pub open spec fn spec_code_runs(bytes: Seq<u8>, base: u64, pools: Set<u64>) -> Seq<(u64, Seq<u8>)> {
    run_bounds(bytes.len() as int, base, pools).map_values(
        |b: (int, int)| (base.wrapping_add(b.0 as u64), bytes.subrange(b.0, b.1)),
    )
}

/// Runs, with their bytes.
pub open spec fn run_views(runs: Seq<(u64, &[u8])>) -> Seq<(u64, Seq<u8>)> {
    runs.map_values(|r: (u64, &[u8])| (r.0, r.1@))
}

/// True when the byte at `i` belongs to a pool word.
pub open spec fn in_pool_word(len: int, base: u64, pools: Set<u64>, i: int) -> bool {
    i / 4 * 4 + 4 <= len && pool_at(base, pools, i / 4 * 4)
}

/// True when one of the runs holds the byte at `i`.
pub open spec fn in_a_run(runs: Seq<(int, int)>, i: int) -> bool {
    exists|k: int| 0 <= k < runs.len() && (#[trigger] runs[k]).0 <= i < runs[k].1
}

proof fn lemma_bounds(
    out: Seq<(int, int)>,
    len: int,
    base: u64,
    pools: Set<u64>,
    run_start: int,
    cursor: int,
    i: int,
)
    requires
        0 <= run_start <= cursor,
        cursor % 4 == 0,
        run_start % 4 == 0,
        0 <= i < len,
        cursor <= len,
        i < cursor ==> ((in_a_run(out, i) || run_start <= i) <==> !in_pool_word(
            len,
            base,
            pools,
            i,
        )),
        i >= run_start ==> !in_a_run(out, i),
    ensures
        in_a_run(with_bounds(out, len, base, pools, run_start, cursor), i) <==> !in_pool_word(
            len,
            base,
            pools,
            i,
        ),
    decreases len - cursor,
{
    if cursor + 4 > len {
        let r = with_bounds(out, len, base, pools, run_start, cursor);
        if run_start < len {
            assert(r[out.len() as int] == (run_start, len));
            lemma_pushed(out, (run_start, len), i);
        }
    } else if pool_at(base, pools, cursor) {
        let next = if cursor > run_start {
            out.push((run_start, cursor))
        } else {
            out
        };
        if cursor > run_start {
            lemma_pushed(out, (run_start, cursor), i);
        }
        if cursor <= i < cursor + 4 {
            assert(i / 4 * 4 == cursor);
        }
        lemma_bounds(next, len, base, pools, cursor + 4, cursor + 4, i);
    } else {
        if cursor <= i < cursor + 4 {
            assert(i / 4 * 4 == cursor);
        }
        lemma_bounds(out, len, base, pools, run_start, cursor + 4, i);
    }
}

proof fn lemma_pushed(runs: Seq<(int, int)>, r: (int, int), i: int)
    ensures
        in_a_run(runs.push(r), i) <==> in_a_run(runs, i) || r.0 <= i < r.1,
{
    let all = runs.push(r);
    if in_a_run(runs, i) {
        let k = choose|k: int| 0 <= k < runs.len() && (#[trigger] runs[k]).0 <= i < runs[k].1;
        assert(all[k].0 <= i < all[k].1);
    }
    if r.0 <= i < r.1 {
        assert(all[runs.len() as int].0 <= i);
    }
    if in_a_run(all, i) {
        let k = choose|k: int| 0 <= k < all.len() && (#[trigger] all[k]).0 <= i < all[k].1;
        if k < runs.len() {
            assert(runs[k].0 <= i < runs[k].1);
        }
    }
}

/// The runs hold every byte that belongs to no pool word, and no other.
pub proof fn law_runs_leave_out_pool_words(len: int, base: u64, pools: Set<u64>, i: int)
    requires
        0 <= i < len,
    ensures
        in_a_run(run_bounds(len, base, pools), i) <==> !in_pool_word(len, base, pools, i),
{
    lemma_bounds(Seq::empty(), len, base, pools, 0, 0, i);
}

/// Splits code into the runs that hold no pool word.
pub fn code_runs<'a>(bytes: &'a [u8], base: u64, pools: &BTreeSet<u64>) -> (r: Vec<(u64, &'a [u8])>)
    ensures
        run_views(r@) == spec_code_runs(bytes@, base, pools@),
{
    let n: usize = bytes.len();
    let mut runs: Vec<(u64, &'a [u8])> = Vec::new();
    let ghost mut bounds: Seq<(int, int)> = Seq::empty();
    let ghost f = |b: (int, int)| (base.wrapping_add(b.0 as u64), bytes@.subrange(b.0, b.1));
    assert(run_views(runs@) =~= bounds.map_values(f));
    let mut run_start: usize = 0;
    let mut cursor: usize = 0;
    while n - cursor >= 4
        invariant
            n == bytes@.len(),
            run_start <= cursor <= n,
            f == (|b: (int, int)| (base.wrapping_add(b.0 as u64), bytes@.subrange(b.0, b.1))),
            run_views(runs@) == bounds.map_values(f),
            run_bounds(n as int, base, pools@) == with_bounds(
                bounds,
                n as int,
                base,
                pools@,
                run_start as int,
                cursor as int,
            ),
        decreases n - cursor,
    {
        let addr: u64 = base.wrapping_add(cursor as u64);
        if pools.contains(&addr) {
            if cursor > run_start {
                let ghost before = runs@;
                let ghost b = (run_start as int, cursor as int);
                runs.push(
                    (
                        base.wrapping_add(run_start as u64),
                        vstd::slice::slice_subrange(bytes, run_start, cursor),
                    ),
                );
                assert(run_views(runs@) =~= run_views(before).push(f(b)));
                assert(bounds.push(b).map_values(f) =~= bounds.map_values(f).push(f(b)));
                proof {
                    bounds = bounds.push(b);
                }
            }
            run_start = cursor + 4;
        }
        cursor = cursor + 4;
    }
    if run_start < n {
        let ghost before = runs@;
        let ghost b = (run_start as int, n as int);
        runs.push(
            (
                base.wrapping_add(run_start as u64),
                vstd::slice::slice_subrange(bytes, run_start, n),
            ),
        );
        assert(run_views(runs@) =~= run_views(before).push(f(b)));
        assert(bounds.push(b).map_values(f) =~= bounds.map_values(f).push(f(b)));
        proof {
            bounds = bounds.push(b);
        }
    }
    runs
}

/// The address of memory at a displacement from the program counter.
pub open spec fn pc_relative(address: u64, disp: i32) -> u64 {
    address.wrapping_add(ARM_PC_BIAS).wrapping_add(disp as i64 as u64)
}

/// With the pool words that operand `op` of an instruction reads: one, or two
/// where `wide`. They lie in the code of `len` bytes at `base`.
pub open spec fn with_operand(
    found: Set<u64>,
    op: Operand,
    wide: bool,
    address: u64,
    base: u64,
    len: int,
) -> Set<u64> {
    match op.kind {
        OperandKind::Mem(r, index, disp) => {
            let target = pc_relative(address, disp);
            if r == REG_PC && index == 0 && base <= target < base + len && target % 4 == 0 {
                if wide && target + 4 < base + len {
                    found.insert(target).insert(target.wrapping_add(4))
                } else {
                    found.insert(target)
                }
            } else {
                found
            }
        },
        _ => found,
    }
}

/// With the pool words that the operands from `i` on read.
pub open spec fn with_operands(
    found: Set<u64>,
    ops: Seq<Operand>,
    wide: bool,
    address: u64,
    base: u64,
    len: int,
    i: int,
) -> Set<u64>
    decreases ops.len() - i,
{
    if i < 0 || i >= ops.len() {
        found
    } else {
        with_operands(
            with_operand(found, ops[i], wide, address, base, len),
            ops,
            wide,
            address,
            base,
            len,
            i + 1,
        )
    }
}

/// With the pool words that an instruction reads. Loads of one register hold
/// addresses; loads of two words hold constants, but take up pool space too.
pub open spec fn with_insn(found: Set<u64>, insn: ArmInsnView, base: u64, len: int) -> Set<u64> {
    match (insn.mnemonic, insn.operands) {
        (Some(m), Some(ops)) => if has_prefix(m, "ldr"@) || has_prefix(m, "vldr"@) {
            with_operands(
                found,
                ops,
                has_prefix(m, "ldrd"@) || has_prefix(m, "vldr"@),
                insn.address,
                base,
                len,
                0,
            )
        } else {
            found
        },
        _ => found,
    }
}

/// With the pool words that the instructions from `i` on read.
pub open spec fn with_insns(
    found: Set<u64>,
    insns: Seq<ArmInsnView>,
    base: u64,
    len: int,
    i: int,
) -> Set<u64>
    decreases insns.len() - i,
{
    if i < 0 || i >= insns.len() {
        found
    } else {
        with_insns(with_insn(found, insns[i], base, len), insns, base, len, i + 1)
    }
}

/// With the pool words that the runs from `i` on read.
pub open spec fn with_runs(
    found: Set<u64>,
    runs: Seq<(u64, Seq<u8>)>,
    base: u64,
    len: int,
    i: int,
) -> Set<u64>
    decreases runs.len() - i,
{
    if i < 0 || i >= runs.len() {
        found
    } else {
        with_runs(
            match arm_instructions(runs[i].1, runs[i].0) {
                Some(insns) => with_insns(found, insns, base, len, 0),
                None => found,
            },
            runs,
            base,
            len,
            i + 1,
        )
    }
}

/// The pool words, with those that the code between them reads.
pub open spec fn grown(bytes: Seq<u8>, base: u64, pools: Set<u64>) -> Set<u64> {
    with_runs(pools, spec_code_runs(bytes, base, pools), base, bytes.len() as int, 0)
}

/// The pool words after `k` more looks at the code.
pub open spec fn pool_rounds(bytes: Seq<u8>, base: u64, pools: Set<u64>, k: nat) -> Set<u64>
    decreases k,
{
    if k == 0 {
        pools
    } else {
        pool_rounds(bytes, base, grown(bytes, base, pools), (k - 1) as nat)
    }
}

/// The pool words of a function. Each look at the code leaves out what the ones
/// before found, so that constants are not taken for instructions.
pub open spec fn pool_words(bytes: Seq<u8>, base: u64) -> Set<u64> {
    pool_rounds(bytes, base, Set::empty(), 3)
}

proof fn lemma_rounds_stop(bytes: Seq<u8>, base: u64, pools: Set<u64>, k: nat)
    requires
        grown(bytes, base, pools) == pools,
    ensures
        pool_rounds(bytes, base, pools, k) == pools,
    decreases k,
{
    if k > 0 {
        lemma_rounds_stop(bytes, base, pools, (k - 1) as nat);
    }
}

fn add_operands(
    found: &mut BTreeSet<u64>,
    ops: &Vec<Operand>,
    wide: bool,
    address: u64,
    base: u64,
    len: usize,
) -> (grew: bool)
    ensures
        final(found)@ == with_operands(old(found)@, ops@, wide, address, base, len as int, 0),
        !grew ==> final(found)@ == old(found)@,
{
    let mut grew: bool = false;
    let mut i: usize = 0;
    while i < ops.len()
        invariant
            i <= ops@.len(),
            with_operands(old(found)@, ops@, wide, address, base, len as int, 0) == with_operands(
                found@,
                ops@,
                wide,
                address,
                base,
                len as int,
                i as int,
            ),
            !grew ==> found@ == old(found)@,
        decreases ops@.len() - i,
    {
        if let OperandKind::Mem(r, index, disp) = ops[i].kind {
            let target: u64 = address.wrapping_add(ARM_PC_BIAS).wrapping_add(disp as i64 as u64);
            if r == REG_PC && index == 0 && target >= base && target - base < len as u64 && target
                % 4 == 0 {
                let ghost before = found@;
                if found.insert(target) {
                    grew = true;
                } else {
                    assert(found@ =~= before);
                }
                if wide && len as u64 - (target - base) > 4 {
                    let ghost before = found@;
                    if found.insert(target.wrapping_add(4)) {
                        grew = true;
                    } else {
                        assert(found@ =~= before);
                    }
                }
            }
        }
        i = i + 1;
    }
    grew
}

/// Adds the pool words in the code of `len` bytes at `base` that the instructions
/// read, and tells whether there were any new ones.
pub fn add_pool_words(found: &mut BTreeSet<u64>, insns: &Vec<ArmInsn>, base: u64, len: usize) -> (grew:
    bool)
    ensures
        final(found)@ == with_insns(old(found)@, insn_views(insns@), base, len as int, 0),
        !grew ==> final(found)@ == old(found)@,
{
    let ghost views = insn_views(insns@);
    let mut grew: bool = false;
    let mut i: usize = 0;
    while i < insns.len()
        invariant
            i <= insns@.len(),
            views == insn_views(insns@),
            with_insns(old(found)@, views, base, len as int, 0) == with_insns(
                found@,
                views,
                base,
                len as int,
                i as int,
            ),
            !grew ==> found@ == old(found)@,
        decreases insns@.len() - i,
    {
        let insn = &insns[i];
        assert(views[i as int] == insn@);
        if let Some(m) = &insn.mnemonic {
            if let Some(ops) = &insn.operands {
                let vector = starts_with(m.as_str(), "vldr");
                if starts_with(m.as_str(), "ldr") || vector {
                    let wide = starts_with(m.as_str(), "ldrd") || vector;
                    if add_operands(found, ops, wide, insn.address, base, len) {
                        grew = true;
                    }
                }
            }
        }
        i = i + 1;
    }
    grew
}

/// Adds the pool words that the code between the known ones reads, and tells
/// whether there were any.
fn scan_pool_words(d: &Disassembler, bytes: &[u8], base: u64, pools: &mut BTreeSet<u64>) -> (grew:
    bool)
    ensures
        final(pools)@ == grown(bytes@, base, old(pools)@),
        !grew ==> final(pools)@ == old(pools)@,
{
    let n: usize = bytes.len();
    let runs = code_runs(bytes, base, pools);
    let ghost views = run_views(runs@);
    let mut grew: bool = false;
    let mut i: usize = 0;
    while i < runs.len()
        invariant
            i <= runs@.len(),
            n == bytes@.len(),
            views == run_views(runs@),
            with_runs(old(pools)@, views, base, n as int, 0) == with_runs(
                pools@,
                views,
                base,
                n as int,
                i as int,
            ),
            !grew ==> pools@ == old(pools)@,
        decreases runs@.len() - i,
    {
        assert(views[i as int] == (runs@[i as int].0, runs@[i as int].1@));
        if let Some(insns) = d.disassemble(runs[i].1, runs[i].0) {
            if add_pool_words(pools, &insns, base, n) {
                grew = true;
            }
        }
        i = i + 1;
    }
    grew
}

/// Finds the pool words of a function, in at most three looks at the code.
pub fn find_pool_words(d: &Disassembler, bytes: &[u8], base: u64) -> (pools: BTreeSet<u64>)
    ensures
        pools@ == pool_words(bytes@, base),
{
    let mut pools: BTreeSet<u64> = BTreeSet::new();
    let mut k: usize = 3;
    while k > 0
        invariant
            k <= 3,
            pool_words(bytes@, base) == pool_rounds(bytes@, base, pools@, k as nat),
        decreases k,
    {
        let ghost before = pools@;
        if !scan_pool_words(d, bytes, base, &mut pools) {
            proof {
                lemma_rounds_stop(bytes@, base, before, k as nat);
            }
            return pools;
        }
        k = k - 1;
    }
    pools
}

} // verus!
