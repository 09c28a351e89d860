//! What the translated dynamic relocations of shared data refer to.
use vstd::prelude::*;

use super::dynrel::DynRelocView;
use super::shared::{
    class_of, function_target, slot_index, target_name, translated, with_dyn, with_dyns, DynClass,
    QueueModel, QueuedView, SlotModel,
};
use super::symbols::{enclosing, DataResolutionView, GlobalSymbols};
use crate::arch::Arch;
use crate::ranges::{lemma_reaches, reaches};

verus! {

/// True when `name` and `addend` denote the address `va`: a function there goes first, then
/// what else a pointer to it stands for.
pub open spec fn denotes(symbols: GlobalSymbols, name: Seq<char>, addend: int, va: u64) -> bool {
    if symbols.functions@.contains_key(va) {
        symbols.function_goes_by(va, name) && addend == 0
    } else {
        exists|x: DataResolutionView| #[trigger]
            symbols.stands_for(x, va) && x.symbol == name && x.addend == addend
    }
}

/// True when `name` and `addend` denote the address `va` in the function that holds it.
pub open spec fn denotes_code(
    symbols: GlobalSymbols,
    name: Seq<char>,
    addend: int,
    va: u64,
) -> bool {
    exists|a: u64| #[trigger]
        symbols.function_covers(a, va) && symbols.function_goes_by(a, name) && reaches(
            a,
            addend,
            va,
        )
}

/// The name and the addend that an address is given denote it, and one that is given none
/// has none.
pub proof fn law_targets_denote_their_address(symbols: GlobalSymbols, va: u64)
    ensures
        match target_name(symbols, va) {
            Some((name, addend)) => denotes(symbols, name, addend as int, va),
            None => forall|name: Seq<char>, addend: int|
                !#[trigger] denotes(symbols, name, addend, va),
        },
        match function_target(symbols, va) {
            Some((name, addend)) => denotes_code(symbols, name, addend as int, va),
            None => forall|name: Seq<char>, addend: int|
                !#[trigger] denotes_code(symbols, name, addend, va),
        },
{
    symbols.lemma_enclosing(va);
    symbols.law_pointers_denote_their_address(va);
    if symbols.functions@.contains_key(va) {
        assert(symbols.function_covers(va, va));
        assert(symbols.function_goes_by(va, symbols.functions@[va]@.export_name()));
        assert(reaches(va, 0, va));
    } else {
        if let Some(a) = enclosing(symbols.functions@, va) {
            lemma_reaches(a, va);
            let name = symbols.functions@[a]@.export_name();
            assert(symbols.function_covers(a, va) && symbols.function_goes_by(a, name));
            let addend = (va - a) as u64 as i64;
            assert(denotes_code(symbols, name, addend as int, va));
        }
        if let Some(x) = symbols.spec_resolve_data(va) {
            assert(symbols.stands_for(x, va));
            assert(denotes(symbols, x.symbol, x.addend as int, va));
            assert(target_name(symbols, va) == Some((x.symbol, x.addend)));
        }
    }
}

/// True when relocations of this type install an address of the image itself.
pub open spec fn installs_address(arch: Arch, r_type: u32) -> bool {
    match arch {
        Arch::Aarch64 => r_type == 1027,
        Arch::Arm => r_type == 23,
    }
}

/// True when relocations of this type install the address of their symbol.
pub open spec fn installs_symbol(arch: Arch, r_type: u32) -> bool {
    match arch {
        Arch::Aarch64 => r_type == 257 || r_type == 1025,
        Arch::Arm => r_type == 2 || r_type == 38 || r_type == 21,
    }
}

/// True when slot `k` is the one whose relocations are translated that `va` lies in, `off`
/// bytes from its start.
pub open spec fn lies_in(slots: Seq<SlotModel>, va: u64, k: int, off: int) -> bool {
    &&& 0 <= k < slots.len()
    &&& slots[k].needs_relocs
    &&& 0 <= off < slots[k].size
    &&& slots[k].vaddr + off == va
    &&& forall|j: int|
        0 <= j < k && (#[trigger] slots[j]).needs_relocs ==> !(slots[j].vaddr <= va
            < slots[j].vaddr + slots[j].size)
}

/// True when `name` and `addend` are what the dynamic relocation installs.
pub open spec fn installs(
    arch: Arch,
    symbols: GlobalSymbols,
    r: DynRelocView,
    name: Seq<char>,
    addend: int,
) -> bool {
    if installs_address(arch, r.r_type) {
        denotes(symbols, name, addend, r.r_addend as u64)
    } else {
        installs_symbol(arch, r.r_type) && name == r.sym_name && addend == r.r_addend
    }
}

/// True when the dynamic relocation installs something that has a name.
pub open spec fn installs_named(arch: Arch, symbols: GlobalSymbols, r: DynRelocView) -> bool {
    &&& exists|name: Seq<char>, addend: int| #[trigger] installs(arch, symbols, r, name, addend)
    &&& forall|name: Seq<char>, addend: int| #[trigger]
        installs(arch, symbols, r, name, addend) ==> name.len() > 0
}

/// True when `q` puts into the object what the dynamic relocation installed, at the place
/// where it did.
pub open spec fn carries(
    arch: Arch,
    symbols: GlobalSymbols,
    slots: Seq<SlotModel>,
    r: DynRelocView,
    q: QueuedView,
) -> bool {
    &&& lies_in(slots, r.r_offset, q.slot as int, q.offset as int)
    &&& installs(arch, symbols, r, q.name, q.addend as int)
    &&& q.name.len() > 0
}

/// True when `q` carries one of the first `n` relocations.
pub open spec fn comes_from(
    arch: Arch,
    symbols: GlobalSymbols,
    slots: Seq<SlotModel>,
    relocs: Seq<DynRelocView>,
    n: int,
    q: QueuedView,
) -> bool {
    exists|j: int| 0 <= j < n && carries(arch, symbols, slots, #[trigger] relocs[j], q)
}

/// True when some relocation of the queue carries `r`.
pub open spec fn is_carried(
    arch: Arch,
    symbols: GlobalSymbols,
    slots: Seq<SlotModel>,
    r: DynRelocView,
    queue: Seq<QueuedView>,
) -> bool {
    exists|i: int| 0 <= i < queue.len() && carries(arch, symbols, slots, r, #[trigger] queue[i])
}

/// True when the queue carries the first `n` relocations, as far as they install something
/// in a slot, and nothing else.
pub open spec fn carries_all(
    arch: Arch,
    symbols: GlobalSymbols,
    slots: Seq<SlotModel>,
    relocs: Seq<DynRelocView>,
    n: int,
    queue: Seq<QueuedView>,
) -> bool {
    &&& forall|i: int|
        0 <= i < queue.len() ==> comes_from(arch, symbols, slots, relocs, n, #[trigger] queue[i])
    &&& forall|j: int, k: int, off: int|
        0 <= j < n && #[trigger] lies_in(slots, relocs[j].r_offset, k, off) && installs_named(
            arch,
            symbols,
            relocs[j],
        ) ==> is_carried(arch, symbols, slots, relocs[j], queue)
}

proof fn lemma_slot(slots: Seq<SlotModel>, va: u64, i: int)
    requires
        0 <= i <= slots.len(),
        forall|j: int|
            0 <= j < i && (#[trigger] slots[j]).needs_relocs ==> !(slots[j].vaddr <= va
                < slots[j].vaddr + slots[j].size),
    ensures
        match slot_index(slots, va, true, i) {
            Some(k) => i <= k < slots.len() && lies_in(slots, va, k, va - slots[k].vaddr),
            None => forall|k: int, off: int| !#[trigger] lies_in(slots, va, k, off),
        },
    decreases slots.len() - i,
{
    if i < slots.len() {
        if !(slots[i].needs_relocs && slots[i].vaddr <= va < slots[i].vaddr + slots[i].size) {
            lemma_slot(slots, va, i + 1);
        }
    }
}

proof fn lemma_translated(arch: Arch, symbols: GlobalSymbols, r: DynRelocView)
    ensures
        ({
            let class = class_of(arch, r.r_type);
            &&& class == DynClass::Relative <==> installs_address(arch, r.r_type)
            &&& class == DynClass::Abs || class == DynClass::GlobDat <==> installs_symbol(
                arch,
                r.r_type,
            )
            &&& class != DynClass::JumpSlot && class != DynClass::Other ==> match translated(
                symbols,
                class,
                r,
            ) {
                Some((name, addend)) => installs(
                    arch,
                    symbols,
                    r,
                    name,
                    addend as int,
                ),
                None => forall|name: Seq<char>, addend: int|
                    !#[trigger] installs(arch, symbols, r, name, addend),
            }
        }),
{
    law_targets_denote_their_address(symbols, r.r_addend as u64);
}

proof fn lemma_dyn(
    q: QueueModel,
    arch: Arch,
    symbols: GlobalSymbols,
    slots: Seq<SlotModel>,
    relocs: Seq<DynRelocView>,
    n: int,
)
    requires
        0 <= n < relocs.len(),
        slots.len() <= usize::MAX,
        carries_all(arch, symbols, slots, relocs, n, q.queue),
    ensures
        carries_all(
            arch,
            symbols,
            slots,
            relocs,
            n + 1,
            with_dyn(q, arch, symbols, slots, relocs[n]).queue,
        ),
{
    let r = relocs[n];
    let next = with_dyn(q, arch, symbols, slots, r);
    lemma_slot(slots, r.r_offset, 0);
    lemma_translated(arch, symbols, r);
    let grown = next.queue.len() > q.queue.len();
    if grown {
        assert(carries(arch, symbols, slots, r, next.queue[q.queue.len() as int]));
        assert(is_carried(arch, symbols, slots, r, next.queue));
    }
    assert forall|i: int| 0 <= i < next.queue.len() implies comes_from(
        arch,
        symbols,
        slots,
        relocs,
        n + 1,
        #[trigger] next.queue[i],
    ) by {
        if i < q.queue.len() {
            assert(next.queue[i] == q.queue[i]);
            assert(comes_from(arch, symbols, slots, relocs, n, q.queue[i]));
        } else {
            assert(carries(arch, symbols, slots, relocs[n], next.queue[i]));
        }
    }
    assert forall|j: int, k: int, off: int|
        0 <= j < n + 1 && #[trigger] lies_in(slots, relocs[j].r_offset, k, off) && installs_named(
            arch,
            symbols,
            relocs[j],
        ) implies is_carried(arch, symbols, slots, relocs[j], next.queue) by {
        if j < n {
            assert(is_carried(arch, symbols, slots, relocs[j], q.queue));
            let i = choose|i: int|
                0 <= i < q.queue.len() && carries(
                    arch,
                    symbols,
                    slots,
                    relocs[j],
                    #[trigger] q.queue[i],
                );
            assert(next.queue[i] == q.queue[i]);
        } else {
            let class = class_of(arch, r.r_type);
            assert(class != DynClass::JumpSlot && class != DynClass::Other);
            assert(grown);
        }
    }
}

proof fn lemma_dyns(
    q: QueueModel,
    arch: Arch,
    symbols: GlobalSymbols,
    slots: Seq<SlotModel>,
    relocs: Seq<DynRelocView>,
    n: int,
)
    requires
        0 <= n <= relocs.len(),
        slots.len() <= usize::MAX,
        carries_all(arch, symbols, slots, relocs, n, q.queue),
    ensures
        carries_all(
            arch,
            symbols,
            slots,
            relocs,
            relocs.len() as int,
            with_dyns(q, arch, symbols, slots, relocs, n).queue,
        ),
    decreases relocs.len() - n,
{
    if n < relocs.len() {
        lemma_dyn(q, arch, symbols, slots, relocs, n);
        lemma_dyns(
            with_dyn(q, arch, symbols, slots, relocs[n]),
            arch,
            symbols,
            slots,
            relocs,
            n + 1,
        );
    }
}

/// What the dynamic relocations of an image install in its data, the object's relocations
/// install there too: one that installs an address becomes one to a symbol and an addend
/// that denote the address, one that installs a symbol becomes one to that symbol. What
/// installs nothing becomes nothing.
pub proof fn law_pointers_are_carried(
    start: QueueModel,
    arch: Arch,
    symbols: GlobalSymbols,
    slots: Seq<SlotModel>,
    relocs: Seq<DynRelocView>,
)
    requires
        start.queue.len() == 0,
        slots.len() <= usize::MAX,
    ensures
        carries_all(
            arch,
            symbols,
            slots,
            relocs,
            relocs.len() as int,
            with_dyns(start, arch, symbols, slots, relocs, 0).queue,
        ),
{
    lemma_dyns(start, arch, symbols, slots, relocs, 0);
}

/// Each dynamic relocation is counted once: as translated, and then it is in the queue, or
/// as skipped or unresolved.
pub proof fn law_dynamic_relocations_are_counted(
    q: QueueModel,
    arch: Arch,
    symbols: GlobalSymbols,
    slots: Seq<SlotModel>,
    relocs: Seq<DynRelocView>,
    n: int,
)
    requires
        0 <= n <= relocs.len() <= usize::MAX,
        q.stats.translated_relatives + q.stats.translated_abs64 + q.stats.translated_glob_dat
            == q.queue.len(),
        q.queue.len() + q.stats.skipped_relocs + q.stats.unresolved_relocs == n,
    ensures
        ({
            let end = with_dyns(q, arch, symbols, slots, relocs, n);
            &&& end.stats.translated_relatives + end.stats.translated_abs64
                + end.stats.translated_glob_dat == end.queue.len()
            &&& end.queue.len() + end.stats.skipped_relocs + end.stats.unresolved_relocs
                == relocs.len()
        }),
    decreases relocs.len() - n,
{
    if n < relocs.len() {
        law_dynamic_relocations_are_counted(
            with_dyn(q, arch, symbols, slots, relocs[n]),
            arch,
            symbols,
            slots,
            relocs,
            n + 1,
        );
    }
}

} // verus!
