//! What the object for shared data has at the starts of its sections, and where it installs
//! pointers.
use vstd::prelude::*;

use super::binary::Binary;
use super::dynrel::spec_all_dyn_relocs;
use super::emit::{dwarf_views, machine_of, with_dwarf_relocs, DwarfRelocView};
use super::placed::{is_behind, lemma_behind_on, lemma_dwarf_relocs};
use super::pointers::{carries_all, comes_from, law_pointers_are_carried};
use super::shared::{
    data_sections, data_stats, dwarf_head, dwarf_middle, dwarf_sections, pointer_type,
    shared_object, slot_index, with_arm_unwind, with_bss, with_bytes, with_data_symbols,
    with_dwarf, with_dyns, with_eh_frame, with_frames, with_index, with_pending, with_prel31,
    with_queue, with_queued, with_shared_dwarf, with_start, with_unwind, DwarfScan, Extab,
    QueueModel, QueuedView, SharedDataOptions, SharedDataStats, SharedModel, SlotModel,
    UnwindRelocView, SHF_ALLOC, SHT_ARM_EXIDX, SYM_ARM_EXTAB_START,
};
use super::symbols::{
    is_first_called, lemma_elf_section, plain, GlobalSymbols, VariableRef, SYM_BSS_START,
    SYM_DATA_REL_RO_LOCAL_START, SYM_DATA_REL_RO_START, SYM_DATA_START, SYM_RODATA_START,
};
use crate::arch::Arch;
use crate::bytes::{le_bytes, lemma_le_bytes_len, patched};
use crate::image::elf_section;
use crate::linkage::LinkageModel;
use crate::objfile::{
    symbol, ObjectFormat, ObjectModel, RelocationType, SectionKind, SymbolKind,
};
use crate::ordered::keys_between;
use crate::placing::{
    extends, has_relocation, is_called, knows, lemma_called_stays, lemma_extends_on,
    lemma_knows_over, lemma_reference, lemma_relocation_stays,
};

verus! {

/// Names are written as they are.
spec fn as_is() -> spec_fn(Seq<char>) -> Seq<char> {
    |name: Seq<char>| name
}

/// The data sections of an image that have bytes, whether their dynamic relocations are
/// translated, and the symbols at their starts.
pub open spec fn is_data(name: Seq<char>, relocated: bool, start: Option<Seq<char>>) -> bool {
    ||| name == ".rodata"@ && !relocated && start == Some("__delink_rodata_start"@)
    ||| name == ".data"@ && relocated && start == Some("__delink_data_start"@)
    ||| name == ".data.rel.ro"@ && relocated && start == Some("__delink_data_rel_ro_start"@)
    ||| name == ".data.rel.ro.local"@ && relocated && start == Some(
        "__delink_data_rel_ro_local_start"@,
    )
    ||| name == ".init_array"@ && relocated && start is None
    ||| name == ".fini_array"@ && relocated && start is None
}

/// True when symbol `s` is `start`, at the start of section `section`.
pub open spec fn is_start(m: ObjectModel, s: int, start: Seq<char>, section: nat) -> bool {
    &&& 0 <= s < m.symbols.len()
    &&& m.symbols[s].name == start
    &&& m.symbols[s].section == Some(section)
    &&& m.symbols[s].value == 0
    &&& m.symbols[s].global
}

/// True when slot `j` is for section `k` of the image, which is the first called `name`: the
/// object has a section of that name, and at its start the symbol `start`.
pub open spec fn is_slot_of(
    m: ObjectModel,
    slots: Seq<SlotModel>,
    j: int,
    binary: Binary,
    name: Seq<char>,
    k: int,
    relocated: bool,
    start: Option<Seq<char>>,
) -> bool {
    &&& 0 <= j < slots.len()
    &&& is_first_called(binary, name, k)
    &&& slots[j].vaddr == binary.sections@[k].addr
    &&& slots[j].size == binary.sections@[k].size
    &&& slots[j].needs_relocs == relocated
    &&& slots[j].section < m.sections.len()
    &&& m.sections[slots[j].section as int].name == name
    &&& start matches Some(x) ==> exists|s: int| #[trigger]
        is_start(m, s, x, slots[j].section as nat)
}

/// Slots have sections of their own, and no relocations yet.
spec fn slots_wf(s: SharedModel) -> bool {
    &&& s.slots.len() == s.l.obj.sections.len()
    &&& s.l.obj.format == ObjectFormat::Elf
    &&& s.l.local == Map::<Seq<char>, usize>::empty()
    &&& s.l.undef == Map::<Seq<char>, usize>::empty()
    &&& forall|i: int| 0 <= i < s.slots.len() ==> (#[trigger] s.slots[i]).section == i
    &&& forall|i: int|
        0 <= i < s.l.obj.sections.len() ==> (#[trigger] s.l.obj.sections[i]).relocations.len()
            == 0 && s.l.obj.sections[i].data.len() == 0
}

proof fn lemma_slot_stays(
    a: ObjectModel,
    b: ObjectModel,
    slots: Seq<SlotModel>,
    more: Seq<SlotModel>,
    j: int,
    binary: Binary,
    name: Seq<char>,
    k: int,
    relocated: bool,
    start: Option<Seq<char>>,
)
    requires
        extends(a, b),
        slots.len() <= more.len(),
        forall|i: int| 0 <= i < slots.len() ==> more[i] == #[trigger] slots[i],
        is_slot_of(a, slots, j, binary, name, k, relocated, start),
    ensures
        is_slot_of(b, more, j, binary, name, k, relocated, start),
{
    assert(more[j] == slots[j]);
    let section = slots[j].section as nat;
    assert(b.sections[section as int].name == a.sections[section as int].name);
    if let Some(x) = start {
        let s = choose|s: int| #[trigger] is_start(a, s, x, section);
        assert(b.symbols[s] == a.symbols[s]);
        assert(is_start(b, s, x, section));
    }
}

/// True when the sections so far stay and the section `name`, where the image has bytes for
/// it, has a slot.
spec fn adds(
    s: SharedModel,
    next: SharedModel,
    binary: Binary,
    name: Seq<char>,
    relocated: bool,
    start: Option<Seq<char>>,
) -> bool {
    &&& slots_wf(next)
    &&& extends(s.l.obj, next.l.obj)
    &&& s.slots.len() <= next.slots.len() <= s.slots.len() + 1
    &&& next.l.obj.symbols.len() <= s.l.obj.symbols.len() + 1
    &&& forall|i: int| 0 <= i < s.slots.len() ==> next.slots[i] == #[trigger] s.slots[i]
    &&& forall|k: int| #[trigger]
        is_first_called(binary, name, k) && (binary.sections@[k].data matches Some(d) && d@.len()
            > 0) ==> is_slot_of(
            next.l.obj,
            next.slots,
            s.slots.len() as int,
            binary,
            name,
            k,
            relocated,
            start,
        )
}

proof fn lemma_pending(
    s: SharedModel,
    binary: Binary,
    name: Seq<char>,
    kind: SectionKind,
    start: Option<Seq<char>>,
    relocated: bool,
)
    requires
        slots_wf(s),
        s.slots.len() < 10,
        plain(name),
        with_pending(s, binary, name, kind, start, relocated) is Some,
    ensures
        adds(
            s,
            with_pending(s, binary, name, kind, start, relocated)->0,
            binary,
            name,
            relocated,
            start,
        ),
{
    lemma_elf_section(binary, name);
    let next = with_pending(s, binary, name, kind, start, relocated)->0;
    if let Some(k) = elf_section(binary.sections@, name) {
        if binary.sections@[k].data->0@.len() > 0 {
            if let Some(x) = start {
                let n = s.l.obj.symbols.len() as int;
                assert(is_start(next.l.obj, n, x, s.l.obj.sections.len() as nat));
            }
            assert(extends(s.l.obj, next.l.obj));
        }
    }
}

/// What the data sections are.
proof fn lemma_data_sections(binary: Binary)
    requires
        data_sections(binary) is Some,
    ensures
        ({
            let s = data_sections(binary)->0;
            &&& slots_wf(s)
            &&& s.slots.len() <= 7
            &&& s.l.obj.symbols.len() <= 7
            &&& has_data(s.l.obj, s.slots, binary)
        }),
{
    let empty = SharedModel {
        l: LinkageModel::empty(ObjectFormat::Elf, machine_of(binary.arch)),
        slots: Seq::empty(),
    };
    reveal_strlit(".rodata");
    reveal_strlit(".data");
    reveal_strlit(".data.rel.ro");
    reveal_strlit(".data.rel.ro.local");
    reveal_strlit(".init_array");
    reveal_strlit(".fini_array");
    reveal_strlit(".bss");
    assert(".rodata"@.len() == 7 && ".data"@.len() == 5 && ".data.rel.ro"@.len() == 12
        && ".data.rel.ro.local"@.len() == 18 && ".init_array"@.len() == 11 && ".fini_array"@.len()
        == 11 && ".bss"@.len() == 4);
    assert(".init_array"@[1] == 'i' && ".fini_array"@[1] == 'f');
    let ro = SectionKind::ReadOnlyDataWithRel;
    let s1 = Some(SYM_RODATA_START@);
    let s2 = Some(SYM_DATA_START@);
    let s3 = Some(SYM_DATA_REL_RO_START@);
    let s4 = Some(SYM_DATA_REL_RO_LOCAL_START@);
    let none: Option<Seq<char>> = None;
    let a = with_pending(empty, binary, ".rodata"@, SectionKind::ReadOnlyData, s1, false)->0;
    lemma_pending(empty, binary, ".rodata"@, SectionKind::ReadOnlyData, s1, false);
    let b = with_pending(a, binary, ".data"@, SectionKind::Data, s2, true)->0;
    lemma_pending(a, binary, ".data"@, SectionKind::Data, s2, true);
    let c = with_pending(b, binary, ".data.rel.ro"@, ro, s3, true)->0;
    lemma_pending(b, binary, ".data.rel.ro"@, ro, s3, true);
    let d = with_pending(c, binary, ".data.rel.ro.local"@, ro, s4, true)->0;
    lemma_pending(c, binary, ".data.rel.ro.local"@, ro, s4, true);
    let e = with_pending(d, binary, ".init_array"@, SectionKind::Data, none, true)->0;
    lemma_pending(d, binary, ".init_array"@, SectionKind::Data, none, true);
    let f = with_pending(e, binary, ".fini_array"@, SectionKind::Data, none, true)->0;
    lemma_pending(e, binary, ".fini_array"@, SectionKind::Data, none, true);
    let g = with_bss(f, binary);
    assert(data_sections(binary) == Some(g));
    lemma_bss(f, binary);
    lemma_extends_on(f.l.obj, f.l.obj, g.l.obj);
    lemma_extends_on(e.l.obj, f.l.obj, g.l.obj);
    lemma_extends_on(d.l.obj, e.l.obj, g.l.obj);
    lemma_extends_on(c.l.obj, d.l.obj, g.l.obj);
    lemma_extends_on(b.l.obj, c.l.obj, g.l.obj);
    lemma_extends_on(a.l.obj, b.l.obj, g.l.obj);
    assert forall|name: Seq<char>, relocated: bool, start: Option<Seq<char>>, k: int| #[trigger]
        is_data(name, relocated, start) && #[trigger] is_first_called(binary, name, k) && (
        binary.sections@[k].data matches Some(x) && x@.len() > 0) implies exists|j: int| #[trigger]
        is_slot_of(g.l.obj, g.slots, j, binary, name, k, relocated, start) by {
        if name == ".rodata"@ {
            lemma_slot_stays(
                a.l.obj,
                g.l.obj,
                a.slots,
                g.slots,
                0,
                binary,
                name,
                k,
                relocated,
                start,
            );
        } else if name == ".data"@ {
            let j = a.slots.len() as int;
            lemma_slot_stays(
                b.l.obj,
                g.l.obj,
                b.slots,
                g.slots,
                j,
                binary,
                name,
                k,
                relocated,
                start,
            );
        } else if name == ".data.rel.ro"@ {
            let j = b.slots.len() as int;
            lemma_slot_stays(
                c.l.obj,
                g.l.obj,
                c.slots,
                g.slots,
                j,
                binary,
                name,
                k,
                relocated,
                start,
            );
        } else if name == ".data.rel.ro.local"@ {
            let j = c.slots.len() as int;
            lemma_slot_stays(
                d.l.obj,
                g.l.obj,
                d.slots,
                g.slots,
                j,
                binary,
                name,
                k,
                relocated,
                start,
            );
        } else if name == ".init_array"@ {
            let j = d.slots.len() as int;
            lemma_slot_stays(
                e.l.obj,
                g.l.obj,
                e.slots,
                g.slots,
                j,
                binary,
                name,
                k,
                relocated,
                start,
            );
        } else {
            let j = e.slots.len() as int;
            lemma_slot_stays(
                f.l.obj,
                g.l.obj,
                f.slots,
                g.slots,
                j,
                binary,
                name,
                k,
                relocated,
                start,
            );
        }
    }
    assert forall|k: int| #[trigger] is_first_called(binary, ".bss"@, k) implies exists|j: int|
        #[trigger]
        is_slot_of(
            g.l.obj,
            g.slots,
            j,
            binary,
            ".bss"@,
            k,
            false,
            Some("__delink_bss_start"@),
        ) by {
        assert(is_slot_of(
            g.l.obj,
            g.slots,
            f.slots.len() as int,
            binary,
            ".bss"@,
            k,
            false,
            Some("__delink_bss_start"@),
        ));
    }
}

/// True when each data section of the image that has bytes, and the zero-filled data, has a
/// slot.
pub open spec fn has_data(m: ObjectModel, slots: Seq<SlotModel>, binary: Binary) -> bool {
    &&& forall|name: Seq<char>, relocated: bool, start: Option<Seq<char>>, k: int| #[trigger]
        is_data(name, relocated, start) && #[trigger] is_first_called(binary, name, k) && (
        binary.sections@[k].data matches Some(x) && x@.len() > 0) ==> exists|j: int| #[trigger]
            is_slot_of(m, slots, j, binary, name, k, relocated, start)
    &&& forall|k: int| #[trigger]
        is_first_called(binary, ".bss"@, k) ==> exists|j: int| #[trigger]
            is_slot_of(
                m,
                slots,
                j,
                binary,
                ".bss"@,
                k,
                false,
                Some("__delink_bss_start"@),
            )
}

proof fn lemma_bss(s: SharedModel, binary: Binary)
    requires
        slots_wf(s),
        s.slots.len() < 10,
        plain(".bss"@),
    ensures
        ({
            let next = with_bss(s, binary);
            &&& slots_wf(next)
            &&& extends(s.l.obj, next.l.obj)
            &&& extends(s.l.obj, s.l.obj)
            &&& s.slots.len() <= next.slots.len() <= s.slots.len() + 1
            &&& next.l.obj.symbols.len() <= s.l.obj.symbols.len() + 1
            &&& forall|i: int| 0 <= i < s.slots.len() ==> next.slots[i] == #[trigger] s.slots[i]
            &&& forall|k: int| #[trigger]
                is_first_called(binary, ".bss"@, k) ==> is_slot_of(
                    next.l.obj,
                    next.slots,
                    s.slots.len() as int,
                    binary,
                    ".bss"@,
                    k,
                    false,
                    Some("__delink_bss_start"@),
                )
        }),
{
    lemma_elf_section(binary, ".bss"@);
    let next = with_bss(s, binary);
    if let Some(k) = elf_section(binary.sections@, ".bss"@) {
        let n = s.l.obj.symbols.len() as int;
        assert(is_start(
            next.l.obj,
            n,
            "__delink_bss_start"@,
            s.l.obj.sections.len() as nat,
        ));
        let j = s.slots.len() as int;
        assert(next.slots[j].section == s.l.obj.sections.len());
        assert(next.slots[j].size == binary.sections@[k].size);
        assert(next.l.obj.sections[j].name == ".bss"@);
        let start = Some("__delink_bss_start"@);
        assert(is_start(next.l.obj, n, start->0, next.slots[j].section as nat));
        assert(next.slots[j].section < next.l.obj.sections.len());
        assert(next.slots[j].vaddr == binary.sections@[k].addr);
        assert(!next.slots[j].needs_relocs);
        assert(is_first_called(binary, ".bss"@, k));
        assert(is_slot_of(
            next.l.obj,
            next.slots,
            j,
            binary,
            ".bss"@,
            k,
            false,
            Some("__delink_bss_start"@),
        ));
        assert(extends(s.l.obj, next.l.obj));
        assert(slots_wf(next));
    }
}

/// The kind of relocations that install pointers: `R_AARCH64_ABS64`, or `R_ARM_ABS32`.
pub open spec fn kind_of(arch: Arch) -> RelocationType {
    match arch {
        Arch::Aarch64 => RelocationType::Elf(257),
        Arch::Arm => RelocationType::Elf(2),
    }
}

/// True when relocation `p` of the slot's section installs what `q` says, at its place.
/// The addend is in the relocation on AArch64.
pub open spec fn installs(
    m: ObjectModel,
    arch: Arch,
    slots: Seq<SlotModel>,
    q: QueuedView,
    p: int,
) -> bool {
    &&& q.slot < slots.len()
    &&& has_relocation(
        m,
        slots[q.slot as int].section as int,
        p,
        q.offset as int,
        kind_of(arch),
        q.name,
        if arch == Arch::Aarch64 {
            q.addend as int
        } else {
            0
        },
    )
}

/// True when some relocation installs what `q` says.
pub open spec fn is_installed(
    m: ObjectModel,
    arch: Arch,
    slots: Seq<SlotModel>,
    q: QueuedView,
) -> bool {
    exists|p: int| #[trigger] installs(m, arch, slots, q, p)
}

/// True when relocation `p` of section `sec` installs what one of the first `n` in the queue
/// says.
pub open spec fn is_due(
    m: ObjectModel,
    arch: Arch,
    slots: Seq<SlotModel>,
    queue: Seq<QueuedView>,
    n: int,
    sec: int,
    p: int,
) -> bool {
    exists|i: int|
        0 <= i < n && installs(m, arch, slots, #[trigger] queue[i], p)
            && slots[queue[i].slot as int].section == sec
}

/// True when the first `codes` sections install what the first `n` in the queue say and
/// nothing else.
pub open spec fn installs_all(
    m: ObjectModel,
    arch: Arch,
    slots: Seq<SlotModel>,
    queue: Seq<QueuedView>,
    n: int,
    count: int,
) -> bool {
    &&& forall|i: int| 0 <= i < n ==> is_installed(m, arch, slots, #[trigger] queue[i])
    &&& forall|sec: int, p: int|
        0 <= sec < count && 0 <= p < m.sections[sec].relocations.len() ==> #[trigger] is_due(
            m,
            arch,
            slots,
            queue,
            n,
            sec,
            p,
        )
}

/// True when no other in the queue has a field that shares a byte with that of number `i`.
pub open spec fn is_alone(queue: Seq<QueuedView>, i: int) -> bool {
    forall|j: int|
        0 <= j < queue.len() && j != i && (#[trigger] queue[j]).slot == queue[i].slot ==> (
        queue[j].offset + 4 <= queue[i].offset || queue[i].offset + 4 <= queue[j].offset)
}

/// True when the four bytes at `at` are the addend.
pub open spec fn holds_addend(data: Seq<u8>, at: int, addend: i64) -> bool {
    &&& 0 <= at
    &&& at + 4 <= data.len()
    &&& forall|b: int|
        0 <= b < 4 ==> #[trigger] data[at + b] == le_bytes(addend as i32 as u32 as int, 4)[b]
}

/// True when byte `b` of slot `j` is in the field of some in the queue from `i` on.
pub open spec fn in_queue(queue: Seq<QueuedView>, i: int, j: int, b: int) -> bool {
    exists|k: int|
        i <= k < queue.len() && (#[trigger] queue[k]).slot == j && queue[k].offset <= b
            < queue[k].offset + 4
}

/// True when the slots are the same but for their bytes.
spec fn same_places(a: Seq<SlotModel>, b: Seq<SlotModel>) -> bool {
    &&& a.len() == b.len()
    &&& forall|j: int|
        0 <= j < a.len() ==> (#[trigger] b[j]).section == a[j].section && b[j].data.len()
            == a[j].data.len()
}

/// What one in the queue adds.
proof fn lemma_queued(
    s: SharedModel,
    slots: Seq<SlotModel>,
    arch: Arch,
    queue: Seq<QueuedView>,
    n: int,
)
    requires
        0 <= n < queue.len(),
        same_places(slots, s.slots),
        knows(s.l, as_is()),
        s.l.obj.format == ObjectFormat::Elf,
        forall|j: int|
            0 <= j < slots.len() ==> (#[trigger] slots[j]).section < s.l.obj.sections.len(),
        queue[n].slot < slots.len(),
        installs_all(s.l.obj, arch, slots, queue, n, s.l.obj.sections.len() as int),
        with_queued(s, arch, queue[n]) is Some,
        with_queued(s, arch, queue[n])->0.l.obj.symbols.len() <= usize::MAX,
    ensures
        ({
            let next = with_queued(s, arch, queue[n])->0;
            &&& same_places(slots, next.slots)
            &&& knows(next.l, as_is())
            &&& next.l.obj.format == ObjectFormat::Elf
            &&& next.l.obj.sections.len() == s.l.obj.sections.len()
            &&& extends(s.l.obj, next.l.obj)
            &&& forall|k: int|
                0 <= k < s.l.obj.sections.len() ==> (#[trigger] next.l.obj.sections[k]).data
                    == s.l.obj.sections[k].data
            &&& installs_all(
                next.l.obj,
                arch,
                slots,
                queue,
                n + 1,
                next.l.obj.sections.len() as int,
            )
        }),
{
    let q = queue[n];
    let next = with_queued(s, arch, q)->0;
    let m = s.l.with_undef(q.name, q.name, SymbolKind::Unknown);
    assert(as_is()(q.name) == q.name);
    assert(next.l.obj.symbols == m.obj.symbols);
    lemma_reference(s.l, as_is(), q.name, SymbolKind::Unknown);
    lemma_knows_over(m, next.l, as_is());
    let sec = slots[q.slot as int].section as int;
    assert(s.slots[q.slot as int].section == sec);
    let num = s.l.undef_number(q.name) as nat;
    let p = s.l.obj.sections[sec].relocations.len() as int;
    assert(pointer_type(arch) == kind_of(arch)->Elf_0);
    assert(is_called(next.l.obj, num, q.name));
    assert(installs(next.l.obj, arch, slots, q, p));
    lemma_le_bytes_len(q.addend as i32 as u32 as int, 4);
    assert(extends(s.l.obj, next.l.obj));
    assert forall|i: int| 0 <= i < n + 1 implies is_installed(
        next.l.obj,
        arch,
        slots,
        #[trigger] queue[i],
    ) by {
        if i < n {
            assert(is_installed(s.l.obj, arch, slots, queue[i]));
            let x = choose|x: int| #[trigger] installs(s.l.obj, arch, slots, queue[i], x);
            lemma_installs_stays(s.l.obj, next.l.obj, arch, slots, queue[i], x);
        }
    }
    assert forall|t: int, x: int|
        0 <= t < next.l.obj.sections.len() && 0 <= x
            < next.l.obj.sections[t].relocations.len() implies #[trigger] is_due(
        next.l.obj,
        arch,
        slots,
        queue,
        n + 1,
        t,
        x,
    ) by {
        if t == sec && x == p {
            assert(installs(next.l.obj, arch, slots, queue[n], x));
        } else {
            assert(is_due(s.l.obj, arch, slots, queue, n, t, x));
            let i = choose|i: int|
                0 <= i < n && installs(s.l.obj, arch, slots, #[trigger] queue[i], x)
                    && slots[queue[i].slot as int].section == t;
            lemma_installs_stays(s.l.obj, next.l.obj, arch, slots, queue[i], x);
            assert(installs(next.l.obj, arch, slots, queue[i], x));
        }
    }
    assert forall|j: int| 0 <= j < slots.len() implies (#[trigger] next.slots[j]).section
        == slots[j].section && next.slots[j].data.len() == slots[j].data.len() by {
        assert(s.slots[j].section == slots[j].section);
    }
}

proof fn lemma_installs_stays(
    a: ObjectModel,
    b: ObjectModel,
    arch: Arch,
    slots: Seq<SlotModel>,
    q: QueuedView,
    p: int,
)
    requires
        extends(a, b),
        installs(a, arch, slots, q, p),
    ensures
        installs(b, arch, slots, q, p),
{
    lemma_relocation_stays(
        a,
        b,
        slots[q.slot as int].section as int,
        p,
        q.offset as int,
        kind_of(arch),
        q.name,
        if arch == Arch::Aarch64 {
            q.addend as int
        } else {
            0
        },
    );
}

proof fn lemma_queue_symbols(s: SharedModel, arch: Arch, queue: Seq<QueuedView>, n: int)
    requires
        with_queue(s, arch, queue, n) is Some,
    ensures
        s.l.obj.symbols.len() <= with_queue(s, arch, queue, n)->0.l.obj.symbols.len(),
    decreases queue.len() - n,
{
    if 0 <= n < queue.len() {
        lemma_queue_symbols(with_queued(s, arch, queue[n])->0, arch, queue, n + 1);
    }
}

proof fn lemma_queue(
    s: SharedModel,
    slots: Seq<SlotModel>,
    arch: Arch,
    queue: Seq<QueuedView>,
    n: int,
)
    requires
        0 <= n <= queue.len(),
        same_places(slots, s.slots),
        knows(s.l, as_is()),
        s.l.obj.format == ObjectFormat::Elf,
        forall|j: int|
            0 <= j < slots.len() ==> (#[trigger] slots[j]).section < s.l.obj.sections.len(),
        forall|i: int| 0 <= i < queue.len() ==> (#[trigger] queue[i]).slot < slots.len(),
        installs_all(s.l.obj, arch, slots, queue, n, s.l.obj.sections.len() as int),
        with_queue(s, arch, queue, n) is Some,
        with_queue(s, arch, queue, n)->0.l.obj.symbols.len() <= usize::MAX,
    ensures
        ({
            let end = with_queue(s, arch, queue, n)->0;
            &&& same_places(slots, end.slots)
            &&& end.l.obj.format == ObjectFormat::Elf
            &&& end.l.obj.sections.len() == s.l.obj.sections.len()
            &&& extends(s.l.obj, end.l.obj)
            &&& forall|k: int|
                0 <= k < s.l.obj.sections.len() ==> (#[trigger] end.l.obj.sections[k]).data
                    == s.l.obj.sections[k].data
            &&& installs_all(
                end.l.obj,
                arch,
                slots,
                queue,
                queue.len() as int,
                end.l.obj.sections.len() as int,
            )
        }),
    decreases queue.len() - n,
{
    if n < queue.len() {
        let next = with_queued(s, arch, queue[n])->0;
        lemma_queue_symbols(next, arch, queue, n + 1);
        lemma_queued(s, slots, arch, queue, n);
        lemma_queue(next, slots, arch, queue, n + 1);
        let end = with_queue(s, arch, queue, n)->0;
        lemma_extends_on(s.l.obj, next.l.obj, end.l.obj);
        assert forall|k: int| 0 <= k < s.l.obj.sections.len() implies (
        #[trigger] end.l.obj.sections[k]).data == s.l.obj.sections[k].data by {
            assert(next.l.obj.sections[k].data == s.l.obj.sections[k].data);
        }
    }
}

/// The bytes of the slots once the queue is worked off: on AArch64 as they were, on ARM with
/// the addends in the fields.
proof fn lemma_queue_bytes(s: SharedModel, arch: Arch, queue: Seq<QueuedView>, n: int)
    requires
        0 <= n <= queue.len(),
        forall|i: int| 0 <= i < queue.len() ==> (#[trigger] queue[i]).slot < s.slots.len(),
        with_queue(s, arch, queue, n) is Some,
    ensures
        ({
            let end = with_queue(s, arch, queue, n)->0;
            &&& end.slots.len() == s.slots.len()
            &&& forall|j: int|
                0 <= j < s.slots.len() ==> (#[trigger] end.slots[j]).data.len()
                    == s.slots[j].data.len() && end.slots[j].section == s.slots[j].section
            &&& arch == Arch::Aarch64 ==> end.slots == s.slots
            &&& forall|j: int, b: int|
                0 <= j < s.slots.len() && 0 <= b < s.slots[j].data.len() && !in_queue(
                    queue,
                    n,
                    j,
                    b,
                ) ==> #[trigger] end.slots[j].data[b] == s.slots[j].data[b]
            &&& arch == Arch::Arm ==> forall|i: int|
                n <= i < queue.len() && #[trigger] is_alone(queue, i) ==> holds_addend(
                    end.slots[queue[i].slot as int].data,
                    queue[i].offset as int,
                    queue[i].addend,
                )
        }),
    decreases queue.len() - n,
{
    if n < queue.len() {
        let q = queue[n];
        let next = with_queued(s, arch, q)->0;
        let word = le_bytes(q.addend as i32 as u32 as int, 4);
        lemma_le_bytes_len(q.addend as i32 as u32 as int, 4);
        lemma_queue_bytes(next, arch, queue, n + 1);
        let end = with_queue(s, arch, queue, n)->0;
        let t = q.slot as int;
        assert forall|j: int, b: int|
            0 <= j < s.slots.len() && 0 <= b < s.slots[j].data.len() && !in_queue(
                queue,
                n,
                j,
                b,
            ) implies #[trigger] end.slots[j].data[b] == s.slots[j].data[b] by {
            assert(!in_queue(queue, n + 1, j, b)) by {
                if in_queue(queue, n + 1, j, b) {
                    let k = choose|k: int|
                        n + 1 <= k < queue.len() && (#[trigger] queue[k]).slot == j
                            && queue[k].offset <= b < queue[k].offset + 4;
                    assert(in_queue(queue, n, j, b));
                }
            }
            assert(!(t == j && q.offset <= b < q.offset + 4)) by {
                if t == j && q.offset <= b < q.offset + 4 {
                    assert(queue[n].slot == j);
                }
            }
            assert(next.slots[j].data[b] == s.slots[j].data[b]);
        }
        if arch == Arch::Arm {
            assert forall|i: int|
                n <= i < queue.len() && #[trigger] is_alone(queue, i) implies holds_addend(
                end.slots[queue[i].slot as int].data,
                queue[i].offset as int,
                queue[i].addend,
            ) by {
                if i == n {
                    let at = q.offset as int;
                    assert(at + 4 <= s.slots[t].data.len());
                    assert forall|b: int| 0 <= b < 4 implies #[trigger] end.slots[t].data[at + b]
                        == word[b] by {
                        assert(!in_queue(queue, n + 1, t, at + b)) by {
                            if in_queue(queue, n + 1, t, at + b) {
                                let k = choose|k: int|
                                    n + 1 <= k < queue.len() && (#[trigger] queue[k]).slot == t
                                        && queue[k].offset <= at + b < queue[k].offset + 4;
                                assert(queue[k].slot == queue[n].slot);
                            }
                        }
                        assert(next.slots[t].data[at + b] == word[b]);
                    }
                }
            }
        }
    }
}

proof fn lemma_data_symbols(
    m: ObjectModel,
    keys: Seq<u64>,
    variables: Map<u64, VariableRef>,
    slots: Seq<SlotModel>,
    i: int,
)
    ensures
        is_behind(m, with_data_symbols(m, keys, variables, slots, i)),
        with_data_symbols(m, keys, variables, slots, i).sections == m.sections,
    decreases keys.len() - i,
{
    if 0 <= i < keys.len() {
        let addr = keys[i];
        let name = variables[addr]@.export_name();
        let next = match slot_index(slots, addr, false, 0) {
            Some(k) => if name.len() == 0 {
                m
            } else {
                m.with_symbol(
                    symbol(
                        name,
                        (addr - slots[k].vaddr) as u64,
                        0,
                        SymbolKind::Data,
                        true,
                        false,
                        Some(slots[k].section),
                    ),
                )
            },
            None => m,
        };
        lemma_data_symbols(next, keys, variables, slots, i + 1);
        assert(is_behind(m, next));
        lemma_behind_on(m, next, with_data_symbols(m, keys, variables, slots, i));
    }
}

/// The bytes of the slots go into their sections.
proof fn lemma_bytes(l: LinkageModel, slots: Seq<SlotModel>, i: int)
    requires
        0 <= i <= slots.len(),
        slots.len() == l.obj.sections.len(),
        forall|j: int| 0 <= j < slots.len() ==> (#[trigger] slots[j]).section == j,
        forall|j: int| i <= j < slots.len() ==> (#[trigger] l.obj.sections[j]).data.len() == 0,
        forall|j: int| 0 <= j < i ==> (#[trigger] l.obj.sections[j]).data == slots[j].data,
    ensures
        ({
            let end = with_bytes(l, slots, i);
            &&& extends(l.obj, end.obj)
            &&& end.obj.symbols == l.obj.symbols
            &&& end.obj.sections.len() == l.obj.sections.len()
            &&& forall|j: int|
                0 <= j < slots.len() ==> (#[trigger] end.obj.sections[j]).data == slots[j].data
                    && end.obj.sections[j].relocations == l.obj.sections[j].relocations
        }),
    decreases slots.len() - i,
{
    if i < slots.len() {
        let next = if slots[i].data.len() == 0 {
            l
        } else {
            l.over(l.obj.with_data(slots[i].section as nat, slots[i].data, 16))
        };
        assert(slots[i].section == i);
        assert(l.obj.sections[i].data.len() == 0);
        assert(next.obj.sections[i].data =~= slots[i].data);
        assert forall|j: int| 0 <= j < i + 1 implies (#[trigger] next.obj.sections[j]).data
            == slots[j].data by {
            if j < i {
                assert(l.obj.sections[j].data == slots[j].data);
            }
        }
        assert forall|j: int| i + 1 <= j < slots.len() implies (
        #[trigger] next.obj.sections[j]).data.len() == 0 by {
            assert(l.obj.sections[j].data.len() == 0);
        }
        assert(extends(l.obj, next.obj));
        lemma_bytes(next, slots, i + 1);
        lemma_extends_on(l.obj, next.obj, with_bytes(l, slots, i).obj);
        assert forall|j: int| 0 <= j < slots.len() implies (
        #[trigger] with_bytes(l, slots, i).obj.sections[j]).data == slots[j].data && with_bytes(
            l,
            slots,
            i,
        ).obj.sections[j].relocations == l.obj.sections[j].relocations by {
            assert(next.obj.sections[j].relocations == l.obj.sections[j].relocations);
        }
    } else {
        assert(extends(l.obj, l.obj));
    }
}

proof fn lemma_unwind(
    base: ObjectModel,
    l: LinkageModel,
    section: usize,
    r_type: u32,
    explicit: bool,
    relocs: Seq<UnwindRelocView>,
    i: int,
)
    requires
        0 <= i,
        is_behind(base, l.obj),
        base.sections.len() <= section < l.obj.sections.len(),
    ensures
        is_behind(base, with_unwind(l, section, r_type, explicit, relocs, i).obj),
        with_unwind(l, section, r_type, explicit, relocs, i).obj.sections.len()
            == l.obj.sections.len(),
    decreases relocs.len() - i,
{
    if i < relocs.len() {
        let r = relocs[i];
        let m = l.with_undef(r.name, r.name, SymbolKind::Unknown);
        let added = m.over(
            m.obj.with_relocation(
                section as nat,
                r.offset,
                l.undef_number(r.name) as nat,
                RelocationType::Elf(r_type),
                if explicit {
                    r.addend as int
                } else {
                    0
                },
            ),
        );
        assert(is_behind(base, added.obj)) by {
            assert forall|k: int| 0 <= k < base.symbols.len() implies #[trigger] added.obj.symbols[k]
                == base.symbols[k] by {
                assert(l.obj.symbols[k] == base.symbols[k]);
            }
            assert forall|k: int|
                0 <= k < base.sections.len() implies #[trigger] added.obj.sections[k]
                == base.sections[k] by {
                assert(l.obj.sections[k] == base.sections[k]);
            }
        }
        lemma_unwind(base, added, section, r_type, explicit, relocs, i + 1);
    }
}

proof fn lemma_eh_frame(
    l: LinkageModel,
    stats: SharedDataStats,
    binary: Binary,
    symbols: GlobalSymbols,
)
    requires
        l.obj.sections.len() <= 10,
        with_eh_frame(l, stats, binary, symbols) is Some,
    ensures
        is_behind(l.obj, (with_eh_frame(l, stats, binary, symbols)->0).0.obj),
        (with_eh_frame(l, stats, binary, symbols)->0).0.obj.sections.len()
            <= l.obj.sections.len() + 2,
{
    if let Some(k) = elf_section(binary.sections@, ".eh_frame"@) {
        let d = binary.sections@[k].data->0;
        if d@.len() > 0 {
            let section = l.obj.sections.len() as usize;
            let relocs = with_frames(Seq::empty(), d@, binary.sections@[k].addr, symbols, 0);
            let filled = l.over(
                l.obj.with_section(""@, ".eh_frame"@, SectionKind::ReadOnlyData).with_data(
                    section as nat,
                    d@,
                    8,
                ),
            );
            assert(is_behind(l.obj, filled.obj));
            lemma_unwind(
                l.obj,
                filled,
                section,
                crate::elf::reltypes::R_AARCH64_PREL32,
                true,
                relocs,
                0,
            );
        }
    }
}

proof fn lemma_arm_unwind(
    l: LinkageModel,
    stats: SharedDataStats,
    binary: Binary,
    symbols: GlobalSymbols,
)
    requires
        l.obj.sections.len() <= 10,
        with_arm_unwind(l, stats, binary, symbols) is Some,
    ensures
        is_behind(l.obj, (with_arm_unwind(l, stats, binary, symbols)->0).0.obj),
        (with_arm_unwind(l, stats, binary, symbols)->0).0.obj.sections.len()
            <= l.obj.sections.len() + 2,
{
    let entries = elf_section(binary.sections@, ".ARM.extab"@);
    let index = elf_section(binary.sections@, ".ARM.exidx"@);
    let has_entries = entries is Some && binary.sections@[entries->0].data->0@.len() > 0;
    let extab = if has_entries {
        Extab {
            size: binary.sections@[entries->0].data->0@.len() as u64,
            vaddr: binary.sections@[entries->0].addr,
        }
    } else {
        Extab { size: 0, vaddr: 0 }
    };
    let first = l.obj.sections.len() as usize;
    let a = if has_entries {
        l.over(
            with_start(
                l.obj.with_section(""@, ".ARM.extab"@, SectionKind::ReadOnlyData).with_data(
                    first as nat,
                    binary.sections@[entries->0].data->0@,
                    4,
                ),
                first,
                SYM_ARM_EXTAB_START@,
            ),
        )
    } else {
        l
    };
    assert(is_behind(l.obj, a.obj));
    if let Some(k) = index {
        let d = binary.sections@[k].data->0;
        if binary.sections@[k].data is Some && d@.len() > 0 {
            let relocs = with_index(
                Seq::empty(),
                d@,
                binary.sections@[k].addr,
                symbols,
                extab,
                0,
            );
            let section = a.obj.sections.len() as usize;
            let filled = a.over(
                a.obj.with_section(
                    ""@,
                    ".ARM.exidx"@,
                    SectionKind::Elf(SHT_ARM_EXIDX),
                ).with_elf_flags(section as nat, SHF_ALLOC).with_data(
                    section as nat,
                    with_prel31(d@, relocs, 0)->0,
                    4,
                ),
            );
            assert(is_behind(a.obj, filled.obj));
            lemma_behind_on(l.obj, a.obj, filled.obj);
            lemma_unwind(
                l.obj,
                filled,
                section,
                crate::elf::reltypes::R_ARM_PREL31,
                false,
                relocs,
                0,
            );
        }
    }
}

proof fn lemma_shared_dwarf(
    base: ObjectModel,
    l: LinkageModel,
    stats: SharedDataStats,
    binary: Binary,
    name: Seq<char>,
    kind: SectionKind,
    start: Option<Seq<char>>,
)
    requires
        is_behind(base, l.obj),
        l.obj.sections.len() <= 100,
    ensures
        ({
            let next = with_shared_dwarf(l, stats, binary, name, kind, start).0;
            &&& is_behind(base, next.obj)
            &&& next.obj.sections.len() == l.obj.sections.len() + (if super::shared::has_bytes(
                binary,
                name,
            ) {
                1int
            } else {
                0
            })
        }),
{
    let next = with_shared_dwarf(l, stats, binary, name, kind, start).0;
    assert(is_behind(l.obj, next.obj));
    lemma_behind_on(base, l.obj, next.obj);
}

proof fn lemma_dwarf(
    l: LinkageModel,
    stats: SharedDataStats,
    binary: Binary,
    ranges: Seq<DwarfRelocView>,
    range_pairs: usize,
    locs: Seq<DwarfRelocView>,
    loc_pairs: usize,
)
    requires
        l.obj.sections.len() <= 20,
    ensures
        is_behind(
            l.obj,
            with_dwarf(l, stats, binary, ranges, range_pairs, locs, loc_pairs).0.obj,
        ),
{
    let o = l.obj;
    let n: Option<Seq<char>> = None;
    let dbg = SectionKind::Debug;
    let str_kind = SectionKind::DebugString;
    let s1 = Some("__delink_debug_str_start"@);
    let s2 = Some("__delink_debug_line_str_start"@);
    let s4 = Some("__delink_debug_ranges_start"@);
    let s5 = Some("__delink_debug_rnglists_start"@);
    let s6 = Some("__delink_debug_loc_start"@);
    let s7 = Some("__delink_debug_loclists_start"@);
    assert(is_behind(o, o));
    let a = with_shared_dwarf(l, stats, binary, ".debug_str"@, str_kind, s1);
    lemma_shared_dwarf(o, l, stats, binary, ".debug_str"@, str_kind, s1);
    let b = with_shared_dwarf(a.0, a.1, binary, ".debug_line_str"@, str_kind, s2);
    lemma_shared_dwarf(o, a.0, a.1, binary, ".debug_line_str"@, str_kind, s2);
    let head = with_shared_dwarf(b.0, b.1, binary, ".debug_str_offsets"@, dbg, n);
    lemma_shared_dwarf(o, b.0, b.1, binary, ".debug_str_offsets"@, dbg, n);
    assert(head == dwarf_head(l, stats, binary));
    let d = with_shared_dwarf(head.0, head.1, binary, ".debug_ranges"@, dbg, s4);
    lemma_shared_dwarf(o, head.0, head.1, binary, ".debug_ranges"@, dbg, s4);
    let middle = with_shared_dwarf(d.0, d.1, binary, ".debug_rnglists"@, dbg, s5);
    lemma_shared_dwarf(o, d.0, d.1, binary, ".debug_rnglists"@, dbg, s5);
    assert(middle == dwarf_middle(l, stats, binary));
    let f = with_shared_dwarf(middle.0, middle.1, binary, ".debug_loc"@, dbg, s6);
    lemma_shared_dwarf(o, middle.0, middle.1, binary, ".debug_loc"@, dbg, s6);
    let g = with_shared_dwarf(f.0, f.1, binary, ".debug_loclists"@, dbg, s7);
    lemma_shared_dwarf(o, f.0, f.1, binary, ".debug_loclists"@, dbg, s7);
    let all = with_shared_dwarf(g.0, g.1, binary, ".debug_addr"@, dbg, n);
    lemma_shared_dwarf(o, g.0, g.1, binary, ".debug_addr"@, dbg, n);
    assert(all == dwarf_sections(l, stats, binary));
    if binary.arch == Arch::Aarch64 {
        let rsec = head.0.obj.sections.len() as usize;
        let lsec = middle.0.obj.sections.len() as usize;
        let ranged = if super::shared::has_bytes(binary, ".debug_ranges"@) {
            lemma_dwarf_relocs(o, all.0, rsec, ranges, 0);
            with_dwarf_relocs(all.0, rsec, ranges, 0)
        } else {
            all.0
        };
        if super::shared::has_bytes(binary, ".debug_loc"@) {
            lemma_dwarf_relocs(o, ranged, lsec, locs, 0);
        }
    }
}

/// The slots of the shared object of an image.
pub open spec fn slots_of(binary: Binary) -> Seq<SlotModel> {
    data_sections(binary)->0.slots
}

/// What the dynamic relocations of an image become.
pub open spec fn queue_of(binary: Binary, symbols: GlobalSymbols) -> Seq<QueuedView> {
    with_dyns(
        QueueModel { queue: Seq::empty(), stats: data_stats(binary) },
        binary.arch,
        symbols,
        slots_of(binary),
        spec_all_dyn_relocs(binary)->0,
        0,
    ).queue
}

/// True when section `j` has the bytes of its slot: as they are but for the fields of
/// pointers on ARM, which hold the addends.
pub open spec fn has_slot_bytes(
    m: ObjectModel,
    arch: Arch,
    slots: Seq<SlotModel>,
    queue: Seq<QueuedView>,
    j: int,
) -> bool {
    &&& m.sections[j].data.len() == slots[j].data.len()
    &&& forall|b: int|
        0 <= b < slots[j].data.len() && (arch == Arch::Arm ==> !in_queue(queue, 0, j, b))
            ==> #[trigger] m.sections[j].data[b] == slots[j].data[b]
    &&& arch == Arch::Arm ==> forall|i: int|
        0 <= i < queue.len() && #[trigger] is_alone(queue, i) && queue[i].slot == j
            ==> holds_addend(m.sections[j].data, queue[i].offset as int, queue[i].addend)
}

/// The object for shared data has a section for each data section of the image, under its
/// name, with its bytes, and the symbol that stands for its start where pointers refer to
/// that. It installs what the dynamic relocations of the image install in those sections,
/// at the same places, and nothing else.
pub proof fn law_dynamic_relocations_are_installed(
    binary: Binary,
    symbols: GlobalSymbols,
    opts: SharedDataOptions,
    ranges: DwarfScan,
    locs: DwarfScan,
)
    requires
        shared_object(binary, symbols, opts, ranges, locs) is Ok,
        (shared_object(binary, symbols, opts, ranges, locs)->Ok_0).0.symbols.len() <= usize::MAX,
    ensures
        ({
            let m = (shared_object(binary, symbols, opts, ranges, locs)->Ok_0).0;
            let slots = slots_of(binary);
            let queue = queue_of(binary, symbols);
            let relocs = spec_all_dyn_relocs(binary)->0;
            &&& slots.len() <= m.sections.len()
            &&& has_data(m, slots, binary)
            &&& carries_all(binary.arch, symbols, slots, relocs, relocs.len() as int, queue)
            &&& installs_all(
                m,
                binary.arch,
                slots,
                queue,
                queue.len() as int,
                slots.len() as int,
            )
            &&& forall|j: int|
                0 <= j < slots.len() ==> #[trigger] has_slot_bytes(
                    m,
                    binary.arch,
                    slots,
                    queue,
                    j,
                )
        }),
{
    let m = (shared_object(binary, symbols, opts, ranges, locs)->Ok_0).0;
    let s = data_sections(binary)->0;
    let arch = binary.arch;
    let slots = s.slots;
    let keys = keys_between(symbols.variables@.dom(), 0, u64::MAX);
    let named = SharedModel {
        l: s.l.over(with_data_symbols(s.l.obj, keys, symbols.variables@, slots, 0)),
        ..s
    };
    let relocs = spec_all_dyn_relocs(binary)->0;
    let start = QueueModel { queue: Seq::empty(), stats: data_stats(binary) };
    let q = with_dyns(start, arch, symbols, slots, relocs, 0);
    let queue = q.queue;
    let t = with_queue(named, arch, queue, 0)->0;
    let filled = with_bytes(t.l, t.slots, 0);
    lemma_data_sections(binary);
    lemma_data_symbols(s.l.obj, keys, symbols.variables@, slots, 0);
    law_pointers_are_carried(start, arch, symbols, slots, relocs);
    assert forall|i: int| 0 <= i < queue.len() implies (#[trigger] queue[i]).slot
        < slots.len() by {
        assert(comes_from(arch, symbols, slots, relocs, relocs.len() as int, queue[i]));
    }
    lemma_queue_bytes(named, arch, queue, 0);
    lemma_queue_sections(named, arch, queue, 0);
    assert forall|j: int| 0 <= j < t.slots.len() implies (#[trigger] t.slots[j]).section == j by {
        assert(t.slots[j].section == named.slots[j].section);
        assert(slots[j].section == j);
    }
    assert forall|j: int| 0 <= j < t.slots.len() implies (
    #[trigger] t.l.obj.sections[j]).data.len() == 0 by {
        assert(t.l.obj.sections[j].data == named.l.obj.sections[j].data);
        assert(s.l.obj.sections[j].data.len() == 0);
    }
    lemma_bytes(t.l, t.slots, 0);
    let unwound = match arch {
        Arch::Aarch64 => with_eh_frame(filled, q.stats, binary, symbols),
        Arch::Arm => with_arm_unwind(filled, q.stats, binary, symbols),
    };
    match arch {
        Arch::Aarch64 => lemma_eh_frame(filled, q.stats, binary, symbols),
        Arch::Arm => lemma_arm_unwind(filled, q.stats, binary, symbols),
    }
    let (l, stats) = unwound->0;
    if opts.dwarf {
        lemma_dwarf(
            l,
            stats,
            binary,
            dwarf_views(ranges.relocs@),
            ranges.pairs,
            dwarf_views(locs.relocs@),
            locs.pairs,
        );
        lemma_behind_on(filled.obj, l.obj, m);
    }
    assert(is_behind(filled.obj, m));
    assert(t.l.obj.symbols.len() <= usize::MAX);
    assert(knows(named.l, as_is()));
    assert(same_places(slots, named.slots));
    assert(installs_all(
        named.l.obj,
        arch,
        slots,
        queue,
        0,
        named.l.obj.sections.len() as int,
    )) by {
        assert forall|sec: int, p: int|
            0 <= sec < named.l.obj.sections.len() && 0 <= p
                < named.l.obj.sections[sec].relocations.len() implies #[trigger] is_due(
            named.l.obj,
            arch,
            slots,
            queue,
            0,
            sec,
            p,
        ) by {
            assert(s.l.obj.sections[sec].relocations.len() == 0);
        }
    }
    lemma_queue(named, slots, arch, queue, 0);
    assert(extends(filled.obj, m)) by {
        assert forall|i: int, j: int|
            0 <= i < filled.obj.sections.len() && 0 <= j
                < filled.obj.sections[i].relocations.len() implies #[trigger] m.sections[i].relocations[j]
            == filled.obj.sections[i].relocations[j] by {
            assert(m.sections[i] == filled.obj.sections[i]);
        }
    }
    lemma_extends_on(t.l.obj, filled.obj, m);
    assert(extends(s.l.obj, named.l.obj));
    lemma_extends_on(s.l.obj, named.l.obj, t.l.obj);
    lemma_extends_on(s.l.obj, t.l.obj, m);
    assert forall|i: int| 0 <= i < queue.len() implies is_installed(
        m,
        arch,
        slots,
        #[trigger] queue[i],
    ) by {
        assert(is_installed(t.l.obj, arch, slots, queue[i]));
        let x = choose|x: int| #[trigger] installs(t.l.obj, arch, slots, queue[i], x);
        lemma_installs_stays(t.l.obj, m, arch, slots, queue[i], x);
    }
    assert forall|sec: int, p: int|
        0 <= sec < slots.len() && 0 <= p
            < m.sections[sec].relocations.len() implies #[trigger] is_due(
        m,
        arch,
        slots,
        queue,
        queue.len() as int,
        sec,
        p,
    ) by {
        assert(m.sections[sec] == filled.obj.sections[sec]);
        assert(filled.obj.sections[sec].relocations == t.l.obj.sections[sec].relocations);
        assert(is_due(t.l.obj, arch, slots, queue, queue.len() as int, sec, p));
        let i = choose|i: int|
            0 <= i < queue.len() && installs(t.l.obj, arch, slots, #[trigger] queue[i], p)
                && slots[queue[i].slot as int].section == sec;
        lemma_installs_stays(t.l.obj, m, arch, slots, queue[i], p);
        assert(installs(m, arch, slots, queue[i], p));
    }
    assert forall|j: int| 0 <= j < slots.len() implies #[trigger] has_slot_bytes(
        m,
        arch,
        slots,
        queue,
        j,
    ) by {
        assert(m.sections[j] == filled.obj.sections[j]);
        assert(filled.obj.sections[j].data == t.slots[j].data);
        assert(t.slots[j].data.len() == slots[j].data.len());
        assert forall|b: int|
            0 <= b < slots[j].data.len() && (arch == Arch::Arm ==> !in_queue(
                queue,
                0,
                j,
                b,
            )) implies #[trigger] m.sections[j].data[b] == slots[j].data[b] by {
            assert(m.sections[j].data[b] == t.slots[j].data[b]);
            if arch == Arch::Arm {
                assert(t.slots[j].data[b] == named.slots[j].data[b]);
            }
        }
    }
    lemma_has_data_stays(s.l.obj, m, slots, binary);
}

proof fn lemma_has_data_stays(
    a: ObjectModel,
    b: ObjectModel,
    slots: Seq<SlotModel>,
    binary: Binary,
)
    requires
        extends(a, b),
        has_data(a, slots, binary),
    ensures
        has_data(b, slots, binary),
{
    assert forall|name: Seq<char>, relocated: bool, start: Option<Seq<char>>, k: int| #[trigger]
        is_data(name, relocated, start) && #[trigger] is_first_called(binary, name, k) && (
        binary.sections@[k].data matches Some(x) && x@.len() > 0) implies exists|j: int| #[trigger]
        is_slot_of(b, slots, j, binary, name, k, relocated, start) by {
        let j = choose|j: int| #[trigger]
            is_slot_of(a, slots, j, binary, name, k, relocated, start);
        lemma_slot_stays(a, b, slots, slots, j, binary, name, k, relocated, start);
    }
    assert forall|k: int| #[trigger] is_first_called(binary, ".bss"@, k) implies exists|j: int|
        #[trigger]
        is_slot_of(b, slots, j, binary, ".bss"@, k, false, Some("__delink_bss_start"@)) by {
        let start = Some("__delink_bss_start"@);
        let j = choose|j: int| #[trigger]
            is_slot_of(a, slots, j, binary, ".bss"@, k, false, Some("__delink_bss_start"@));
        lemma_slot_stays(a, b, slots, slots, j, binary, ".bss"@, k, false, start);
    }
}

proof fn lemma_queue_sections(s: SharedModel, arch: Arch, queue: Seq<QueuedView>, n: int)
    requires
        0 <= n <= queue.len(),
        s.l.obj.format == ObjectFormat::Elf,
        with_queue(s, arch, queue, n) is Some,
        forall|i: int| 0 <= i < queue.len() ==> (#[trigger] queue[i]).slot < s.slots.len(),
        forall|j: int|
            0 <= j < s.slots.len() ==> (#[trigger] s.slots[j]).section < s.l.obj.sections.len(),
    ensures
        ({
            let end = with_queue(s, arch, queue, n)->0;
            &&& end.l.obj.sections.len() == s.l.obj.sections.len()
            &&& forall|k: int|
                0 <= k < s.l.obj.sections.len() ==> (#[trigger] end.l.obj.sections[k]).data
                    == s.l.obj.sections[k].data
        }),
    decreases queue.len() - n,
{
    if n < queue.len() {
        let next = with_queued(s, arch, queue[n])->0;
        assert(queue[n].slot < s.slots.len());
        assert(s.slots[queue[n].slot as int].section < s.l.obj.sections.len());
        assert forall|j: int| 0 <= j < next.slots.len() implies (
        #[trigger] next.slots[j]).section < next.l.obj.sections.len() by {
            assert(next.slots[j].section == s.slots[j].section);
        }
        lemma_queue_sections(next, arch, queue, n + 1);
        let end = with_queue(s, arch, queue, n)->0;
        assert forall|k: int| 0 <= k < s.l.obj.sections.len() implies (
        #[trigger] end.l.obj.sections[k]).data == s.l.obj.sections[k].data by {
            assert(next.l.obj.sections[k].data == s.l.obj.sections[k].data);
        }
    }
}

} // verus!
