//! The object for the data of an ELF image: its data sections with the dynamic
//! relocations translated, its unwind tables, and the DWARF information that the
//! units share.
use vstd::prelude::*;

use super::binary::{Binary};
use super::code::EmitError;
use super::dynrel::{
    dyn_reloc_views, read_all_dyn_relocs, spec_all_dyn_relocs, DynReloc, DynRelocView,
};
use super::emit::{
    attach_dwarf_relocs, dwarf_views, emitted, is_elf, machine_of, object_machine, unit_file,
    with_dwarf_relocs, DwarfReloc, DwarfRelocView,
};
use super::reltypes::{
    R_AARCH64_ABS64, R_AARCH64_GLOB_DAT, R_AARCH64_JUMP_SLOT, R_AARCH64_PREL32, R_AARCH64_RELATIVE,
    R_ARM_ABS32, R_ARM_GLOB_DAT, R_ARM_JUMP_SLOT, R_ARM_PREL31, R_ARM_RELATIVE, R_ARM_TARGET1,
};
use super::symbols::{
    enclosing, GlobalSymbols, VariableRef, SYM_BSS_START, SYM_DATA_REL_RO_LOCAL_START,
    SYM_DATA_REL_RO_START, SYM_DATA_START, SYM_RODATA_START,
};
use crate::arch::Arch;
use crate::arm::addend::{apply_addend, encoded, RelocKind};
use crate::bytes::{copy_range, le_bytes, le_value, patched, read_u32_le};
use crate::image::elf_section;
use crate::linkage::{Linkage, LinkageModel};
use crate::objfile::{
    symbol, ObjectFormat, ObjectModel, RelocationType, SectionKind, SymbolKind, SymbolModel,
};
use crate::ordered::{keys_between, keys_in_range, lemma_keys_between};
use crate::text::owned;
use crate::x86::resolution;

verus! {

broadcast use {
    vstd::std_specs::btree::group_btree_axioms,
    vstd::hash_map::group_hash_map_axioms,
};

/// Start of the ARM unwind entries in the object for shared data.
pub const SYM_ARM_EXTAB_START: &'static str = "__delink_arm_extab_start";

/// Type of ARM unwind index sections.
pub const SHT_ARM_EXIDX: u32 = 0x7000_0001;

/// Flag of sections that are loaded.
pub const SHF_ALLOC: u64 = 2;

/// What went into the object for shared data.
#[derive(Debug, Clone, Copy, PartialEq, Eq, Structural)]
pub struct SharedDataStats {
    pub rodata_bytes: u64,
    pub data_bytes: u64,
    pub data_rel_ro_bytes: u64,
    pub data_rel_ro_local_bytes: u64,
    pub init_array_bytes: u64,
    pub fini_array_bytes: u64,
    pub bss_bytes: u64,
    pub eh_frame_bytes: u64,
    pub arm_exidx_bytes: u64,
    pub arm_extab_bytes: u64,
    pub dwarf_shared_bytes: u64,
    pub debug_ranges_relocs: usize,
    pub debug_loc_relocs: usize,
    pub translated_relatives: usize,
    pub translated_abs64: usize,
    pub translated_glob_dat: usize,
    pub skipped_relocs: usize,
    pub unresolved_relocs: usize,
    pub fde_relocs: usize,
    pub exidx_relocs: usize,
}

/// Nothing emitted yet.
pub open spec fn no_shared_stats() -> SharedDataStats {
    SharedDataStats {
        rodata_bytes: 0,
        data_bytes: 0,
        data_rel_ro_bytes: 0,
        data_rel_ro_local_bytes: 0,
        init_array_bytes: 0,
        fini_array_bytes: 0,
        bss_bytes: 0,
        eh_frame_bytes: 0,
        arm_exidx_bytes: 0,
        arm_extab_bytes: 0,
        dwarf_shared_bytes: 0,
        debug_ranges_relocs: 0,
        debug_loc_relocs: 0,
        translated_relatives: 0,
        translated_abs64: 0,
        translated_glob_dat: 0,
        skipped_relocs: 0,
        unresolved_relocs: 0,
        fde_relocs: 0,
        exidx_relocs: 0,
    }
}

impl Default for SharedDataStats {
    fn default() -> (s: Self)
        ensures
            s == no_shared_stats(),
    {
        SharedDataStats {
            rodata_bytes: 0,
            data_bytes: 0,
            data_rel_ro_bytes: 0,
            data_rel_ro_local_bytes: 0,
            init_array_bytes: 0,
            fini_array_bytes: 0,
            bss_bytes: 0,
            eh_frame_bytes: 0,
            arm_exidx_bytes: 0,
            arm_extab_bytes: 0,
            dwarf_shared_bytes: 0,
            debug_ranges_relocs: 0,
            debug_loc_relocs: 0,
            translated_relatives: 0,
            translated_abs64: 0,
            translated_glob_dat: 0,
            skipped_relocs: 0,
            unresolved_relocs: 0,
            fde_relocs: 0,
            exidx_relocs: 0,
        }
    }
}

/// What to put into the object for shared data.
#[derive(Debug, Clone, Copy, PartialEq, Eq, Structural)]
pub struct SharedDataOptions {
    /// Take along the DWARF information that the units share.
    pub dwarf: bool,
}

/// A data section of the object, and the addresses that it stands for.
pub struct DataSlot {
    pub section: usize,
    pub vaddr: u64,
    pub size: u64,
    /// Dynamic relocations of the section are translated.
    pub needs_relocs: bool,
    /// The bytes of the section, which go into the object at the end: on ARM
    /// addends are written into them first.
    pub data: Vec<u8>,
}

/// A data section of the object, with its bytes.
#[verifier::ext_equal]
pub ghost struct SlotModel {
    pub section: usize,
    pub vaddr: u64,
    pub size: u64,
    pub needs_relocs: bool,
    pub data: Seq<u8>,
}

impl View for DataSlot {
    type V = SlotModel;

    open spec fn view(&self) -> SlotModel {
        SlotModel {
            section: self.section,
            vaddr: self.vaddr,
            size: self.size,
            needs_relocs: self.needs_relocs,
            data: self.data@,
        }
    }
}

/// Data sections, with their bytes.
pub open spec fn slot_views(v: Seq<DataSlot>) -> Seq<SlotModel> {
    v.map_values(|s: DataSlot| s@)
}

/// The object for shared data, as far as it is built.
#[verifier::ext_equal]
pub ghost struct SharedModel {
    pub l: LinkageModel,
    pub slots: Seq<SlotModel>,
}

/// With a symbol at the start of a section.
pub open spec fn with_start(m: ObjectModel, section: usize, name: Seq<char>) -> ObjectModel {
    m.with_symbol(symbol(name, 0, 0, SymbolKind::Data, true, false, Some(section)))
}

/// Length of the section that `name` stands for; 0 where its bytes are not there.
pub open spec fn section_len(binary: Binary, name: Seq<char>) -> u64 {
    match binary.spec_section_data(name) {
        Some(d) => d.len() as u64,
        None => 0,
    }
}

/// With the section that `name` stands for, unless it is missing or empty, and a
/// symbol at its start. Nothing where its bytes cannot be read.
pub open spec fn with_pending(
    s: SharedModel,
    binary: Binary,
    name: Seq<char>,
    kind: SectionKind,
    start: Option<Seq<char>>,
    needs_relocs: bool,
) -> Option<SharedModel> {
    match elf_section(binary.sections@, name) {
        None => Some(s),
        Some(k) => {
            let from = binary.sections@[k];
            match from.data {
                None => None,
                Some(data) => if data@.len() == 0 {
                    Some(s)
                } else {
                    let section = s.l.obj.sections.len() as usize;
                    let opened = s.l.obj.with_section(""@, name, kind);
                    Some(
                        SharedModel {
                            l: s.l.over(
                                match start {
                                    Some(sym) => with_start(opened, section, sym),
                                    None => opened,
                                },
                            ),
                            slots: s.slots.push(
                                SlotModel {
                                    section,
                                    vaddr: from.addr,
                                    size: from.size,
                                    needs_relocs,
                                    data: data@,
                                },
                            ),
                        },
                    )
                },
            }
        },
    }
}

/// With the zero-filled data, where the image has any.
pub open spec fn with_bss(s: SharedModel, binary: Binary) -> SharedModel {
    match elf_section(binary.sections@, ".bss"@) {
        None => s,
        Some(k) => {
            let from = binary.sections@[k];
            let section = s.l.obj.sections.len() as usize;
            SharedModel {
                l: s.l.over(
                    with_start(
                        s.l.obj.with_section(
                            ""@,
                            ".bss"@,
                            SectionKind::UninitializedData,
                        ).with_bss(section as nat, from.size, 16),
                        section,
                        SYM_BSS_START@,
                    ),
                ),
                slots: s.slots.push(
                    SlotModel {
                        section,
                        vaddr: from.addr,
                        size: from.size,
                        needs_relocs: false,
                        data: Seq::empty(),
                    },
                ),
            }
        },
    }
}

/// The data sections of an image in an object, still without their bytes; nothing
/// where one of them cannot be read.
pub open spec fn data_sections(binary: Binary) -> Option<SharedModel> {
    let empty = SharedModel {
        l: LinkageModel::empty(ObjectFormat::Elf, machine_of(binary.arch)),
        slots: Seq::empty(),
    };
    match with_pending(
        empty,
        binary,
        ".rodata"@,
        SectionKind::ReadOnlyData,
        Some(SYM_RODATA_START@),
        false,
    ) {
        None => None,
        Some(a) => match with_pending(
            a,
            binary,
            ".data"@,
            SectionKind::Data,
            Some(SYM_DATA_START@),
            true,
        ) {
            None => None,
            Some(b) => match with_pending(
                b,
                binary,
                ".data.rel.ro"@,
                SectionKind::ReadOnlyDataWithRel,
                Some(SYM_DATA_REL_RO_START@),
                true,
            ) {
                None => None,
                Some(c) => match with_pending(
                    c,
                    binary,
                    ".data.rel.ro.local"@,
                    SectionKind::ReadOnlyDataWithRel,
                    Some(SYM_DATA_REL_RO_LOCAL_START@),
                    true,
                ) {
                    None => None,
                    Some(d) => match with_pending(
                        d,
                        binary,
                        ".init_array"@,
                        SectionKind::Data,
                        None,
                        true,
                    ) {
                        None => None,
                        Some(e) => match with_pending(
                            e,
                            binary,
                            ".fini_array"@,
                            SectionKind::Data,
                            None,
                            true,
                        ) {
                            None => None,
                            Some(f) => Some(with_bss(f, binary)),
                        },
                    },
                },
            },
        },
    }
}

/// Slots are in sections of the object, and those with bytes in sections that can
/// hold them.
pub open spec fn slots_fit(slots: Seq<SlotModel>, m: ObjectModel) -> bool {
    forall|i: int|
        0 <= i < slots.len() ==> (#[trigger] slots[i]).section < m.sections.len() && (
        slots[i].data.len() > 0 ==> m.sections[slots[i].section as int].kind
            != SectionKind::UninitializedData)
}

struct Shared {
    l: Linkage,
    slots: Vec<DataSlot>,
}

impl View for Shared {
    type V = SharedModel;

    closed spec fn view(&self) -> SharedModel {
        SharedModel { l: self.l@, slots: slot_views(self.slots@) }
    }
}

spec fn shared_wf(s: Shared, arch: Arch) -> bool {
    &&& s.l.wf()
    &&& is_elf(s.l@.obj, arch)
    &&& slots_fit(s@.slots, s.l@.obj)
}

fn add_pending(
    s: &mut Shared,
    binary: &Binary,
    name: &str,
    kind: SectionKind,
    start: Option<&str>,
    needs_relocs: bool,
) -> (r: Option<u64>)
    requires
        shared_wf(*old(s), binary.arch),
        kind != SectionKind::UninitializedData,
    ensures
        shared_wf(*final(s), binary.arch),
        ({
            let next = with_pending(
                old(s)@,
                *binary,
                name@,
                kind,
                match start {
                    Some(x) => Some(x@),
                    None => None,
                },
                needs_relocs,
            );
            match r {
                Some(n) => next == Some(final(s)@) && n == section_len(*binary, name@),
                None => next is None,
            }
        }),
{
    let from = match binary.section(name) {
        Some(x) => x,
        None => return Some(0),
    };
    let data = match &from.data {
        Some(d) => d,
        None => return None,
    };
    if data.len() == 0 {
        return Some(0);
    }
    let ghost before = *s;
    proof {
        s.l.obj.lemma_wf();
    }
    let section = s.l.obj.add_section("", name, kind);
    if let Some(sym) = start {
        s.l.obj.add_symbol(sym, 0, 0, SymbolKind::Data, true, false, Some(section));
    }
    let n: usize = data.len();
    let bytes = copy_range(data.as_slice(), 0, n);
    assert(bytes@ =~= data@);
    let slot = DataSlot { section, vaddr: from.addr, size: from.size, needs_relocs, data: bytes };
    let ghost view = slot@;
    s.slots.push(slot);
    proof {
        assert(slot_views(s.slots@) =~= slot_views(before.slots@).push(view));
        lemma_slots_pushed(before@.slots, before.l@.obj, view, s.l@.obj);
    }
    Some(n as u64)
}

proof fn lemma_slots_pushed(
    slots: Seq<SlotModel>,
    m: ObjectModel,
    slot: SlotModel,
    n: ObjectModel,
)
    requires
        slots_fit(slots, m),
        m.sections.len() <= n.sections.len(),
        forall|i: int| 0 <= i < m.sections.len() ==> n.sections[i].kind == (#[trigger] m.sections[i]).kind,
        slot.section < n.sections.len(),
        slot.data.len() > 0 ==> n.sections[slot.section as int].kind
            != SectionKind::UninitializedData,
    ensures
        slots_fit(slots.push(slot), n),
{
    let all = slots.push(slot);
    assert forall|i: int| 0 <= i < all.len() implies (#[trigger] all[i]).section < n.sections.len()
        && (all[i].data.len() > 0 ==> n.sections[all[i].section as int].kind
        != SectionKind::UninitializedData) by {
        if i < slots.len() {
            assert(all[i] == slots[i]);
            assert(m.sections[slots[i].section as int].kind
                == n.sections[slots[i].section as int].kind);
        }
    }
}

fn add_bss(s: &mut Shared, binary: &Binary) -> (size: u64)
    requires
        shared_wf(*old(s), binary.arch),
    ensures
        shared_wf(*final(s), binary.arch),
        final(s)@ == with_bss(old(s)@, *binary),
        size == (match elf_section(binary.sections@, ".bss"@) {
            Some(k) => binary.sections@[k].size,
            None => 0,
        }),
{
    let from = match binary.section(".bss") {
        Some(x) => x,
        None => return 0,
    };
    let ghost before = *s;
    proof {
        s.l.obj.lemma_wf();
    }
    let section = s.l.obj.add_section("", ".bss", SectionKind::UninitializedData);
    s.l.obj.append_bss(section, from.size, 16);
    s.l.obj.add_symbol(SYM_BSS_START, 0, 0, SymbolKind::Data, true, false, Some(section));
    let slot = DataSlot {
        section,
        vaddr: from.addr,
        size: from.size,
        needs_relocs: false,
        data: Vec::new(),
    };
    let ghost view = slot@;
    assert(view.data =~= Seq::empty());
    s.slots.push(slot);
    proof {
        assert(slot_views(s.slots@) =~= slot_views(before.slots@).push(view));
        lemma_slots_pushed(before@.slots, before.l@.obj, view, s.l@.obj);
    }
    from.size
}

/// Index, from `i` on, of the first slot that holds `addr` and, where `relocated`,
/// has its relocations translated.
pub open spec fn slot_index(slots: Seq<SlotModel>, addr: u64, relocated: bool, i: int) -> Option<int>
    decreases slots.len() - i,
{
    if i < 0 || i >= slots.len() {
        None
    } else if (relocated ==> slots[i].needs_relocs) && slots[i].vaddr <= addr < slots[i].vaddr
        + slots[i].size {
        Some(i)
    } else {
        slot_index(slots, addr, relocated, i + 1)
    }
}

fn find_slot(slots: &Vec<DataSlot>, addr: u64, relocated: bool) -> (r: Option<usize>)
    ensures
        match r {
            Some(k) => k < slots@.len() && slot_index(slot_views(slots@), addr, relocated, 0)
                == Some(k as int) && slots@[k as int].vaddr <= addr,
            None => slot_index(slot_views(slots@), addr, relocated, 0) is None,
        },
{
    let ghost views = slot_views(slots@);
    let mut i: usize = 0;
    while i < slots.len()
        invariant
            i <= slots@.len(),
            views == slot_views(slots@),
            slot_index(views, addr, relocated, 0) == slot_index(views, addr, relocated, i as int),
        decreases slots@.len() - i,
    {
        let s = &slots[i];
        assert(views[i as int] == s@);
        if (!relocated || s.needs_relocs) && s.vaddr <= addr && addr - s.vaddr < s.size {
            return Some(i);
        }
        i = i + 1;
    }
    None
}

/// With a symbol for each datum, from key `i` on, in the section that holds it.
/// All are visible: this object is the one place where data are defined.
pub open spec fn with_data_symbols(
    m: ObjectModel,
    keys: Seq<u64>,
    variables: Map<u64, VariableRef>,
    slots: Seq<SlotModel>,
    i: int,
) -> ObjectModel
    decreases keys.len() - i,
{
    if i < 0 || i >= keys.len() {
        m
    } else {
        let addr = keys[i];
        let name = variables[addr]@.export_name();
        with_data_symbols(
            match slot_index(slots, addr, false, 0) {
                Some(k) => if name.len() == 0 {
                    m
                } else {
                    m.with_symbol(
                        symbol(
                            name,
                            (addr - slots[k].vaddr) as u64,
                            0,
                            SymbolKind::Data,
                            true,
                            false,
                            Some(slots[k].section),
                        ),
                    )
                },
                None => m,
            },
            keys,
            variables,
            slots,
            i + 1,
        )
    }
}

/// True when an object defines the datum at `addr` for all others: under `name`, in
/// the section of `slot`, as far from its start as in the image.
pub open spec fn defines(m: ObjectModel, name: Seq<char>, addr: u64, slot: SlotModel) -> bool {
    m.symbols.contains(
        symbol(
            name,
            (addr - slot.vaddr) as u64,
            0,
            SymbolKind::Data,
            true,
            false,
            Some(slot.section),
        ),
    )
}

proof fn lemma_symbols_stay(
    m: ObjectModel,
    keys: Seq<u64>,
    variables: Map<u64, VariableRef>,
    slots: Seq<SlotModel>,
    i: int,
    x: SymbolModel,
)
    requires
        0 <= i,
        m.symbols.contains(x),
    ensures
        with_data_symbols(m, keys, variables, slots, i).symbols.contains(x),
    decreases keys.len() - i,
{
    if i < keys.len() {
        let k = choose|k: int| 0 <= k < m.symbols.len() && m.symbols[k] == x;
        let addr = keys[i];
        let name = variables[addr]@.export_name();
        if slot_index(slots, addr, false, 0) is Some && name.len() > 0 {
            let slot = slots[slot_index(slots, addr, false, 0)->0];
            let next = m.with_symbol(
                symbol(
                    name,
                    (addr - slot.vaddr) as u64,
                    0,
                    SymbolKind::Data,
                    true,
                    false,
                    Some(slot.section),
                ),
            );
            assert(next.symbols[k] == x);
            lemma_symbols_stay(next, keys, variables, slots, i + 1, x);
        } else {
            lemma_symbols_stay(m, keys, variables, slots, i + 1, x);
        }
    }
}

proof fn lemma_data_are_defined(
    m: ObjectModel,
    keys: Seq<u64>,
    variables: Map<u64, VariableRef>,
    slots: Seq<SlotModel>,
    i: int,
    k: int,
)
    requires
        m.format == ObjectFormat::Elf,
        0 <= i <= k < keys.len(),
        slot_index(slots, keys[k], false, 0) is Some,
        variables[keys[k]]@.export_name().len() > 0,
    ensures
        defines(
            with_data_symbols(m, keys, variables, slots, i),
            variables[keys[k]]@.export_name(),
            keys[k],
            slots[slot_index(slots, keys[k], false, 0)->0],
        ),
    decreases k - i,
{
    let addr = keys[i];
    let name = variables[addr]@.export_name();
    let next = match slot_index(slots, addr, false, 0) {
        Some(j) => if name.len() == 0 {
            m
        } else {
            m.with_symbol(
                symbol(
                    name,
                    (addr - slots[j].vaddr) as u64,
                    0,
                    SymbolKind::Data,
                    true,
                    false,
                    Some(slots[j].section),
                ),
            )
        },
        None => m,
    };
    if i < k {
        lemma_data_are_defined(next, keys, variables, slots, i + 1, k);
    } else {
        let x = next.symbols.last();
        assert(next.symbols[next.symbols.len() - 1] == x);
        lemma_symbols_stay(next, keys, variables, slots, i + 1, x);
    }
}

/// Every datum with a name that lies in a data section is defined there.
pub proof fn law_data_are_defined(
    m: ObjectModel,
    symbols: GlobalSymbols,
    slots: Seq<SlotModel>,
    addr: u64,
)
    requires
        m.format == ObjectFormat::Elf,
        symbols.variables@.contains_key(addr),
        symbols.variables@[addr]@.export_name().len() > 0,
        slot_index(slots, addr, false, 0) is Some,
    ensures
        defines(
            with_data_symbols(
                m,
                keys_between(symbols.variables@.dom(), 0, u64::MAX),
                symbols.variables@,
                slots,
                0,
            ),
            symbols.variables@[addr]@.export_name(),
            addr,
            slots[slot_index(slots, addr, false, 0)->0],
        ),
{
    let keys = keys_between(symbols.variables@.dom(), 0, u64::MAX);
    lemma_keys_between(symbols.variables@.dom(), 0, u64::MAX);
    assert(keys.contains(addr));
    let k = choose|k: int| 0 <= k < keys.len() && keys[k] == addr;
    lemma_data_are_defined(m, keys, symbols.variables@, slots, 0, k);
}

fn add_data_symbols(s: &mut Shared, symbols: &GlobalSymbols, Ghost(arch): Ghost<Arch>)
    requires
        shared_wf(*old(s), arch),
    ensures
        shared_wf(*final(s), arch),
        final(s)@ == (SharedModel {
            l: old(s)@.l.over(
                with_data_symbols(
                    old(s)@.l.obj,
                    keys_between(symbols.variables@.dom(), 0, u64::MAX),
                    symbols.variables@,
                    old(s)@.slots,
                    0,
                ),
            ),
            ..old(s)@
        }),
{
    let variables = &symbols.variables;
    let keys = keys_in_range(variables, 0, u64::MAX);
    proof {
        lemma_keys_between(variables@.dom(), 0, u64::MAX);
        assert forall|j: int| 0 <= j < keys@.len() implies variables@.dom().contains(
            #[trigger] keys@[j],
        ) by {
            assert(keys_between(variables@.dom(), 0, u64::MAX).contains(keys@[j]));
        }
    }
    let mut i: usize = 0;
    while i < keys.len()
        invariant
            shared_wf(*s, arch),
            s.slots@ == old(s).slots@,
            s@.l == old(s)@.l.over(s@.l.obj),
            i <= keys@.len(),
            forall|j: int|
                0 <= j < keys@.len() ==> variables@.dom().contains(#[trigger] keys@[j]),
            with_data_symbols(old(s)@.l.obj, keys@, variables@, s@.slots, 0) == with_data_symbols(
                s@.l.obj,
                keys@,
                variables@,
                s@.slots,
                i as int,
            ),
        decreases keys@.len() - i,
    {
        let addr = keys[i];
        if let Some(k) = find_slot(&s.slots, addr, false) {
            if let Some(v) = variables.get(&addr) {
                let name = v.export_name();
                if name.unicode_len() > 0 {
                    let section = s.slots[k].section;
                    let value: u64 = addr - s.slots[k].vaddr;
                    assert(s@.slots[k as int] == s.slots@[k as int]@);
                    s.l.obj.add_symbol(
                        name,
                        value,
                        0,
                        SymbolKind::Data,
                        true,
                        false,
                        Some(section),
                    );
                }
            }
        }
        i = i + 1;
    }
}

/// What a dynamic relocation does.
#[derive(Debug, Clone, Copy, PartialEq, Eq, Structural)]
pub enum DynClass {
    /// Installs an address of the image itself.
    Relative,
    /// Installs the address of a symbol.
    Abs,
    /// Installs the address of a symbol in the global offset table.
    GlobDat,
    JumpSlot,
    Other,
}

/// What a dynamic relocation of this type does.
pub open spec fn class_of(arch: Arch, r_type: u32) -> DynClass {
    match arch {
        Arch::Aarch64 => if r_type == R_AARCH64_RELATIVE {
            DynClass::Relative
        } else if r_type == R_AARCH64_ABS64 {
            DynClass::Abs
        } else if r_type == R_AARCH64_GLOB_DAT {
            DynClass::GlobDat
        } else if r_type == R_AARCH64_JUMP_SLOT {
            DynClass::JumpSlot
        } else {
            DynClass::Other
        },
        Arch::Arm => if r_type == R_ARM_RELATIVE {
            DynClass::Relative
        } else if r_type == R_ARM_ABS32 || r_type == R_ARM_TARGET1 {
            DynClass::Abs
        } else if r_type == R_ARM_GLOB_DAT {
            DynClass::GlobDat
        } else if r_type == R_ARM_JUMP_SLOT {
            DynClass::JumpSlot
        } else {
            DynClass::Other
        },
    }
}

/// Tells what a dynamic relocation does.
pub fn classify_dyn_reloc(arch: Arch, r_type: u32) -> (c: DynClass)
    ensures
        c == class_of(arch, r_type),
{
    match arch {
        Arch::Aarch64 => if r_type == R_AARCH64_RELATIVE {
            DynClass::Relative
        } else if r_type == R_AARCH64_ABS64 {
            DynClass::Abs
        } else if r_type == R_AARCH64_GLOB_DAT {
            DynClass::GlobDat
        } else if r_type == R_AARCH64_JUMP_SLOT {
            DynClass::JumpSlot
        } else {
            DynClass::Other
        },
        Arch::Arm => if r_type == R_ARM_RELATIVE {
            DynClass::Relative
        } else if r_type == R_ARM_ABS32 || r_type == R_ARM_TARGET1 {
            DynClass::Abs
        } else if r_type == R_ARM_GLOB_DAT {
            DynClass::GlobDat
        } else if r_type == R_ARM_JUMP_SLOT {
            DynClass::JumpSlot
        } else {
            DynClass::Other
        },
    }
}

/// The function at `addr`, or that has `addr` in its body.
pub open spec fn function_target(symbols: GlobalSymbols, addr: u64) -> Option<(Seq<char>, i64)> {
    if symbols.functions@.contains_key(addr) {
        Some((symbols.functions@[addr]@.export_name(), 0))
    } else {
        match enclosing(symbols.functions@, addr) {
            Some(start) => Some(
                (symbols.functions@[start]@.export_name(), (addr - start) as u64 as i64),
            ),
            None => None,
        }
    }
}

fn fde_resolve_target(symbols: &GlobalSymbols, addr: u64) -> (r: Option<(String, i64)>)
    ensures
        resolution(r) == function_target(*symbols, addr),
{
    if let Some(f) = symbols.functions.get(&addr) {
        return Some((owned(f.export_name()), 0));
    }
    match symbols.resolve_into(addr) {
        Some((f, offset)) => Some((owned(f.export_name()), offset as i64)),
        None => None,
    }
}

/// What an address stands for: a function, a datum, a place inside a function, or
/// else what [`GlobalSymbols::resolve_data`] makes of it.
pub open spec fn target_name(symbols: GlobalSymbols, addr: u64) -> Option<(Seq<char>, i64)> {
    if symbols.functions@.contains_key(addr) {
        Some((symbols.functions@[addr]@.export_name(), 0))
    } else if symbols.variables@.contains_key(addr) {
        Some((symbols.variables@[addr]@.export_name(), 0))
    } else if enclosing(symbols.functions@, addr) is Some {
        function_target(symbols, addr)
    } else {
        match symbols.spec_resolve_data(addr) {
            Some(d) => Some((d.symbol, d.addend)),
            None => None,
        }
    }
}

fn resolve_target_name(symbols: &GlobalSymbols, addr: u64) -> (r: Option<(String, i64)>)
    ensures
        resolution(r) == target_name(*symbols, addr),
{
    if let Some(f) = symbols.functions.get(&addr) {
        return Some((owned(f.export_name()), 0));
    }
    if let Some(v) = symbols.variables.get(&addr) {
        return Some((owned(v.export_name()), 0));
    }
    if let Some((f, offset)) = symbols.resolve_into(addr) {
        return Some((owned(f.export_name()), offset as i64));
    }
    match symbols.resolve_data(addr) {
        Some(d) => Some((d.symbol, d.addend)),
        None => None,
    }
}

/// A relocation for the object.
pub struct Queued {
    pub slot: usize,
    pub offset: u64,
    pub name: String,
    pub addend: i64,
}

/// A relocation for the object, with its symbol as text.
pub ghost struct QueuedView {
    pub slot: usize,
    pub offset: u64,
    pub name: Seq<char>,
    pub addend: i64,
}

impl View for Queued {
    type V = QueuedView;

    open spec fn view(&self) -> QueuedView {
        QueuedView { slot: self.slot, offset: self.offset, name: self.name@, addend: self.addend }
    }
}

/// Relocations for the object, with their symbols as text.
pub open spec fn queued_views(v: Seq<Queued>) -> Seq<QueuedView> {
    v.map_values(|q: Queued| q@)
}

/// Relocations for the object, and counts of what became of the dynamic ones.
#[verifier::ext_equal]
pub ghost struct QueueModel {
    pub queue: Seq<QueuedView>,
    pub stats: SharedDataStats,
}

/// What a dynamic relocation of a class refers to.
pub open spec fn translated(symbols: GlobalSymbols, class: DynClass, r: DynRelocView) -> Option<
    (Seq<char>, i64),
> {
    if class == DynClass::Relative {
        target_name(symbols, r.r_addend as u64)
    } else {
        Some((r.sym_name, r.r_addend))
    }
}

/// With a dynamic relocation. Those outside the sections, and those that concern
/// the procedure linkage table, are skipped.
pub open spec fn with_dyn(
    q: QueueModel,
    arch: Arch,
    symbols: GlobalSymbols,
    slots: Seq<SlotModel>,
    r: DynRelocView,
) -> QueueModel {
    let class = class_of(arch, r.r_type);
    let skipped = QueueModel {
        stats: SharedDataStats {
            skipped_relocs: q.stats.skipped_relocs.wrapping_add(1),
            ..q.stats
        },
        ..q
    };
    let unresolved = QueueModel {
        stats: SharedDataStats {
            unresolved_relocs: q.stats.unresolved_relocs.wrapping_add(1),
            ..q.stats
        },
        ..q
    };
    match slot_index(slots, r.r_offset, true, 0) {
        None => skipped,
        Some(k) => if class == DynClass::JumpSlot || class == DynClass::Other {
            skipped
        } else {
            match translated(symbols, class, r) {
                None => unresolved,
                Some((name, addend)) => if name.len() == 0 {
                    unresolved
                } else {
                    QueueModel {
                        queue: q.queue.push(
                            QueuedView {
                                slot: k as usize,
                                offset: (r.r_offset - slots[k].vaddr) as u64,
                                name,
                                addend,
                            },
                        ),
                        stats: match class {
                            DynClass::Relative => SharedDataStats {
                                translated_relatives: q.stats.translated_relatives.wrapping_add(1),
                                ..q.stats
                            },
                            DynClass::Abs => SharedDataStats {
                                translated_abs64: q.stats.translated_abs64.wrapping_add(1),
                                ..q.stats
                            },
                            DynClass::GlobDat => SharedDataStats {
                                translated_glob_dat: q.stats.translated_glob_dat.wrapping_add(1),
                                ..q.stats
                            },
                            _ => q.stats,
                        },
                    }
                },
            }
        },
    }
}

/// With the dynamic relocations from `i` on.
pub open spec fn with_dyns(
    q: QueueModel,
    arch: Arch,
    symbols: GlobalSymbols,
    slots: Seq<SlotModel>,
    relocs: Seq<DynRelocView>,
    i: int,
) -> QueueModel
    decreases relocs.len() - i,
{
    if i < 0 || i >= relocs.len() {
        q
    } else {
        with_dyns(with_dyn(q, arch, symbols, slots, relocs[i]), arch, symbols, slots, relocs, i + 1)
    }
}

/// Relocations of the queue are for slots.
pub open spec fn queue_fits(queue: Seq<QueuedView>, n: nat) -> bool {
    forall|i: int| 0 <= i < queue.len() ==> (#[trigger] queue[i]).slot < n
}

fn translate_one(
    queue: &mut Vec<Queued>,
    stats: &mut SharedDataStats,
    arch: Arch,
    symbols: &GlobalSymbols,
    slots: &Vec<DataSlot>,
    r: &DynReloc,
)
    requires
        queue_fits(queued_views(old(queue)@), slots@.len()),
    ensures
        queue_fits(queued_views(final(queue)@), slots@.len()),
        (QueueModel { queue: queued_views(final(queue)@), stats: *final(stats) }) == with_dyn(
            (QueueModel { queue: queued_views(old(queue)@), stats: *old(stats) }),
            arch,
            *symbols,
            slot_views(slots@),
            r@,
        ),
{
    let k = match find_slot(slots, r.r_offset, true) {
        Some(k) => k,
        None => {
            stats.skipped_relocs = stats.skipped_relocs.wrapping_add(1);
            return ;
        },
    };
    let class = classify_dyn_reloc(arch, r.r_type);
    let found: Option<(String, i64)> = match class {
        DynClass::Relative => resolve_target_name(symbols, r.r_addend as u64),
        DynClass::Abs | DynClass::GlobDat => Some((r.sym_name.clone(), r.r_addend)),
        DynClass::JumpSlot | DynClass::Other => {
            stats.skipped_relocs = stats.skipped_relocs.wrapping_add(1);
            return ;
        },
    };
    let (name, addend): (String, i64) = match found {
        Some((n, a)) => (n, a),
        None => {
            stats.unresolved_relocs = stats.unresolved_relocs.wrapping_add(1);
            return ;
        },
    };
    if name.as_str().unicode_len() == 0 {
        stats.unresolved_relocs = stats.unresolved_relocs.wrapping_add(1);
        return ;
    }
    let ghost before = queue@;
    assert(slot_views(slots@)[k as int] == slots@[k as int]@);
    let q = Queued { slot: k, offset: r.r_offset - slots[k].vaddr, name, addend };
    let ghost view = q@;
    queue.push(q);
    assert(queued_views(queue@) =~= queued_views(before).push(view));
    match class {
        DynClass::Relative => {
            stats.translated_relatives = stats.translated_relatives.wrapping_add(1);
        },
        DynClass::Abs => {
            stats.translated_abs64 = stats.translated_abs64.wrapping_add(1);
        },
        DynClass::GlobDat => {
            stats.translated_glob_dat = stats.translated_glob_dat.wrapping_add(1);
        },
        _ => {},
    }
}

fn translate_all(
    stats: &mut SharedDataStats,
    arch: Arch,
    symbols: &GlobalSymbols,
    slots: &Vec<DataSlot>,
    relocs: &Vec<DynReloc>,
) -> (queue: Vec<Queued>)
    ensures
        queue_fits(queued_views(queue@), slots@.len()),
        (QueueModel { queue: queued_views(queue@), stats: *final(stats) }) == with_dyns(
            (QueueModel { queue: Seq::empty(), stats: *old(stats) }),
            arch,
            *symbols,
            slot_views(slots@),
            dyn_reloc_views(relocs@),
            0,
        ),
{
    let ghost views = dyn_reloc_views(relocs@);
    let ghost start = QueueModel { queue: Seq::empty(), stats: *stats };
    let mut queue: Vec<Queued> = Vec::new();
    assert(queued_views(queue@) =~= Seq::empty());
    let mut i: usize = 0;
    while i < relocs.len()
        invariant
            i <= relocs@.len(),
            views == dyn_reloc_views(relocs@),
            queue_fits(queued_views(queue@), slots@.len()),
            with_dyns(start, arch, *symbols, slot_views(slots@), views, 0) == with_dyns(
                QueueModel { queue: queued_views(queue@), stats: *stats },
                arch,
                *symbols,
                slot_views(slots@),
                views,
                i as int,
            ),
        decreases relocs@.len() - i,
    {
        assert(views[i as int] == relocs@[i as int]@);
        translate_one(&mut queue, stats, arch, symbols, slots, &relocs[i]);
        i = i + 1;
    }
    queue
}

/// The relocation type of a pointer.
pub open spec fn pointer_type(arch: Arch) -> u32 {
    match arch {
        Arch::Aarch64 => R_AARCH64_ABS64,
        Arch::Arm => R_ARM_ABS32,
    }
}

/// With a relocation of the queue. On ARM its addend replaces what the field held;
/// nothing where the field lies outside the section's bytes.
pub open spec fn with_queued(s: SharedModel, arch: Arch, q: QueuedView) -> Option<SharedModel> {
    let slot = s.slots[q.slot as int];
    let m = s.l.with_undef(q.name, q.name, SymbolKind::Unknown);
    let added = m.over(
        m.obj.with_relocation(
            slot.section as nat,
            q.offset,
            s.l.undef_number(q.name) as nat,
            RelocationType::Elf(pointer_type(arch)),
            if arch == Arch::Aarch64 {
                q.addend as int
            } else {
                0
            },
        ),
    );
    if arch == Arch::Aarch64 {
        Some(SharedModel { l: added, ..s })
    } else if q.offset + 4 > slot.data.len() {
        None
    } else {
        Some(
            SharedModel {
                l: added,
                slots: s.slots.update(
                    q.slot as int,
                    SlotModel {
                        data: patched(
                            slot.data,
                            q.offset as int,
                            le_bytes(q.addend as i32 as u32 as int, 4),
                        ),
                        ..slot
                    },
                ),
            },
        )
    }
}

/// With the relocations of the queue from `i` on.
pub open spec fn with_queue(s: SharedModel, arch: Arch, queue: Seq<QueuedView>, i: int) -> Option<
    SharedModel,
>
    decreases queue.len() - i,
{
    if i < 0 || i >= queue.len() {
        Some(s)
    } else {
        match with_queued(s, arch, queue[i]) {
            None => None,
            Some(next) => with_queue(next, arch, queue, i + 1),
        }
    }
}

fn add_queued(s: &mut Shared, arch: Arch, q: &Queued) -> (ok: bool)
    requires
        shared_wf(*old(s), arch),
        q.slot < old(s)@.slots.len(),
    ensures
        shared_wf(*final(s), arch),
        final(s)@.slots.len() == old(s)@.slots.len(),
        ok == (with_queued(old(s)@, arch, q@) is Some),
        ok ==> with_queued(old(s)@, arch, q@) == Some(final(s)@),
{
    let ghost before = *s;
    assert(s@.slots[q.slot as int] == s.slots@[q.slot as int]@);
    let section: usize = s.slots[q.slot].section;
    let sym = s.l.undefined(q.name.as_str(), q.name.as_str(), SymbolKind::Unknown);
    let (kind, addend): (u32, i64) = if arch.uses_rela() {
        (R_AARCH64_ABS64, q.addend)
    } else {
        let n: usize = s.slots[q.slot].data.len();
        if q.offset > n as u64 {
            assert(slot_views(s.slots@) == before@.slots);
            return false;
        }
        let at: usize = q.offset as usize;
        let ghost data = s.slots@[q.slot as int].data@;
        match apply_addend(RelocKind::Abs32, &mut s.slots[q.slot].data, at, q.addend) {
            Ok(_) => {},
            Err(_) => {
                assert(slot_views(s.slots@) =~= before@.slots);
                return false;
            },
        }
        let ghost slot = before@.slots[q.slot as int];
        assert(slot_views(s.slots@) =~= before@.slots.update(
            q.slot as int,
            SlotModel {
                data: patched(slot.data, at as int, le_bytes(q.addend as i32 as u32 as int, 4)),
                ..slot
            },
        ));
        (R_ARM_ABS32, 0)
    };
    s.l.obj.add_relocation(section, q.offset, sym, addend, RelocationType::Elf(kind));
    proof {
        assert(with_queued(before@, arch, q@)->0 =~= s@);
        let m = before.l@.obj;
        let n = s.l@.obj;
        assert forall|i: int| 0 <= i < s@.slots.len() implies (#[trigger] s@.slots[i]).section
            < n.sections.len() && (s@.slots[i].data.len() > 0
            ==> n.sections[s@.slots[i].section as int].kind != SectionKind::UninitializedData) by {
            assert(s@.slots[i].section == before@.slots[i].section);
            assert(s@.slots[i].data.len() == before@.slots[i].data.len());
            assert(n.sections[s@.slots[i].section as int].kind
                == m.sections[s@.slots[i].section as int].kind);
        }
    }
    true
}

fn add_queue(s: &mut Shared, arch: Arch, queue: &Vec<Queued>) -> (ok: bool)
    requires
        shared_wf(*old(s), arch),
        queue_fits(queued_views(queue@), old(s)@.slots.len()),
    ensures
        shared_wf(*final(s), arch),
        ok == (with_queue(old(s)@, arch, queued_views(queue@), 0) is Some),
        ok ==> with_queue(old(s)@, arch, queued_views(queue@), 0) == Some(final(s)@),
{
    let ghost views = queued_views(queue@);
    let mut i: usize = 0;
    while i < queue.len()
        invariant
            shared_wf(*s, arch),
            i <= queue@.len(),
            views == queued_views(queue@),
            queue_fits(views, s@.slots.len()),
            with_queue(old(s)@, arch, views, 0) == with_queue(s@, arch, views, i as int),
        decreases queue@.len() - i,
    {
        assert(views[i as int] == queue@[i as int]@);
        if !add_queued(s, arch, &queue[i]) {
            return false;
        }
        i = i + 1;
    }
    true
}

/// With the bytes of the slots from `i` on in their sections.
pub open spec fn with_bytes(l: LinkageModel, slots: Seq<SlotModel>, i: int) -> LinkageModel
    decreases slots.len() - i,
{
    if i < 0 || i >= slots.len() {
        l
    } else {
        with_bytes(
            if slots[i].data.len() == 0 {
                l
            } else {
                l.over(l.obj.with_data(slots[i].section as nat, slots[i].data, 16))
            },
            slots,
            i + 1,
        )
    }
}

fn add_bytes(l: &mut Linkage, slots: &Vec<DataSlot>, Ghost(arch): Ghost<Arch>)
    requires
        old(l).wf(),
        is_elf(old(l)@.obj, arch),
        slots_fit(slot_views(slots@), old(l)@.obj),
    ensures
        final(l).wf(),
        is_elf(final(l)@.obj, arch),
        final(l)@ == with_bytes(old(l)@, slot_views(slots@), 0),
{
    let ghost views = slot_views(slots@);
    let mut i: usize = 0;
    while i < slots.len()
        invariant
            l.wf(),
            is_elf(l@.obj, arch),
            views == slot_views(slots@),
            slots_fit(views, l@.obj),
            i <= slots@.len(),
            with_bytes(old(l)@, views, 0) == with_bytes(l@, views, i as int),
        decreases slots@.len() - i,
    {
        assert(views[i as int] == slots@[i as int]@);
        if slots[i].data.len() > 0 {
            let ghost m = l@.obj;
            l.obj.append_data(slots[i].section, slots[i].data.as_slice(), 16);
            proof {
                assert forall|k: int| 0 <= k < views.len() implies (#[trigger] views[k]).section
                    < l@.obj.sections.len() && (views[k].data.len() > 0
                    ==> l@.obj.sections[views[k].section as int].kind
                    != SectionKind::UninitializedData) by {
                    assert(l@.obj.sections[views[k].section as int].kind
                        == m.sections[views[k].section as int].kind);
                }
            }
        }
        i = i + 1;
    }
}

/// A relocation of unwind information.
pub struct UnwindReloc {
    pub offset: u64,
    pub name: String,
    pub addend: i64,
}

/// A relocation of unwind information, with its symbol as text.
pub ghost struct UnwindRelocView {
    pub offset: u64,
    pub name: Seq<char>,
    pub addend: i64,
}

impl View for UnwindReloc {
    type V = UnwindRelocView;

    open spec fn view(&self) -> UnwindRelocView {
        UnwindRelocView { offset: self.offset, name: self.name@, addend: self.addend }
    }
}

/// Relocations of unwind information, with their symbols as text.
pub open spec fn unwind_views(v: Seq<UnwindReloc>) -> Seq<UnwindRelocView> {
    v.map_values(|r: UnwindReloc| r@)
}

/// The record of frame information at `cursor` has its header, and is no
/// terminator and not one of the rare long ones.
pub open spec fn frame_record(data: Seq<u8>, cursor: int) -> bool {
    &&& 0 <= cursor
    &&& cursor + 4 <= data.len()
    &&& le_value(data, cursor, 4) != 0
    &&& le_value(data, cursor, 4) != 0xffff_ffff
    &&& cursor + 4 + le_value(data, cursor, 4) <= data.len()
    &&& cursor + 8 <= data.len()
    &&& le_value(data, cursor + 4, 4) != 0 ==> cursor + 12 <= data.len()
}

/// The address that the frame record at `cursor` begins with, which is stored
/// relative to its field.
pub open spec fn frame_start(data: Seq<u8>, vaddr: u64, cursor: int) -> u64 {
    vaddr.wrapping_add((cursor + 8) as u64).wrapping_add(
        le_value(data, cursor + 8, 4) as u32 as i32 as i64 as u64,
    )
}

/// With the relocations of the frame records from `cursor` on: the start of each
/// function that one describes.
pub open spec fn with_frames(
    out: Seq<UnwindRelocView>,
    data: Seq<u8>,
    vaddr: u64,
    symbols: GlobalSymbols,
    cursor: int,
) -> Seq<UnwindRelocView>
    decreases data.len() - cursor,
    via frames_decrease
{
    if !frame_record(data, cursor) {
        out
    } else {
        let target = function_target(symbols, frame_start(data, vaddr, cursor));
        with_frames(
            if le_value(data, cursor + 4, 4) != 0 && target is Some {
                out.push(
                    UnwindRelocView {
                        offset: (cursor + 8) as u64,
                        name: (target->0).0,
                        addend: (target->0).1,
                    },
                )
            } else {
                out
            },
            data,
            vaddr,
            symbols,
            cursor + 4 + le_value(data, cursor, 4),
        )
    }
}

#[via_fn]
proof fn frames_decrease(
    out: Seq<UnwindRelocView>,
    data: Seq<u8>,
    vaddr: u64,
    symbols: GlobalSymbols,
    cursor: int,
) {
    reveal_with_fuel(le_value, 5);
}

fn scan_frames(data: &[u8], vaddr: u64, symbols: &GlobalSymbols) -> (out: Vec<UnwindReloc>)
    ensures
        unwind_views(out@) == with_frames(Seq::empty(), data@, vaddr, *symbols, 0),
{
    let n: usize = data.len();
    let mut out: Vec<UnwindReloc> = Vec::new();
    assert(unwind_views(out@) =~= Seq::empty());
    let mut cursor: usize = 0;
    let mut more: bool = true;
    while more
        invariant
            n == data@.len(),
            cursor <= n,
            with_frames(Seq::empty(), data@, vaddr, *symbols, 0) == (if more {
                with_frames(unwind_views(out@), data@, vaddr, *symbols, cursor as int)
            } else {
                unwind_views(out@)
            }),
        decreases (if more { n - cursor + 1 } else { 0 }),
    {
        if n - cursor < 8 {
            more = false;
        } else {
            let length: u32 = read_u32_le(data, cursor);
            let id: u32 = read_u32_le(data, cursor + 4);
            if length == 0 || length == 0xffff_ffff || length as u64 > (n - cursor - 4) as u64 || (
            id != 0 && n - cursor < 12) {
                more = false;
            } else {
                if id != 0 {
                    let rel: u32 = read_u32_le(data, cursor + 8);
                    let at: u64 = (cursor + 8) as u64;
                    let target: u64 = vaddr.wrapping_add(at).wrapping_add(
                        rel as i32 as i64 as u64,
                    );
                    if let Some((name, addend)) = fde_resolve_target(symbols, target) {
                        let ghost before = out@;
                        let r = UnwindReloc { offset: at, name, addend };
                        let ghost view = r@;
                        out.push(r);
                        assert(unwind_views(out@) =~= unwind_views(before).push(view));
                    }
                }
                cursor = cursor + 4 + length as usize;
            }
        }
    }
    out
}

/// With the relocations of unwind information from `i` on.
pub open spec fn with_unwind(
    l: LinkageModel,
    section: usize,
    r_type: u32,
    explicit: bool,
    relocs: Seq<UnwindRelocView>,
    i: int,
) -> LinkageModel
    decreases relocs.len() - i,
{
    if i < 0 || i >= relocs.len() {
        l
    } else {
        let r = relocs[i];
        let m = l.with_undef(r.name, r.name, SymbolKind::Unknown);
        with_unwind(
            m.over(
                m.obj.with_relocation(
                    section as nat,
                    r.offset,
                    l.undef_number(r.name) as nat,
                    RelocationType::Elf(r_type),
                    if explicit {
                        r.addend as int
                    } else {
                        0
                    },
                ),
            ),
            section,
            r_type,
            explicit,
            relocs,
            i + 1,
        )
    }
}

fn attach_unwind(
    l: &mut Linkage,
    section: usize,
    r_type: u32,
    explicit: bool,
    relocs: &Vec<UnwindReloc>,
    Ghost(arch): Ghost<Arch>,
)
    requires
        old(l).wf(),
        is_elf(old(l)@.obj, arch),
        section < old(l)@.obj.sections.len(),
        arch == Arch::Arm ==> !explicit,
    ensures
        final(l).wf(),
        is_elf(final(l)@.obj, arch),
        final(l)@ == with_unwind(old(l)@, section, r_type, explicit, unwind_views(relocs@), 0),
{
    let ghost views = unwind_views(relocs@);
    let mut i: usize = 0;
    while i < relocs.len()
        invariant
            l.wf(),
            is_elf(l@.obj, arch),
            section < l@.obj.sections.len(),
            arch == Arch::Arm ==> !explicit,
            views == unwind_views(relocs@),
            i <= relocs@.len(),
            with_unwind(old(l)@, section, r_type, explicit, views, 0) == with_unwind(
                l@,
                section,
                r_type,
                explicit,
                views,
                i as int,
            ),
        decreases relocs@.len() - i,
    {
        let r = &relocs[i];
        assert(views[i as int] == r@);
        let sym = l.undefined(r.name.as_str(), r.name.as_str(), SymbolKind::Unknown);
        let addend: i64 = if explicit {
            r.addend
        } else {
            0
        };
        l.obj.add_relocation(section, r.offset, sym, addend, RelocationType::Elf(r_type));
        i = i + 1;
    }
}

/// The object and the counts, or none where a section cannot be read.
pub type Step = Option<(LinkageModel, SharedDataStats)>;

/// With the frame information of an AArch64 image, relocated to the functions that
/// it describes.
pub open spec fn with_eh_frame(
    l: LinkageModel,
    stats: SharedDataStats,
    binary: Binary,
    symbols: GlobalSymbols,
) -> Step {
    match elf_section(binary.sections@, ".eh_frame"@) {
        None => Some((l, stats)),
        Some(k) => match binary.sections@[k].data {
            None => None,
            Some(d) => if d@.len() == 0 {
                Some((l, stats))
            } else {
                let section = l.obj.sections.len() as usize;
                let relocs = with_frames(
                    Seq::empty(),
                    d@,
                    binary.sections@[k].addr,
                    symbols,
                    0,
                );
                Some(
                    (
                        with_unwind(
                            l.over(
                                l.obj.with_section(
                                    ""@,
                                    ".eh_frame"@,
                                    SectionKind::ReadOnlyData,
                                ).with_data(section as nat, d@, 8),
                            ),
                            section,
                            R_AARCH64_PREL32,
                            true,
                            relocs,
                            0,
                        ),
                        SharedDataStats {
                            eh_frame_bytes: d@.len() as u64,
                            fde_relocs: relocs.len() as usize,
                            ..stats
                        },
                    ),
                )
            },
        },
    }
}

fn emit_eh_frame(
    l: &mut Linkage,
    stats: &mut SharedDataStats,
    binary: &Binary,
    symbols: &GlobalSymbols,
) -> (ok: bool)
    requires
        old(l).wf(),
        is_elf(old(l)@.obj, Arch::Aarch64),
    ensures
        final(l).wf(),
        is_elf(final(l)@.obj, Arch::Aarch64),
        ok == (with_eh_frame(old(l)@, *old(stats), *binary, *symbols) is Some),
        ok ==> with_eh_frame(old(l)@, *old(stats), *binary, *symbols) == Some(
            (final(l)@, *final(stats)),
        ),
{
    let from = match binary.section(".eh_frame") {
        Some(s) => s,
        None => return true,
    };
    let data = match &from.data {
        Some(d) => d,
        None => return false,
    };
    if data.len() == 0 {
        return true;
    }
    proof {
        l.obj.lemma_wf();
    }
    let section = l.obj.add_section("", ".eh_frame", SectionKind::ReadOnlyData);
    l.obj.append_data(section, data.as_slice(), 8);
    let relocs = scan_frames(data.as_slice(), from.addr, symbols);
    attach_unwind(l, section, R_AARCH64_PREL32, true, &relocs, Ghost(Arch::Aarch64));
    assert(unwind_views(relocs@).len() == relocs@.len());
    stats.eh_frame_bytes = data.len() as u64;
    stats.fde_relocs = relocs.len();
    true
}

/// A field of 31 bits with its sign.
pub open spec fn spec_sign_extend31(v: u32) -> i32 {
    ((v & 0x7fff_ffff) << 1) as i32 >> 1
}

/// Extends a field of 31 bits with its sign.
pub fn sign_extend31(v: u32) -> (r: i32)
    ensures
        r == spec_sign_extend31(v),
{
    ((v & 0x7fff_ffff) << 1) as i32 >> 1
}

/// Extending a field of 31 bits keeps its value, seen as a signed number.
pub proof fn law_sign_extend31(v: u32)
    ensures
        -0x4000_0000 <= spec_sign_extend31(v) < 0x4000_0000,
        (v & 0x7fff_ffff) < 0x4000_0000 ==> spec_sign_extend31(v) == (v & 0x7fff_ffff),
        (v & 0x7fff_ffff) >= 0x4000_0000 ==> spec_sign_extend31(v) == (v & 0x7fff_ffff)
            - 0x8000_0000,
{
    assert(-0x4000_0000 <= (((v & 0x7fff_ffff) << 1) as i32 >> 1) < 0x4000_0000) by (bit_vector);
    assert((v & 0x7fff_ffff) < 0x4000_0000 ==> (((v & 0x7fff_ffff) << 1) as i32 >> 1) == (v
        & 0x7fff_ffff)) by (bit_vector);
    assert((v & 0x7fff_ffff) >= 0x4000_0000 ==> (((v & 0x7fff_ffff) << 1) as i32 >> 1) == (v
        & 0x7fff_ffff) - 0x8000_0000) by (bit_vector);
}

/// What a 31-bit field at `place` refers to.
pub open spec fn prel31_target(place: u64, word: u32) -> u64 {
    place.wrapping_add(spec_sign_extend31(word) as u64)
}

/// Where the unwind entries of an ARM image are, if it has any.
pub ghost struct Extab {
    pub size: u64,
    pub vaddr: u64,
}

/// The relocation of the first word of the index entry at `at`: the function that
/// it describes.
pub open spec fn index_function(data: Seq<u8>, vaddr: u64, symbols: GlobalSymbols, at: int) -> Option<
    UnwindRelocView,
> {
    match target_name(
        symbols,
        prel31_target(vaddr.wrapping_add(at as u64), le_value(data, at, 4) as u32),
    ) {
        Some((name, addend)) => Some(UnwindRelocView { offset: at as u64, name, addend }),
        None => None,
    }
}

/// The relocation of the second word of the index entry at `at`: a place in the
/// unwind entries, unless it says that the function cannot be unwound or holds the
/// instructions itself.
pub open spec fn index_entry(data: Seq<u8>, vaddr: u64, extab: Extab, at: int) -> Option<
    UnwindRelocView,
> {
    let word = le_value(data, at + 4, 4) as u32;
    let place = vaddr.wrapping_add(at as u64).wrapping_add(4);
    let offset = prel31_target(place, word).wrapping_sub(extab.vaddr);
    if word != 1 && word & 0x8000_0000 == 0 && extab.size > 0 && offset < extab.size {
        Some(
            UnwindRelocView {
                offset: (at + 4) as u64,
                name: SYM_ARM_EXTAB_START@,
                addend: offset as i64,
            },
        )
    } else {
        None
    }
}

/// `s` with an optional element behind it.
pub open spec fn pushed(s: Seq<UnwindRelocView>, x: Option<UnwindRelocView>) -> Seq<UnwindRelocView> {
    match x {
        Some(e) => s.push(e),
        None => s,
    }
}

/// With the relocations of the index entries from `at` on.
pub open spec fn with_index(
    out: Seq<UnwindRelocView>,
    data: Seq<u8>,
    vaddr: u64,
    symbols: GlobalSymbols,
    extab: Extab,
    at: int,
) -> Seq<UnwindRelocView>
    decreases data.len() - at,
{
    if at < 0 || at + 8 > data.len() {
        out
    } else {
        with_index(
            pushed(
                pushed(out, index_function(data, vaddr, symbols, at)),
                index_entry(data, vaddr, extab, at),
            ),
            data,
            vaddr,
            symbols,
            extab,
            at + 8,
        )
    }
}

fn push_reloc(out: &mut Vec<UnwindReloc>, r: UnwindReloc)
    ensures
        unwind_views(final(out)@) == unwind_views(old(out)@).push(r@),
{
    let ghost before = out@;
    let ghost view = r@;
    out.push(r);
    assert(unwind_views(out@) =~= unwind_views(before).push(view));
}

fn scan_index(
    data: &[u8],
    vaddr: u64,
    symbols: &GlobalSymbols,
    extab_size: u64,
    extab_vaddr: u64,
) -> (out: Vec<UnwindReloc>)
    ensures
        unwind_views(out@) == with_index(
            Seq::empty(),
            data@,
            vaddr,
            *symbols,
            (Extab { size: extab_size, vaddr: extab_vaddr }),
            0,
        ),
{
    let n: usize = data.len();
    let ghost extab = Extab { size: extab_size, vaddr: extab_vaddr };
    let mut out: Vec<UnwindReloc> = Vec::new();
    assert(unwind_views(out@) =~= Seq::empty());
    let mut at: usize = 0;
    while n - at >= 8
        invariant
            n == data@.len(),
            at <= n,
            extab == (Extab { size: extab_size, vaddr: extab_vaddr }),
            with_index(Seq::empty(), data@, vaddr, *symbols, extab, 0) == with_index(
                unwind_views(out@),
                data@,
                vaddr,
                *symbols,
                extab,
                at as int,
            ),
        decreases n - at,
    {
        let word0: u32 = read_u32_le(data, at);
        let word1: u32 = read_u32_le(data, at + 4);
        let place: u64 = vaddr.wrapping_add(at as u64);
        let func: u64 = place.wrapping_add(sign_extend31(word0) as u64);
        if let Some((name, addend)) = resolve_target_name(symbols, func) {
            push_reloc(&mut out, UnwindReloc { offset: at as u64, name, addend });
        }
        let entry: u64 = place.wrapping_add(4).wrapping_add(sign_extend31(word1) as u64);
        let offset: u64 = entry.wrapping_sub(extab_vaddr);
        if word1 != 1 && word1 & 0x8000_0000 == 0 && extab_size > 0 && offset < extab_size {
            push_reloc(
                &mut out,
                UnwindReloc {
                    offset: (at + 4) as u64,
                    name: owned(SYM_ARM_EXTAB_START),
                    addend: offset as i64,
                },
            );
        }
        at = at + 8;
    }
    out
}

/// The index with the addends of the relocations from `i` on in their fields, or
/// nothing where a field lies outside it.
pub open spec fn with_prel31(data: Seq<u8>, relocs: Seq<UnwindRelocView>, i: int) -> Option<Seq<u8>>
    decreases relocs.len() - i,
{
    if i < 0 || i >= relocs.len() {
        Some(data)
    } else {
        let r = relocs[i];
        if r.offset + 4 > data.len() {
            None
        } else {
            with_prel31(
                patched(
                    data,
                    r.offset as int,
                    le_bytes(
                        encoded(
                            RelocKind::Prel31,
                            le_value(data, r.offset as int, 4) as u32,
                            r.addend,
                        ) as int,
                        4,
                    ),
                ),
                relocs,
                i + 1,
            )
        }
    }
}

/// Every field of the index lies in it.
proof fn lemma_index_offsets(
    out: Seq<UnwindRelocView>,
    data: Seq<u8>,
    vaddr: u64,
    symbols: GlobalSymbols,
    extab: Extab,
    at: int,
)
    requires
        0 <= at,
        data.len() <= u64::MAX,
        forall|i: int| 0 <= i < out.len() ==> (#[trigger] out[i]).offset + 4 <= data.len(),
    ensures
        forall|i: int|
            0 <= i < with_index(out, data, vaddr, symbols, extab, at).len() ==> (
            #[trigger] with_index(out, data, vaddr, symbols, extab, at)[i]).offset + 4
                <= data.len(),
    decreases data.len() - at,
{
    if at + 8 <= data.len() {
        let a = pushed(out, index_function(data, vaddr, symbols, at));
        let b = pushed(a, index_entry(data, vaddr, extab, at));
        assert forall|i: int| 0 <= i < b.len() implies (#[trigger] b[i]).offset + 4
            <= data.len() by {
            if i < out.len() {
                assert(b[i] == out[i]);
            }
        }
        lemma_index_offsets(b, data, vaddr, symbols, extab, at + 8);
        assert(with_index(out, data, vaddr, symbols, extab, at) == with_index(
            b,
            data,
            vaddr,
            symbols,
            extab,
            at + 8,
        ));
    }
}

fn apply_prel31(data: &mut Vec<u8>, relocs: &Vec<UnwindReloc>)
    requires
        forall|k: int|
            0 <= k < relocs@.len() ==> (#[trigger] relocs@[k]).offset + 4 <= old(data)@.len(),
    ensures
        with_prel31(old(data)@, unwind_views(relocs@), 0) == Some(final(data)@),
{
    let ghost views = unwind_views(relocs@);
    let mut i: usize = 0;
    while i < relocs.len()
        invariant
            i <= relocs@.len(),
            views == unwind_views(relocs@),
            data@.len() == old(data)@.len(),
            forall|k: int|
                0 <= k < relocs@.len() ==> (#[trigger] relocs@[k]).offset + 4 <= data@.len(),
            with_prel31(old(data)@, views, 0) == with_prel31(data@, views, i as int),
        decreases relocs@.len() - i,
    {
        let r = &relocs[i];
        assert(views[i as int] == r@);
        assert(data@.len() == data.len());
        let done = apply_addend(RelocKind::Prel31, data, r.offset as usize, r.addend);
        assert(done is Ok);
        i = i + 1;
    }
}

/// With the unwind tables of an ARM image: the entries as they are, and the index
/// relocated to the functions and entries that it refers to.
pub open spec fn with_arm_unwind(
    l: LinkageModel,
    stats: SharedDataStats,
    binary: Binary,
    symbols: GlobalSymbols,
) -> Step {
    let entries = elf_section(binary.sections@, ".ARM.extab"@);
    let index = elf_section(binary.sections@, ".ARM.exidx"@);
    if entries is Some && binary.sections@[entries->0].data is None {
        None
    } else {
        let has_entries = entries is Some && binary.sections@[entries->0].data->0@.len() > 0;
        let extab = if has_entries {
            Extab {
                size: binary.sections@[entries->0].data->0@.len() as u64,
                vaddr: binary.sections@[entries->0].addr,
            }
        } else {
            Extab { size: 0, vaddr: 0 }
        };
        let first = l.obj.sections.len() as usize;
        let a = if has_entries {
            l.over(
                with_start(
                    l.obj.with_section(
                        ""@,
                        ".ARM.extab"@,
                        SectionKind::ReadOnlyData,
                    ).with_data(first as nat, binary.sections@[entries->0].data->0@, 4),
                    first,
                    SYM_ARM_EXTAB_START@,
                ),
            )
        } else {
            l
        };
        let counted = SharedDataStats { arm_extab_bytes: extab.size, ..stats };
        match index {
            None => Some((a, counted)),
            Some(k) => match binary.sections@[k].data {
                None => None,
                Some(d) => if d@.len() == 0 {
                    Some((a, counted))
                } else {
                    let relocs = with_index(
                        Seq::empty(),
                        d@,
                        binary.sections@[k].addr,
                        symbols,
                        extab,
                        0,
                    );
                    let section = a.obj.sections.len() as usize;
                    Some(
                        (
                            with_unwind(
                                a.over(
                                    a.obj.with_section(
                                        ""@,
                                        ".ARM.exidx"@,
                                        SectionKind::Elf(SHT_ARM_EXIDX),
                                    ).with_elf_flags(section as nat, SHF_ALLOC).with_data(
                                        section as nat,
                                        with_prel31(d@, relocs, 0)->0,
                                        4,
                                    ),
                                ),
                                section,
                                R_ARM_PREL31,
                                false,
                                relocs,
                                0,
                            ),
                            SharedDataStats {
                                arm_exidx_bytes: d@.len() as u64,
                                exidx_relocs: relocs.len() as usize,
                                ..counted
                            },
                        ),
                    )
                },
            },
        }
    }
}

fn emit_arm_unwind(
    l: &mut Linkage,
    stats: &mut SharedDataStats,
    binary: &Binary,
    symbols: &GlobalSymbols,
) -> (ok: bool)
    requires
        old(l).wf(),
        is_elf(old(l)@.obj, Arch::Arm),
    ensures
        final(l).wf(),
        is_elf(final(l)@.obj, Arch::Arm),
        ok == (with_arm_unwind(old(l)@, *old(stats), *binary, *symbols) is Some),
        ok ==> with_arm_unwind(old(l)@, *old(stats), *binary, *symbols) == Some(
            (final(l)@, *final(stats)),
        ),
{
    let mut extab_size: u64 = 0;
    let mut extab_vaddr: u64 = 0;
    if let Some(from) = binary.section(".ARM.extab") {
        let data = match &from.data {
            Some(d) => d,
            None => return false,
        };
        if data.len() > 0 {
            proof {
                l.obj.lemma_wf();
            }
            let section = l.obj.add_section("", ".ARM.extab", SectionKind::ReadOnlyData);
            l.obj.append_data(section, data.as_slice(), 4);
            l.obj.add_symbol(
                SYM_ARM_EXTAB_START,
                0,
                0,
                SymbolKind::Data,
                true,
                false,
                Some(section),
            );
            extab_size = data.len() as u64;
            extab_vaddr = from.addr;
        }
    }
    stats.arm_extab_bytes = extab_size;
    let from = match binary.section(".ARM.exidx") {
        Some(s) => s,
        None => return true,
    };
    let data = match &from.data {
        Some(d) => d,
        None => return false,
    };
    if data.len() == 0 {
        return true;
    }
    let n: usize = data.len();
    let relocs = scan_index(data.as_slice(), from.addr, symbols, extab_size, extab_vaddr);
    let mut bytes = copy_range(data.as_slice(), 0, n);
    proof {
        assert(bytes@ =~= data@);
        let extab = Extab { size: extab_size, vaddr: extab_vaddr };
        lemma_index_offsets(Seq::empty(), data@, from.addr, *symbols, extab, 0);
        assert forall|k: int| 0 <= k < relocs@.len() implies (#[trigger] relocs@[k]).offset + 4
            <= bytes@.len() by {
            assert(unwind_views(relocs@)[k] == relocs@[k]@);
        }
    }
    apply_prel31(&mut bytes, &relocs);
    proof {
        l.obj.lemma_wf();
    }
    let section = l.obj.add_section("", ".ARM.exidx", SectionKind::Elf(SHT_ARM_EXIDX));
    l.obj.set_elf_flags(section, SHF_ALLOC);
    l.obj.append_data(section, bytes.as_slice(), 4);
    attach_unwind(l, section, R_ARM_PREL31, false, &relocs, Ghost(Arch::Arm));
    assert(unwind_views(relocs@).len() == relocs@.len());
    stats.arm_exidx_bytes = n as u64;
    stats.exidx_relocs = relocs.len();
    true
}

/// Relocations of a section of shared DWARF information, and the number of address
/// pairs that they come from.
pub struct DwarfScan {
    pub relocs: Vec<DwarfReloc>,
    pub pairs: usize,
}

/// True when the image has bytes for the section that `name` stands for.
pub open spec fn has_bytes(binary: Binary, name: Seq<char>) -> bool {
    binary.spec_section_data(name) matches Some(d) && d.len() > 0
}

/// With a section of shared DWARF information and a symbol at its start.
pub open spec fn with_shared_dwarf(
    l: LinkageModel,
    stats: SharedDataStats,
    binary: Binary,
    name: Seq<char>,
    kind: SectionKind,
    start: Option<Seq<char>>,
) -> (LinkageModel, SharedDataStats) {
    if !has_bytes(binary, name) {
        (l, stats)
    } else {
        let data = binary.spec_section_data(name)->0;
        let section = l.obj.sections.len() as usize;
        let filled = l.obj.with_section(""@, name, kind).with_data(section as nat, data, 1);
        (
            l.over(
                match start {
                    Some(sym) => with_start(filled, section, sym),
                    None => filled,
                },
            ),
            SharedDataStats {
                dwarf_shared_bytes: stats.dwarf_shared_bytes.wrapping_add(data.len() as u64),
                ..stats
            },
        )
    }
}

fn add_shared_dwarf(
    l: &mut Linkage,
    stats: &mut SharedDataStats,
    binary: &Binary,
    name: &str,
    kind: SectionKind,
    start: Option<&str>,
) -> (r: Option<usize>)
    requires
        old(l).wf(),
        is_elf(old(l)@.obj, binary.arch),
        kind != SectionKind::UninitializedData,
    ensures
        final(l).wf(),
        is_elf(final(l)@.obj, binary.arch),
        (final(l)@, *final(stats)) == with_shared_dwarf(
            old(l)@,
            *old(stats),
            *binary,
            name@,
            kind,
            match start {
                Some(x) => Some(x@),
                None => None,
            },
        ),
        match r {
            Some(s) => has_bytes(*binary, name@) && s == old(l)@.obj.sections.len() && s
                < final(l)@.obj.sections.len(),
            None => !has_bytes(*binary, name@),
        },
        final(l)@.obj.sections.len() >= old(l)@.obj.sections.len(),
{
    let data = match binary.section_data(name) {
        Some(d) => d,
        None => return None,
    };
    if data.len() == 0 {
        return None;
    }
    proof {
        l.obj.lemma_wf();
    }
    let section = l.obj.add_section("", name, kind);
    l.obj.append_data(section, data, 1);
    if let Some(sym) = start {
        l.obj.add_symbol(sym, 0, 0, SymbolKind::Data, true, false, Some(section));
    }
    stats.dwarf_shared_bytes = stats.dwarf_shared_bytes.wrapping_add(data.len() as u64);
    Some(section)
}

/// The sections of shared DWARF information in front of that for ranges.
pub open spec fn dwarf_head(l: LinkageModel, stats: SharedDataStats, binary: Binary) -> (
    LinkageModel,
    SharedDataStats,
) {
    let a = with_shared_dwarf(
        l,
        stats,
        binary,
        ".debug_str"@,
        SectionKind::DebugString,
        Some("__delink_debug_str_start"@),
    );
    let b = with_shared_dwarf(
        a.0,
        a.1,
        binary,
        ".debug_line_str"@,
        SectionKind::DebugString,
        Some("__delink_debug_line_str_start"@),
    );
    with_shared_dwarf(b.0, b.1, binary, ".debug_str_offsets"@, SectionKind::Debug, None)
}

/// The sections of shared DWARF information up to that for ranges, and the one
/// behind it.
pub open spec fn dwarf_middle(l: LinkageModel, stats: SharedDataStats, binary: Binary) -> (
    LinkageModel,
    SharedDataStats,
) {
    let a = dwarf_head(l, stats, binary);
    let b = with_shared_dwarf(
        a.0,
        a.1,
        binary,
        ".debug_ranges"@,
        SectionKind::Debug,
        Some("__delink_debug_ranges_start"@),
    );
    with_shared_dwarf(
        b.0,
        b.1,
        binary,
        ".debug_rnglists"@,
        SectionKind::Debug,
        Some("__delink_debug_rnglists_start"@),
    )
}

/// All sections of shared DWARF information.
pub open spec fn dwarf_sections(l: LinkageModel, stats: SharedDataStats, binary: Binary) -> (
    LinkageModel,
    SharedDataStats,
) {
    let a = dwarf_middle(l, stats, binary);
    let b = with_shared_dwarf(
        a.0,
        a.1,
        binary,
        ".debug_loc"@,
        SectionKind::Debug,
        Some("__delink_debug_loc_start"@),
    );
    let c = with_shared_dwarf(
        b.0,
        b.1,
        binary,
        ".debug_loclists"@,
        SectionKind::Debug,
        Some("__delink_debug_loclists_start"@),
    );
    with_shared_dwarf(c.0, c.1, binary, ".debug_addr"@, SectionKind::Debug, None)
}

/// With the shared DWARF information. On AArch64 the ranges and locations in it
/// are relocated.
pub open spec fn with_dwarf(
    l: LinkageModel,
    stats: SharedDataStats,
    binary: Binary,
    ranges: Seq<DwarfRelocView>,
    range_pairs: usize,
    locs: Seq<DwarfRelocView>,
    loc_pairs: usize,
) -> (LinkageModel, SharedDataStats) {
    let all = dwarf_sections(l, stats, binary);
    if binary.arch != Arch::Aarch64 {
        all
    } else {
        let ranged = if has_bytes(binary, ".debug_ranges"@) {
            (
                with_dwarf_relocs(
                    all.0,
                    dwarf_head(l, stats, binary).0.obj.sections.len() as usize,
                    ranges,
                    0,
                ),
                SharedDataStats { debug_ranges_relocs: range_pairs, ..all.1 },
            )
        } else {
            all
        };
        if has_bytes(binary, ".debug_loc"@) {
            (
                with_dwarf_relocs(
                    ranged.0,
                    dwarf_middle(l, stats, binary).0.obj.sections.len() as usize,
                    locs,
                    0,
                ),
                SharedDataStats { debug_loc_relocs: loc_pairs, ..ranged.1 },
            )
        } else {
            ranged
        }
    }
}

fn emit_shared_dwarf(
    l: &mut Linkage,
    stats: &mut SharedDataStats,
    binary: &Binary,
    ranges: &DwarfScan,
    locs: &DwarfScan,
)
    requires
        old(l).wf(),
        is_elf(old(l)@.obj, binary.arch),
    ensures
        final(l).wf(),
        (final(l)@, *final(stats)) == with_dwarf(
            old(l)@,
            *old(stats),
            *binary,
            dwarf_views(ranges.relocs@),
            ranges.pairs,
            dwarf_views(locs.relocs@),
            locs.pairs,
        ),
{
    add_shared_dwarf(
        l,
        stats,
        binary,
        ".debug_str",
        SectionKind::DebugString,
        Some("__delink_debug_str_start"),
    );
    add_shared_dwarf(
        l,
        stats,
        binary,
        ".debug_line_str",
        SectionKind::DebugString,
        Some("__delink_debug_line_str_start"),
    );
    add_shared_dwarf(l, stats, binary, ".debug_str_offsets", SectionKind::Debug, None);
    assert((l@, *stats) == dwarf_head(old(l)@, *old(stats), *binary));
    let ranges_section = add_shared_dwarf(
        l,
        stats,
        binary,
        ".debug_ranges",
        SectionKind::Debug,
        Some("__delink_debug_ranges_start"),
    );
    add_shared_dwarf(
        l,
        stats,
        binary,
        ".debug_rnglists",
        SectionKind::Debug,
        Some("__delink_debug_rnglists_start"),
    );
    assert((l@, *stats) == dwarf_middle(old(l)@, *old(stats), *binary));
    let loc_section = add_shared_dwarf(
        l,
        stats,
        binary,
        ".debug_loc",
        SectionKind::Debug,
        Some("__delink_debug_loc_start"),
    );
    add_shared_dwarf(
        l,
        stats,
        binary,
        ".debug_loclists",
        SectionKind::Debug,
        Some("__delink_debug_loclists_start"),
    );
    add_shared_dwarf(l, stats, binary, ".debug_addr", SectionKind::Debug, None);
    assert((l@, *stats) == dwarf_sections(old(l)@, *old(stats), *binary));
    if binary.arch != Arch::Aarch64 {
        return ;
    }
    if let Some(s) = ranges_section {
        attach_dwarf_relocs(l, s, &ranges.relocs);
        stats.debug_ranges_relocs = ranges.pairs;
    }
    if let Some(s) = loc_section {
        attach_dwarf_relocs(l, s, &locs.relocs);
        stats.debug_loc_relocs = locs.pairs;
    }
}

/// Counts of bytes once the data sections are there.
pub open spec fn data_stats(binary: Binary) -> SharedDataStats {
    SharedDataStats {
        rodata_bytes: section_len(binary, ".rodata"@),
        data_bytes: section_len(binary, ".data"@),
        data_rel_ro_bytes: section_len(binary, ".data.rel.ro"@),
        data_rel_ro_local_bytes: section_len(binary, ".data.rel.ro.local"@),
        init_array_bytes: section_len(binary, ".init_array"@),
        fini_array_bytes: section_len(binary, ".fini_array"@),
        bss_bytes: match elf_section(binary.sections@, ".bss"@) {
            Some(k) => binary.sections@[k].size,
            None => 0,
        },
        ..no_shared_stats()
    }
}

/// The object for the data of an image and what went into it, or why there is
/// none.
pub open spec fn shared_object(
    binary: Binary,
    symbols: GlobalSymbols,
    opts: SharedDataOptions,
    ranges: DwarfScan,
    locs: DwarfScan,
) -> Result<(ObjectModel, SharedDataStats), EmitError> {
    match data_sections(binary) {
        None => Err(EmitError::UnreadableSection),
        Some(s) => {
            let named = SharedModel {
                l: s.l.over(
                    with_data_symbols(
                        s.l.obj,
                        keys_between(symbols.variables@.dom(), 0, u64::MAX),
                        symbols.variables@,
                        s.slots,
                        0,
                    ),
                ),
                ..s
            };
            match spec_all_dyn_relocs(binary) {
                None => Err(EmitError::UnreadableSection),
                Some(relocs) => {
                    let q = with_dyns(
                        QueueModel { queue: Seq::empty(), stats: data_stats(binary) },
                        binary.arch,
                        symbols,
                        s.slots,
                        relocs,
                        0,
                    );
                    match with_queue(named, binary.arch, q.queue, 0) {
                        None => Err(EmitError::FieldOutOfRange),
                        Some(t) => {
                            let filled = with_bytes(t.l, t.slots, 0);
                            let unwound = match binary.arch {
                                Arch::Aarch64 => with_eh_frame(filled, q.stats, binary, symbols),
                                Arch::Arm => with_arm_unwind(filled, q.stats, binary, symbols),
                            };
                            match unwound {
                                None => Err(EmitError::UnreadableSection),
                                Some((l, stats)) => if opts.dwarf {
                                    let d = with_dwarf(
                                        l,
                                        stats,
                                        binary,
                                        dwarf_views(ranges.relocs@),
                                        ranges.pairs,
                                        dwarf_views(locs.relocs@),
                                        locs.pairs,
                                    );
                                    Ok((d.0.obj, d.1))
                                } else {
                                    Ok((l.obj, stats))
                                },
                            }
                        },
                    }
                },
            }
        },
    }
}

fn add_data_sections(binary: &Binary, stats: &mut SharedDataStats) -> (r: Option<Shared>)
    requires
        *old(stats) == no_shared_stats(),
    ensures
        match r {
            Some(s) => shared_wf(s, binary.arch) && data_sections(*binary) == Some(s@)
                && *final(stats) == data_stats(*binary),
            None => data_sections(*binary) is None,
        },
{
    let mut s = Shared {
        l: Linkage::new(ObjectFormat::Elf, object_machine(binary.arch)),
        slots: Vec::new(),
    };
    assert(s@.slots =~= Seq::empty());
    stats.rodata_bytes = match add_pending(
        &mut s,
        binary,
        ".rodata",
        SectionKind::ReadOnlyData,
        Some(SYM_RODATA_START),
        false,
    ) {
        Some(n) => n,
        None => return None,
    };
    stats.data_bytes = match add_pending(
        &mut s,
        binary,
        ".data",
        SectionKind::Data,
        Some(SYM_DATA_START),
        true,
    ) {
        Some(n) => n,
        None => return None,
    };
    stats.data_rel_ro_bytes = match add_pending(
        &mut s,
        binary,
        ".data.rel.ro",
        SectionKind::ReadOnlyDataWithRel,
        Some(SYM_DATA_REL_RO_START),
        true,
    ) {
        Some(n) => n,
        None => return None,
    };
    stats.data_rel_ro_local_bytes = match add_pending(
        &mut s,
        binary,
        ".data.rel.ro.local",
        SectionKind::ReadOnlyDataWithRel,
        Some(SYM_DATA_REL_RO_LOCAL_START),
        true,
    ) {
        Some(n) => n,
        None => return None,
    };
    stats.init_array_bytes = match add_pending(
        &mut s,
        binary,
        ".init_array",
        SectionKind::Data,
        None,
        true,
    ) {
        Some(n) => n,
        None => return None,
    };
    stats.fini_array_bytes = match add_pending(
        &mut s,
        binary,
        ".fini_array",
        SectionKind::Data,
        None,
        true,
    ) {
        Some(n) => n,
        None => return None,
    };
    stats.bss_bytes = add_bss(&mut s, binary);
    Some(s)
}

/// Builds the object with the data of an image. The objects of the units reach the
/// data by their names, or as offsets from the symbols at the starts of sections.
///
/// On AArch64, `ranges` and `locs` hold the relocations of the shared DWARF
/// information.
pub fn emit_shared_data(
    binary: &Binary,
    symbols: &GlobalSymbols,
    opts: SharedDataOptions,
    ranges: &DwarfScan,
    locs: &DwarfScan,
) -> (r: Result<(Vec<u8>, SharedDataStats), EmitError>)
    ensures
        emitted(r) == unit_file(shared_object(*binary, *symbols, opts, *ranges, *locs)),
{
    let mut stats = SharedDataStats::default();
    let mut s = match add_data_sections(binary, &mut stats) {
        Some(s) => s,
        None => return Err(EmitError::UnreadableSection),
    };
    let ghost opened = s@;
    add_data_symbols(&mut s, symbols, Ghost(binary.arch));
    let relocs = match read_all_dyn_relocs(binary) {
        Ok(v) => v,
        Err(_) => return Err(EmitError::UnreadableSection),
    };
    let queue = translate_all(&mut stats, binary.arch, symbols, &s.slots, &relocs);
    if !add_queue(&mut s, binary.arch, &queue) {
        return Err(EmitError::FieldOutOfRange);
    }
    add_bytes(&mut s.l, &s.slots, Ghost(binary.arch));
    let ok = match binary.arch {
        Arch::Aarch64 => emit_eh_frame(&mut s.l, &mut stats, binary, symbols),
        Arch::Arm => emit_arm_unwind(&mut s.l, &mut stats, binary, symbols),
    };
    if !ok {
        return Err(EmitError::UnreadableSection);
    }
    if opts.dwarf {
        emit_shared_dwarf(&mut s.l, &mut stats, binary, ranges, locs);
    }
    match s.l.obj.write() {
        Ok(file) => Ok((file, stats)),
        Err(e) => Err(EmitError::Write(e)),
    }
}

} // verus!
