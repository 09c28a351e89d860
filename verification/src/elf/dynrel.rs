//! Dynamic relocations of an ELF image.
use vstd::prelude::*;

use super::binary::{Binary, ElfError};
use crate::arch::ElfClass;
use crate::bytes::{le_value, read_u32_le, read_u64_le};
use crate::cstr::{read_utf8_string, utf8_string_at};
use crate::image::elf_section;

verus! {

/// One dynamic relocation.
#[derive(Debug)]
pub struct DynReloc {
    pub r_offset: u64,
    pub r_type: u32,
    pub r_sym: u32,
    /// The explicit addend, or else what the relocated field holds.
    pub r_addend: i64,
    /// Name of the dynamic symbol; empty where there is none.
    pub sym_name: String,
    /// True when the entry is one of the procedure linkage table.
    pub from_plt_section: bool,
}

/// One dynamic relocation, with its name as text.
pub ghost struct DynRelocView {
    pub r_offset: u64,
    pub r_type: u32,
    pub r_sym: u32,
    pub r_addend: i64,
    pub sym_name: Seq<char>,
    pub from_plt_section: bool,
}

impl View for DynReloc {
    type V = DynRelocView;

    open spec fn view(&self) -> DynRelocView {
        DynRelocView {
            r_offset: self.r_offset,
            r_type: self.r_type,
            r_sym: self.r_sym,
            r_addend: self.r_addend,
            sym_name: self.sym_name@,
            from_plt_section: self.from_plt_section,
        }
    }
}

/// Relocations, with their names as text.
pub open spec fn dyn_reloc_views(v: Seq<DynReloc>) -> Seq<DynRelocView> {
    v.map_values(|r: DynReloc| r@)
}

/// Size of a relocation entry.
pub open spec fn entry_size(class: ElfClass, is_rela: bool) -> nat {
    if is_rela {
        class.spec_rela_entsize()
    } else {
        class.spec_rel_entsize()
    }
}

/// Word `k` of pointer size of the entry at `at`.
pub open spec fn entry_word(data: Seq<u8>, at: int, class: ElfClass, k: int) -> u64 {
    le_value(
        data,
        at + k * class.spec_pointer_size(),
        class.spec_pointer_size(),
    ) as u64
}

/// The symbol that a word of info selects.
pub open spec fn info_sym(class: ElfClass, info: u64) -> u32 {
    match class {
        ElfClass::Elf32 => (info >> 8) as u32,
        ElfClass::Elf64 => (info >> 32) as u32,
    }
}

/// The relocation type that a word of info states.
pub open spec fn info_type(class: ElfClass, info: u64) -> u32 {
    match class {
        ElfClass::Elf32 => (info & 0xff) as u32,
        ElfClass::Elf64 => (info & 0xffff_ffff) as u32,
    }
}

/// The addend of the entry at `at`: its third word, with its sign, or what the
/// relocated field holds.
pub open spec fn entry_addend(binary: Binary, data: Seq<u8>, at: int, is_rela: bool) -> i64 {
    if is_rela {
        match binary.class {
            ElfClass::Elf32 => entry_word(data, at, binary.class, 2) as u32 as i32 as i64,
            ElfClass::Elf64 => entry_word(data, at, binary.class, 2) as i64,
        }
    } else {
        match binary.spec_read_word_at(entry_word(data, at, binary.class, 0)) {
            Some(w) => w as i64,
            None => 0,
        }
    }
}

/// The bytes of the section that `name` stands for, or none.
pub open spec fn section_bytes(binary: Binary, name: Seq<char>) -> Seq<u8> {
    match binary.spec_section_data(name) {
        Some(d) => d,
        None => Seq::empty(),
    }
}

/// Name of the dynamic symbol `sym`; symbol 0 has none.
pub open spec fn dynamic_name(binary: Binary, sym: u32) -> Seq<char> {
    let table = section_bytes(binary, ".dynsym"@);
    let at = sym * binary.class.spec_sym_entsize();
    if sym == 0 || at + 4 > table.len() {
        Seq::empty()
    } else {
        match utf8_string_at(section_bytes(binary, ".dynstr"@), le_value(table, at, 4)) {
            Some(s) => s,
            None => Seq::empty(),
        }
    }
}

/// The relocation in the entry at `at`.
pub open spec fn entry_reloc(
    binary: Binary,
    data: Seq<u8>,
    at: int,
    is_rela: bool,
    from_plt_section: bool,
) -> DynRelocView {
    let info = entry_word(data, at, binary.class, 1);
    DynRelocView {
        r_offset: entry_word(data, at, binary.class, 0),
        r_type: info_type(binary.class, info),
        r_sym: info_sym(binary.class, info),
        r_addend: entry_addend(binary, data, at, is_rela),
        sym_name: dynamic_name(binary, info_sym(binary.class, info)),
        from_plt_section,
    }
}

/// The relocations of the section that `name` stands for; none where its bytes
/// cannot be read.
pub open spec fn section_relocs(binary: Binary, name: Seq<char>, is_rela: bool, plt: bool) -> Option<
    Seq<DynRelocView>,
> {
    match elf_section(binary.sections@, name) {
        None => Some(Seq::empty()),
        Some(_) => match binary.spec_section_data(name) {
            None => None,
            Some(data) => {
                let size = entry_size(binary.class, is_rela);
                Some(
                    Seq::new(
                        data.len() / size,
                        |i: int| entry_reloc(binary, data, i * size, is_rela, plt),
                    ),
                )
            },
        },
    }
}

/// All dynamic relocations, by section; none where one of the sections cannot be
/// read.
pub open spec fn spec_all_dyn_relocs(binary: Binary) -> Option<Seq<DynRelocView>> {
    let a = section_relocs(binary, ".rel.dyn"@, false, false);
    let b = section_relocs(binary, ".rel.plt"@, false, true);
    let c = section_relocs(binary, ".rela.dyn"@, true, false);
    let d = section_relocs(binary, ".rela.plt"@, true, true);
    if a is Some && b is Some && c is Some && d is Some {
        Some(a->0 + b->0 + c->0 + d->0)
    } else {
        None
    }
}

fn word(data: &[u8], at: usize, class: ElfClass) -> (w: u64)
    requires
        at + class.spec_pointer_size() <= data@.len(),
    ensures
        w == le_value(data@, at as int, class.spec_pointer_size()),
        class == ElfClass::Elf32 ==> w <= u32::MAX,
{
    match class {
        ElfClass::Elf32 => read_u32_le(data, at) as u64,
        ElfClass::Elf64 => read_u64_le(data, at),
    }
}

fn symbol_name(binary: &Binary, sym: u32) -> (s: String)
    ensures
        s@ == dynamic_name(*binary, sym),
{
    if sym == 0 {
        return String::new();
    }
    let size: u64 = binary.class.sym_entsize() as u64;
    assert(sym * size <= 0xffff_ffff * 24) by (nonlinear_arith)
        requires
            size <= 24,
            sym <= 0xffff_ffff,
    ;
    let at: u64 = sym as u64 * size;
    let st_name: u32 = match binary.section_data(".dynsym") {
        Some(table) => {
            let n: usize = table.len();
            if at + 4 > n as u64 {
                return String::new();
            }
            read_u32_le(table, at as usize)
        },
        None => return String::new(),
    };
    match binary.section_data(".dynstr") {
        Some(strings) => match read_utf8_string(strings, st_name) {
            Some(s) => s,
            None => String::new(),
        },
        None => String::new(),
    }
}

fn read_entry(binary: &Binary, data: &[u8], at: usize, is_rela: bool, plt: bool) -> (r: DynReloc)
    requires
        at + entry_size(binary.class, is_rela) <= data@.len(),
    ensures
        r@ == entry_reloc(*binary, data@, at as int, is_rela, plt),
{
    let n: usize = data.len();
    let p: usize = binary.class.pointer_size();
    let r_offset = word(data, at, binary.class);
    let info = word(data, at + p, binary.class);
    assert(at + 0 * p == at && at + 1 * p == at + p && at + 2 * p == at + p + p) by (
    nonlinear_arith);
    let r_addend: i64 = if is_rela {
        let w = word(data, at + p + p, binary.class);
        match binary.class {
            ElfClass::Elf32 => w as u32 as i32 as i64,
            ElfClass::Elf64 => w as i64,
        }
    } else {
        match binary.read_word_at(r_offset) {
            Some(w) => w as i64,
            None => 0,
        }
    };
    let (r_sym, r_type): (u32, u32) = match binary.class {
        ElfClass::Elf32 => ((info >> 8) as u32, (info & 0xff) as u32),
        ElfClass::Elf64 => ((info >> 32) as u32, (info & 0xffff_ffff) as u32),
    };
    DynReloc {
        r_offset,
        r_type,
        r_sym,
        r_addend,
        sym_name: symbol_name(binary, r_sym),
        from_plt_section: plt,
    }
}

/// Adds the relocations of the section that `name` stands for.
fn read_dyn_reloc_section(
    binary: &Binary,
    name: &str,
    is_rela: bool,
    plt: bool,
    out: &mut Vec<DynReloc>,
) -> (ok: bool)
    ensures
        ok == (section_relocs(*binary, name@, is_rela, plt) is Some),
        ok ==> dyn_reloc_views(final(out)@) == dyn_reloc_views(old(out)@) + section_relocs(
            *binary,
            name@,
            is_rela,
            plt,
        )->0,
{
    let data: &[u8] = match binary.section(name) {
        None => {
            assert(dyn_reloc_views(out@) =~= dyn_reloc_views(out@) + Seq::<DynRelocView>::empty());
            return true;
        },
        Some(s) => match &s.data {
            Some(d) => d.as_slice(),
            None => return false,
        },
    };
    let ghost before = dyn_reloc_views(out@);
    let size: usize = if is_rela {
        binary.class.rela_entsize()
    } else {
        binary.class.rel_entsize()
    };
    let n: usize = data.len();
    let count: usize = n / size;
    let ghost all = section_relocs(*binary, name@, is_rela, plt)->0;
    let mut i: usize = 0;
    let mut at: usize = 0;
    assert(dyn_reloc_views(out@) =~= before + all.subrange(0, 0));
    while i < count
        invariant
            n == data@.len(),
            size == entry_size(binary.class, is_rela),
            size >= 8,
            count == n / size,
            i <= count,
            at == i * size,
            at <= n,
            section_relocs(*binary, name@, is_rela, plt) == Some(all),
            all.len() == count,
            forall|k: int|
                0 <= k < count ==> #[trigger] all[k] == entry_reloc(
                    *binary,
                    data@,
                    k * size,
                    is_rela,
                    plt,
                ),
            dyn_reloc_views(out@) == before + all.subrange(0, i as int),
        decreases count - i,
    {
        assert((i + 1) * size <= n && (i + 1) * size == at + size) by (nonlinear_arith)
            requires
                i < count,
                count == n / size,
                size >= 8,
                at == i * size,
        ;
        let ghost list = out@;
        out.push(read_entry(binary, data, at, is_rela, plt));
        assert(dyn_reloc_views(out@) =~= dyn_reloc_views(list).push(all[i as int]));
        assert(all.subrange(0, i + 1) =~= all.subrange(0, i as int).push(all[i as int]));
        i = i + 1;
        at = at + size;
    }
    assert(all.subrange(0, count as int) =~= all);
    true
}

/// Reads all dynamic relocations.
pub fn read_all_dyn_relocs(binary: &Binary) -> (r: Result<Vec<DynReloc>, ElfError>)
    ensures
        match r {
            Ok(v) => spec_all_dyn_relocs(*binary) == Some(dyn_reloc_views(v@)),
            Err(e) => spec_all_dyn_relocs(*binary) is None && e == ElfError::UnreadableSection,
        },
{
    let mut out: Vec<DynReloc> = Vec::new();
    if !read_dyn_reloc_section(binary, ".rel.dyn", false, false, &mut out) {
        return Err(ElfError::UnreadableSection);
    }
    if !read_dyn_reloc_section(binary, ".rel.plt", false, true, &mut out) {
        return Err(ElfError::UnreadableSection);
    }
    if !read_dyn_reloc_section(binary, ".rela.dyn", true, false, &mut out) {
        return Err(ElfError::UnreadableSection);
    }
    if !read_dyn_reloc_section(binary, ".rela.plt", true, true, &mut out) {
        return Err(ElfError::UnreadableSection);
    }
    assert(dyn_reloc_views(out@) =~= spec_all_dyn_relocs(*binary)->0);
    Ok(out)
}

} // verus!
