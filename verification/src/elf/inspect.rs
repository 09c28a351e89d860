//! A summary of a loaded image, as rows and as text.
use std::collections::BTreeMap;
use vstd::prelude::*;

use super::binary::{Binary, ElfError};
use super::cu::{function_count, variable_count, CompilationUnit, CuIndex};
use super::dynrel::{dyn_reloc_views, read_all_dyn_relocs, spec_all_dyn_relocs, DynReloc, DynRelocView};
use super::reltypes::{
    R_AARCH64_ABS16, R_AARCH64_ABS32, R_AARCH64_ABS64, R_AARCH64_ADD_ABS_LO12_NC,
    R_AARCH64_ADR_GOT_PAGE, R_AARCH64_ADR_PREL_PG_HI21, R_AARCH64_CALL26, R_AARCH64_COPY,
    R_AARCH64_GLOB_DAT, R_AARCH64_IRELATIVE, R_AARCH64_JUMP26, R_AARCH64_JUMP_SLOT,
    R_AARCH64_LD64_GOT_LO12_NC, R_AARCH64_LDST128_ABS_LO12_NC, R_AARCH64_LDST16_ABS_LO12_NC,
    R_AARCH64_LDST32_ABS_LO12_NC, R_AARCH64_LDST64_ABS_LO12_NC, R_AARCH64_LDST8_ABS_LO12_NC,
    R_AARCH64_NONE, R_AARCH64_PREL16, R_AARCH64_PREL32, R_AARCH64_PREL64, R_AARCH64_RELATIVE,
    R_AARCH64_TLSDESC, R_AARCH64_TLS_DTPMOD, R_AARCH64_TLS_DTPREL, R_AARCH64_TLS_TPREL,
    R_ARM_ABS32, R_ARM_CALL, R_ARM_COPY, R_ARM_GLOB_DAT, R_ARM_GOT32, R_ARM_GOTOFF, R_ARM_GOTPC,
    R_ARM_GOT_PREL, R_ARM_IRELATIVE, R_ARM_JUMP24, R_ARM_JUMP_SLOT, R_ARM_MOVT_ABS,
    R_ARM_MOVW_ABS_NC, R_ARM_NONE, R_ARM_PLT32, R_ARM_PREL31, R_ARM_REL32, R_ARM_RELATIVE,
    R_ARM_TARGET1, R_ARM_THM_JUMP24, R_ARM_THM_PC22, R_ARM_TLS_DTPMOD32, R_ARM_TLS_DTPOFF32,
    R_ARM_TLS_TPOFF32,
};
use super::symtab::{
    all_functions, code_section, file_groups, group_views, orphan_regions, symbol_views,
    table_symbols, text_functions_of, text_index, FileGroup, GroupView, SymbolView, SymtabIndex,
};
use crate::arch::Arch;
use crate::image::{section_views, ImageSection, ImageSectionView};
use crate::ordered::{keys_between, keys_in_range, lemma_keys_between};
use crate::text::{
    clone_text, decimal, digits, hex, joined, owned, pad_left, pad_right, pad_zeros, padded_left,
    padded_right, spec_truncate, text_of, truncate, zero_padded,
};

verus! {

broadcast use vstd::std_specs::btree::group_btree_axioms;

/// A summary of an image.
pub struct InspectReport {
    pub arch: String,
    pub class: String,
    /// Source files that the symbol table names.
    pub symtab_files: usize,
    /// Those of them whose place in the code is known.
    pub symtab_anchored: usize,
    pub symtab_functions: usize,
    pub sections: Vec<SectionRow>,
    pub dyn_relocs: Vec<(String, usize)>,
    pub cu_rows: Vec<CuRow>,
    pub total_functions: usize,
    pub total_variables: usize,
    pub has_dwarf: bool,
}

/// A section in a summary.
pub struct SectionRow {
    pub name: String,
    pub addr: u64,
    pub size: u64,
    pub kind: String,
}

/// A compilation unit in a summary.
pub struct CuRow {
    pub name: String,
    pub comp_dir: Option<String>,
    pub ranges: usize,
    pub functions: usize,
    pub variables: usize,
    pub coverage: u64,
}

/// A summary of an image, as text and sequences.
#[verifier::ext_equal]
pub ghost struct ReportView {
    pub arch: Seq<char>,
    pub class: Seq<char>,
    pub symtab_files: usize,
    pub symtab_anchored: usize,
    pub symtab_functions: usize,
    pub sections: Seq<SectionRowView>,
    pub dyn_relocs: Seq<(Seq<char>, usize)>,
    pub cu_rows: Seq<CuRowView>,
    pub total_functions: usize,
    pub total_variables: usize,
    pub has_dwarf: bool,
}

/// A section in a summary, as text.
pub ghost struct SectionRowView {
    pub name: Seq<char>,
    pub addr: u64,
    pub size: u64,
    pub kind: Seq<char>,
}

/// A compilation unit in a summary, as text.
pub ghost struct CuRowView {
    pub name: Seq<char>,
    pub comp_dir: Option<Seq<char>>,
    pub ranges: usize,
    pub functions: usize,
    pub variables: usize,
    pub coverage: u64,
}

impl View for SectionRow {
    type V = SectionRowView;

    open spec fn view(&self) -> SectionRowView {
        SectionRowView { name: self.name@, addr: self.addr, size: self.size, kind: self.kind@ }
    }
}

impl View for CuRow {
    type V = CuRowView;

    open spec fn view(&self) -> CuRowView {
        CuRowView {
            name: self.name@,
            comp_dir: text_of(self.comp_dir),
            ranges: self.ranges,
            functions: self.functions,
            variables: self.variables,
            coverage: self.coverage,
        }
    }
}

/// Sections in a summary, as text.
pub open spec fn section_rows(v: Seq<SectionRow>) -> Seq<SectionRowView> {
    v.map_values(|r: SectionRow| r@)
}

/// Units in a summary, as text.
pub open spec fn unit_rows(v: Seq<CuRow>) -> Seq<CuRowView> {
    v.map_values(|r: CuRow| r@)
}

/// Names with counts, as text.
pub open spec fn count_rows(v: Seq<(String, usize)>) -> Seq<(Seq<char>, usize)> {
    v.map_values(|r: (String, usize)| (r.0@, r.1))
}

impl View for InspectReport {
    type V = ReportView;

    open spec fn view(&self) -> ReportView {
        ReportView {
            arch: self.arch@,
            class: self.class@,
            symtab_files: self.symtab_files,
            symtab_anchored: self.symtab_anchored,
            symtab_functions: self.symtab_functions,
            sections: section_rows(self.sections@),
            dyn_relocs: count_rows(self.dyn_relocs@),
            cu_rows: unit_rows(self.cu_rows@),
            total_functions: self.total_functions,
            total_variables: self.total_variables,
            has_dwarf: self.has_dwarf,
        }
    }
}

/// An optional word as text.
pub open spec fn word_text(w: Option<&'static str>) -> Option<Seq<char>> {
    match w {
        Some(t) => Some(t@),
        None => None,
    }
}

/// The name of a known ARM relocation type.
pub open spec fn arm_word(t: u32) -> Option<Seq<char>> {
    if t == R_ARM_NONE {
        Some("R_ARM_NONE"@)
    } else if t == R_ARM_ABS32 {
        Some("R_ARM_ABS32"@)
    } else if t == R_ARM_REL32 {
        Some("R_ARM_REL32"@)
    } else if t == R_ARM_THM_PC22 {
        Some("R_ARM_THM_CALL"@)
    } else if t == R_ARM_GLOB_DAT {
        Some("R_ARM_GLOB_DAT"@)
    } else if t == R_ARM_JUMP_SLOT {
        Some("R_ARM_JUMP_SLOT"@)
    } else if t == R_ARM_RELATIVE {
        Some("R_ARM_RELATIVE"@)
    } else if t == R_ARM_GOTOFF {
        Some("R_ARM_GOTOFF32"@)
    } else if t == R_ARM_GOTPC {
        Some("R_ARM_BASE_PREL"@)
    } else if t == R_ARM_GOT32 {
        Some("R_ARM_GOT_BREL"@)
    } else if t == R_ARM_PLT32 {
        Some("R_ARM_PLT32"@)
    } else if t == R_ARM_CALL {
        Some("R_ARM_CALL"@)
    } else if t == R_ARM_JUMP24 {
        Some("R_ARM_JUMP24"@)
    } else if t == R_ARM_THM_JUMP24 {
        Some("R_ARM_THM_JUMP24"@)
    } else if t == R_ARM_TARGET1 {
        Some("R_ARM_TARGET1"@)
    } else if t == R_ARM_PREL31 {
        Some("R_ARM_PREL31"@)
    } else if t == R_ARM_MOVW_ABS_NC {
        Some("R_ARM_MOVW_ABS_NC"@)
    } else if t == R_ARM_MOVT_ABS {
        Some("R_ARM_MOVT_ABS"@)
    } else if t == R_ARM_GOT_PREL {
        Some("R_ARM_GOT_PREL"@)
    } else if t == R_ARM_COPY {
        Some("R_ARM_COPY"@)
    } else if t == R_ARM_IRELATIVE {
        Some("R_ARM_IRELATIVE"@)
    } else if t == R_ARM_TLS_DTPMOD32 {
        Some("R_ARM_TLS_DTPMOD32"@)
    } else if t == R_ARM_TLS_DTPOFF32 {
        Some("R_ARM_TLS_DTPOFF32"@)
    } else if t == R_ARM_TLS_TPOFF32 {
        Some("R_ARM_TLS_TPOFF32"@)
    } else {
        None
    }
}

fn arm_reloc_word(t: u32) -> (r: Option<&'static str>)
    ensures
        word_text(r) == arm_word(t),
{
    if t == R_ARM_NONE {
        Some("R_ARM_NONE")
    } else if t == R_ARM_ABS32 {
        Some("R_ARM_ABS32")
    } else if t == R_ARM_REL32 {
        Some("R_ARM_REL32")
    } else if t == R_ARM_THM_PC22 {
        Some("R_ARM_THM_CALL")
    } else if t == R_ARM_GLOB_DAT {
        Some("R_ARM_GLOB_DAT")
    } else if t == R_ARM_JUMP_SLOT {
        Some("R_ARM_JUMP_SLOT")
    } else if t == R_ARM_RELATIVE {
        Some("R_ARM_RELATIVE")
    } else if t == R_ARM_GOTOFF {
        Some("R_ARM_GOTOFF32")
    } else if t == R_ARM_GOTPC {
        Some("R_ARM_BASE_PREL")
    } else if t == R_ARM_GOT32 {
        Some("R_ARM_GOT_BREL")
    } else if t == R_ARM_PLT32 {
        Some("R_ARM_PLT32")
    } else if t == R_ARM_CALL {
        Some("R_ARM_CALL")
    } else if t == R_ARM_JUMP24 {
        Some("R_ARM_JUMP24")
    } else if t == R_ARM_THM_JUMP24 {
        Some("R_ARM_THM_JUMP24")
    } else if t == R_ARM_TARGET1 {
        Some("R_ARM_TARGET1")
    } else if t == R_ARM_PREL31 {
        Some("R_ARM_PREL31")
    } else if t == R_ARM_MOVW_ABS_NC {
        Some("R_ARM_MOVW_ABS_NC")
    } else if t == R_ARM_MOVT_ABS {
        Some("R_ARM_MOVT_ABS")
    } else if t == R_ARM_GOT_PREL {
        Some("R_ARM_GOT_PREL")
    } else if t == R_ARM_COPY {
        Some("R_ARM_COPY")
    } else if t == R_ARM_IRELATIVE {
        Some("R_ARM_IRELATIVE")
    } else if t == R_ARM_TLS_DTPMOD32 {
        Some("R_ARM_TLS_DTPMOD32")
    } else if t == R_ARM_TLS_DTPOFF32 {
        Some("R_ARM_TLS_DTPOFF32")
    } else if t == R_ARM_TLS_TPOFF32 {
        Some("R_ARM_TLS_TPOFF32")
    } else {
        None
    }
}

/// The name of a known AArch64 relocation type.
pub open spec fn aarch64_word(t: u32) -> Option<Seq<char>> {
    if t == R_AARCH64_NONE {
        Some("R_AARCH64_NONE"@)
    } else if t == R_AARCH64_ABS64 {
        Some("R_AARCH64_ABS64"@)
    } else if t == R_AARCH64_ABS32 {
        Some("R_AARCH64_ABS32"@)
    } else if t == R_AARCH64_ABS16 {
        Some("R_AARCH64_ABS16"@)
    } else if t == R_AARCH64_PREL64 {
        Some("R_AARCH64_PREL64"@)
    } else if t == R_AARCH64_PREL32 {
        Some("R_AARCH64_PREL32"@)
    } else if t == R_AARCH64_PREL16 {
        Some("R_AARCH64_PREL16"@)
    } else if t == R_AARCH64_ADR_PREL_PG_HI21 {
        Some("R_AARCH64_ADR_PREL_PG_HI21"@)
    } else if t == R_AARCH64_ADD_ABS_LO12_NC {
        Some("R_AARCH64_ADD_ABS_LO12_NC"@)
    } else if t == R_AARCH64_CALL26 {
        Some("R_AARCH64_CALL26"@)
    } else if t == R_AARCH64_JUMP26 {
        Some("R_AARCH64_JUMP26"@)
    } else if t == R_AARCH64_ADR_GOT_PAGE {
        Some("R_AARCH64_ADR_GOT_PAGE"@)
    } else if t == R_AARCH64_LD64_GOT_LO12_NC {
        Some("R_AARCH64_LD64_GOT_LO12_NC"@)
    } else if t == R_AARCH64_COPY {
        Some("R_AARCH64_COPY"@)
    } else if t == R_AARCH64_GLOB_DAT {
        Some("R_AARCH64_GLOB_DAT"@)
    } else if t == R_AARCH64_JUMP_SLOT {
        Some("R_AARCH64_JUMP_SLOT"@)
    } else if t == R_AARCH64_RELATIVE {
        Some("R_AARCH64_RELATIVE"@)
    } else if t == R_AARCH64_TLS_DTPMOD {
        Some("R_AARCH64_TLS_DTPMOD"@)
    } else if t == R_AARCH64_TLS_DTPREL {
        Some("R_AARCH64_TLS_DTPREL"@)
    } else if t == R_AARCH64_TLS_TPREL {
        Some("R_AARCH64_TLS_TPREL"@)
    } else if t == R_AARCH64_TLSDESC {
        Some("R_AARCH64_TLSDESC"@)
    } else if t == R_AARCH64_IRELATIVE {
        Some("R_AARCH64_IRELATIVE"@)
    } else {
        None
    }
}

fn aarch64_reloc_word(t: u32) -> (r: Option<&'static str>)
    ensures
        word_text(r) == aarch64_word(t),
{
    if t == R_AARCH64_NONE {
        Some("R_AARCH64_NONE")
    } else if t == R_AARCH64_ABS64 {
        Some("R_AARCH64_ABS64")
    } else if t == R_AARCH64_ABS32 {
        Some("R_AARCH64_ABS32")
    } else if t == R_AARCH64_ABS16 {
        Some("R_AARCH64_ABS16")
    } else if t == R_AARCH64_PREL64 {
        Some("R_AARCH64_PREL64")
    } else if t == R_AARCH64_PREL32 {
        Some("R_AARCH64_PREL32")
    } else if t == R_AARCH64_PREL16 {
        Some("R_AARCH64_PREL16")
    } else if t == R_AARCH64_ADR_PREL_PG_HI21 {
        Some("R_AARCH64_ADR_PREL_PG_HI21")
    } else if t == R_AARCH64_ADD_ABS_LO12_NC {
        Some("R_AARCH64_ADD_ABS_LO12_NC")
    } else if t == R_AARCH64_CALL26 {
        Some("R_AARCH64_CALL26")
    } else if t == R_AARCH64_JUMP26 {
        Some("R_AARCH64_JUMP26")
    } else if t == R_AARCH64_ADR_GOT_PAGE {
        Some("R_AARCH64_ADR_GOT_PAGE")
    } else if t == R_AARCH64_LD64_GOT_LO12_NC {
        Some("R_AARCH64_LD64_GOT_LO12_NC")
    } else if t == R_AARCH64_COPY {
        Some("R_AARCH64_COPY")
    } else if t == R_AARCH64_GLOB_DAT {
        Some("R_AARCH64_GLOB_DAT")
    } else if t == R_AARCH64_JUMP_SLOT {
        Some("R_AARCH64_JUMP_SLOT")
    } else if t == R_AARCH64_RELATIVE {
        Some("R_AARCH64_RELATIVE")
    } else if t == R_AARCH64_TLS_DTPMOD {
        Some("R_AARCH64_TLS_DTPMOD")
    } else if t == R_AARCH64_TLS_DTPREL {
        Some("R_AARCH64_TLS_DTPREL")
    } else if t == R_AARCH64_TLS_TPREL {
        Some("R_AARCH64_TLS_TPREL")
    } else if t == R_AARCH64_TLSDESC {
        Some("R_AARCH64_TLSDESC")
    } else if t == R_AARCH64_IRELATIVE {
        Some("R_AARCH64_IRELATIVE")
    } else {
        None
    }
}

/// The name of an AArch64 relocation type that the objects use.
pub open spec fn object_word(t: u32) -> Option<Seq<char>> {
    if t == R_AARCH64_NONE {
        Some("R_AARCH64_NONE"@)
    } else if t == R_AARCH64_ABS64 {
        Some("R_AARCH64_ABS64"@)
    } else if t == R_AARCH64_ABS32 {
        Some("R_AARCH64_ABS32"@)
    } else if t == R_AARCH64_ABS16 {
        Some("R_AARCH64_ABS16"@)
    } else if t == R_AARCH64_PREL64 {
        Some("R_AARCH64_PREL64"@)
    } else if t == R_AARCH64_PREL32 {
        Some("R_AARCH64_PREL32"@)
    } else if t == R_AARCH64_CALL26 {
        Some("R_AARCH64_CALL26"@)
    } else if t == R_AARCH64_JUMP26 {
        Some("R_AARCH64_JUMP26"@)
    } else if t == R_AARCH64_ADR_PREL_PG_HI21 {
        Some("R_AARCH64_ADR_PREL_PG_HI21"@)
    } else if t == R_AARCH64_ADD_ABS_LO12_NC {
        Some("R_AARCH64_ADD_ABS_LO12_NC"@)
    } else if t == R_AARCH64_LDST8_ABS_LO12_NC {
        Some("R_AARCH64_LDST8_ABS_LO12_NC"@)
    } else if t == R_AARCH64_LDST16_ABS_LO12_NC {
        Some("R_AARCH64_LDST16_ABS_LO12_NC"@)
    } else if t == R_AARCH64_LDST32_ABS_LO12_NC {
        Some("R_AARCH64_LDST32_ABS_LO12_NC"@)
    } else if t == R_AARCH64_LDST64_ABS_LO12_NC {
        Some("R_AARCH64_LDST64_ABS_LO12_NC"@)
    } else if t == R_AARCH64_LDST128_ABS_LO12_NC {
        Some("R_AARCH64_LDST128_ABS_LO12_NC"@)
    } else if t == R_AARCH64_ADR_GOT_PAGE {
        Some("R_AARCH64_ADR_GOT_PAGE"@)
    } else if t == R_AARCH64_LD64_GOT_LO12_NC {
        Some("R_AARCH64_LD64_GOT_LO12_NC"@)
    } else {
        None
    }
}

fn object_reloc_word(t: u32) -> (r: Option<&'static str>)
    ensures
        word_text(r) == object_word(t),
{
    if t == R_AARCH64_NONE {
        Some("R_AARCH64_NONE")
    } else if t == R_AARCH64_ABS64 {
        Some("R_AARCH64_ABS64")
    } else if t == R_AARCH64_ABS32 {
        Some("R_AARCH64_ABS32")
    } else if t == R_AARCH64_ABS16 {
        Some("R_AARCH64_ABS16")
    } else if t == R_AARCH64_PREL64 {
        Some("R_AARCH64_PREL64")
    } else if t == R_AARCH64_PREL32 {
        Some("R_AARCH64_PREL32")
    } else if t == R_AARCH64_CALL26 {
        Some("R_AARCH64_CALL26")
    } else if t == R_AARCH64_JUMP26 {
        Some("R_AARCH64_JUMP26")
    } else if t == R_AARCH64_ADR_PREL_PG_HI21 {
        Some("R_AARCH64_ADR_PREL_PG_HI21")
    } else if t == R_AARCH64_ADD_ABS_LO12_NC {
        Some("R_AARCH64_ADD_ABS_LO12_NC")
    } else if t == R_AARCH64_LDST8_ABS_LO12_NC {
        Some("R_AARCH64_LDST8_ABS_LO12_NC")
    } else if t == R_AARCH64_LDST16_ABS_LO12_NC {
        Some("R_AARCH64_LDST16_ABS_LO12_NC")
    } else if t == R_AARCH64_LDST32_ABS_LO12_NC {
        Some("R_AARCH64_LDST32_ABS_LO12_NC")
    } else if t == R_AARCH64_LDST64_ABS_LO12_NC {
        Some("R_AARCH64_LDST64_ABS_LO12_NC")
    } else if t == R_AARCH64_LDST128_ABS_LO12_NC {
        Some("R_AARCH64_LDST128_ABS_LO12_NC")
    } else if t == R_AARCH64_ADR_GOT_PAGE {
        Some("R_AARCH64_ADR_GOT_PAGE")
    } else if t == R_AARCH64_LD64_GOT_LO12_NC {
        Some("R_AARCH64_LD64_GOT_LO12_NC")
    } else {
        None
    }
}

/// A known name, or else `prefix` and the number.
pub open spec fn word_or_number(word: Option<Seq<char>>, prefix: Seq<char>, t: u32) -> Seq<char> {
    match word {
        Some(w) => w,
        None => prefix + digits(t as nat, 10),
    }
}

fn name_or_number(word: Option<&'static str>, prefix: &str, t: u32) -> (r: String)
    ensures
        r@ == word_or_number(word_text(word), prefix@, t),
{
    match word {
        Some(w) => owned(w),
        None => {
            let n = decimal(t as u64);
            joined(prefix, n.as_str())
        },
    }
}

/// The name of a relocation type.
pub open spec fn spec_reloc_name(arch: Arch, t: u32) -> Seq<char> {
    match arch {
        Arch::Aarch64 => word_or_number(aarch64_word(t), "R_AARCH64_"@, t),
        Arch::Arm => word_or_number(arm_word(t), "R_ARM_"@, t),
    }
}

/// Names a relocation type.
pub fn reloc_name(arch: Arch, t: u32) -> (r: String)
    ensures
        r@ == spec_reloc_name(arch, t),
{
    match arch {
        Arch::Aarch64 => name_or_number(aarch64_reloc_word(t), "R_AARCH64_", t),
        Arch::Arm => name_or_number(arm_reloc_word(t), "R_ARM_", t),
    }
}

/// Names a relocation type of an AArch64 object.
pub fn object_reloc_name(t: u32) -> (r: String)
    ensures
        r@ == word_or_number(object_word(t), "R_AARCH64_"@, t),
{
    name_or_number(object_reloc_word(t), "R_AARCH64_", t)
}

/// The rows of the first `n` sections. One whose name is no text is called `<?>`;
/// one without a name is left out.
pub open spec fn rows_of_sections(s: Seq<ImageSectionView>, n: int) -> Seq<SectionRowView>
    decreases n,
{
    if n <= 0 {
        Seq::empty()
    } else {
        let before = rows_of_sections(s, n - 1);
        let name = match s[n - 1].name {
            Some(t) => t,
            None => "<?>"@,
        };
        if name.len() == 0 {
            before
        } else {
            before.push(
                SectionRowView {
                    name,
                    addr: s[n - 1].addr,
                    size: s[n - 1].size,
                    kind: s[n - 1].kind,
                },
            )
        }
    }
}

fn section_table(sections: &Vec<ImageSection>) -> (r: Vec<SectionRow>)
    ensures
        section_rows(r@) == rows_of_sections(section_views(sections@), sections@.len() as int),
{
    let ghost views = section_views(sections@);
    let mut r: Vec<SectionRow> = Vec::new();
    assert(section_rows(r@) =~= Seq::empty());
    let mut i: usize = 0;
    while i < sections.len()
        invariant
            i <= sections@.len(),
            views == section_views(sections@),
            section_rows(r@) == rows_of_sections(views, i as int),
        decreases sections@.len() - i,
    {
        let s = &sections[i];
        assert(views[i as int] == s@);
        let name = match &s.name {
            Some(t) => owned(t.as_str()),
            None => owned("<?>"),
        };
        if name.as_str().unicode_len() > 0 {
            let row = SectionRow {
                name,
                addr: s.addr,
                size: s.size,
                kind: owned(s.kind.as_str()),
            };
            let ghost before = r@;
            let ghost view = row@;
            r.push(row);
            assert(section_rows(r@) =~= section_rows(before).push(view));
        }
        i = i + 1;
    }
    r
}

/// Number of relocations of type `t` among the first `n`.
pub open spec fn type_count(relocs: Seq<DynRelocView>, t: u32, n: int) -> nat
    decreases n,
{
    if n <= 0 {
        0
    } else {
        type_count(relocs, t, n - 1) + (if relocs[n - 1].r_type == t {
            1nat
        } else {
            0nat
        })
    }
}

/// The types of the first `n` relocations.
pub open spec fn types_of(relocs: Seq<DynRelocView>, n: int) -> Set<u64>
    decreases n,
{
    if n <= 0 {
        Set::empty()
    } else {
        types_of(relocs, n - 1).insert(relocs[n - 1].r_type as u64)
    }
}

/// How many relocations of each type there are, by ascending type.
pub open spec fn reloc_counts(arch: Arch, relocs: Seq<DynRelocView>) -> Seq<(Seq<char>, usize)> {
    keys_between(types_of(relocs, relocs.len() as int), 0, u64::MAX).map_values(
        |t: u64|
            (
                spec_reloc_name(arch, t as u32),
                type_count(relocs, t as u32, relocs.len() as int) as usize,
            ),
    )
}

/// A type among relocations comes up no more often than there are relocations.
proof fn lemma_type_count(relocs: Seq<DynRelocView>, t: u32, n: int)
    requires
        0 <= n,
    ensures
        type_count(relocs, t, n) <= n,
        !types_of(relocs, n).contains(t as u64) ==> type_count(relocs, t, n) == 0,
    decreases n,
{
    if n > 0 {
        lemma_type_count(relocs, t, n - 1);
    }
}

/// The types of relocations are small and finitely many.
proof fn lemma_types(relocs: Seq<DynRelocView>, n: int)
    ensures
        types_of(relocs, n).finite(),
        forall|t: u64| #[trigger] types_of(relocs, n).contains(t) ==> t <= u32::MAX,
    decreases n,
{
    if n > 0 {
        lemma_types(relocs, n - 1);
    }
}

fn tally(relocs: &Vec<DynReloc>) -> (m: BTreeMap<u64, usize>)
    ensures
        ({
            let views = dyn_reloc_views(relocs@);
            &&& m@.dom() == types_of(views, views.len() as int)
            &&& forall|t: u32|
                m@.contains_key(t as u64) ==> #[trigger] m@[t as u64] == type_count(
                    views,
                    t,
                    views.len() as int,
                )
        }),
{
    let ghost views = dyn_reloc_views(relocs@);
    let mut m: BTreeMap<u64, usize> = BTreeMap::new();
    let mut i: usize = 0;
    assert(m@.dom() =~= Set::empty());
    while i < relocs.len()
        invariant
            i <= relocs@.len(),
            views == dyn_reloc_views(relocs@),
            m@.dom() == types_of(views, i as int),
            forall|t: u32|
                m@.contains_key(t as u64) ==> #[trigger] m@[t as u64] == type_count(
                    views,
                    t,
                    i as int,
                ),
        decreases relocs@.len() - i,
    {
        let t: u32 = relocs[i].r_type;
        assert(views[i as int] == relocs@[i as int]@);
        let ghost before = m@;
        proof {
            lemma_type_count(views, t, i as int);
        }
        let count: usize = match m.get(&(t as u64)) {
            Some(c) => *c,
            None => 0,
        };
        assert(count == type_count(views, t, i as int));
        m.insert(t as u64, count + 1);
        proof {
            assert(m@.dom() =~= types_of(views, i + 1));
            assert forall|u: u32| m@.contains_key(u as u64) implies #[trigger] m@[u as u64]
                == type_count(views, u, i + 1) by {
                if u != t {
                    assert(before.contains_key(u as u64));
                    assert(before[u as u64] == type_count(views, u, i as int));
                }
            }
        }
        i = i + 1;
    }
    m
}

fn count_dyn_relocs(binary: &Binary) -> (r: Vec<(String, usize)>)
    ensures
        count_rows(r@) == (match spec_all_dyn_relocs(*binary) {
            Some(relocs) => reloc_counts(binary.arch, relocs),
            None => Seq::empty(),
        }),
{
    let mut r: Vec<(String, usize)> = Vec::new();
    assert(count_rows(r@) =~= Seq::empty());
    let relocs = match read_all_dyn_relocs(binary) {
        Ok(v) => v,
        Err(_) => return r,
    };
    let ghost views = dyn_reloc_views(relocs@);
    let ghost n = views.len() as int;
    let m = tally(&relocs);
    let keys = keys_in_range(&m, 0, u64::MAX);
    let ghost goal = reloc_counts(binary.arch, views);
    proof {
        lemma_types(views, n);
        lemma_keys_between(m@.dom(), 0, u64::MAX);
        assert forall|k: int| 0 <= k < keys@.len() implies m@.dom().contains(
            #[trigger] keys@[k],
        ) by {
            assert(keys_between(m@.dom(), 0, u64::MAX).contains(keys@[k]));
        }
    }
    assert(count_rows(r@) =~= goal.subrange(0, 0));
    let mut i: usize = 0;
    while i < keys.len()
        invariant
            i <= keys@.len(),
            keys@ == keys_between(m@.dom(), 0, u64::MAX),
            n == views.len(),
            m@.dom() == types_of(views, n),
            goal == reloc_counts(binary.arch, views),
            goal.len() == keys@.len(),
            forall|t: u32|
                m@.contains_key(t as u64) ==> #[trigger] m@[t as u64] == type_count(views, t, n),
            forall|t: u64| #[trigger] types_of(views, n).contains(t) ==> t <= u32::MAX,
            forall|k: int| 0 <= k < keys@.len() ==> m@.dom().contains(#[trigger] keys@[k]),
            count_rows(r@) == goal.subrange(0, i as int),
        decreases keys@.len() - i,
    {
        let key: u64 = keys[i];
        assert(m@.dom().contains(keys@[i as int]));
        assert(types_of(views, n).contains(key));
        let t: u32 = key as u32;
        assert(t as u64 == key);
        let count: usize = match m.get(&key) {
            Some(c) => *c,
            None => 0,
        };
        assert(m@[t as u64] == type_count(views, t, n));
        let name = reloc_name(binary.arch, t);
        let ghost before = r@;
        let ghost next = goal[i as int];
        assert(next == (name@, count));
        r.push((name, count));
        assert(count_rows(r@) =~= count_rows(before).push(next));
        assert(goal.subrange(0, i + 1) =~= goal.subrange(0, i as int).push(next));
        i = i + 1;
    }
    assert(goal.subrange(0, goal.len() as int) =~= goal);
    r
}

/// Bytes in the first `n` ranges, modulo the range of `u64`.
pub open spec fn range_bytes(ranges: Seq<std::ops::Range<u64>>, n: int) -> u64
    decreases n,
{
    if n <= 0 {
        0
    } else {
        range_bytes(ranges, n - 1).wrapping_add(
            ranges[n - 1].end.wrapping_sub(ranges[n - 1].start),
        )
    }
}

/// Counts the bytes in ranges.
pub fn coverage(ranges: &Vec<std::ops::Range<u64>>) -> (n: u64)
    ensures
        n == range_bytes(ranges@, ranges@.len() as int),
{
    let mut n: u64 = 0;
    let mut i: usize = 0;
    while i < ranges.len()
        invariant
            i <= ranges@.len(),
            n == range_bytes(ranges@, i as int),
        decreases ranges@.len() - i,
    {
        n = n.wrapping_add(ranges[i].end.wrapping_sub(ranges[i].start));
        i = i + 1;
    }
    n
}

/// The row of a unit.
pub open spec fn unit_row(u: CompilationUnit) -> CuRowView {
    CuRowView {
        name: u.name@,
        comp_dir: text_of(u.comp_dir),
        ranges: u.ranges@.len() as usize,
        functions: u.functions@.len() as usize,
        variables: u.variables@.len() as usize,
        coverage: range_bytes(u.ranges@, u.ranges@.len() as int),
    }
}

/// The rows of units.
pub open spec fn rows_of_units(units: Seq<CompilationUnit>) -> Seq<CuRowView> {
    units.map_values(|u: CompilationUnit| unit_row(u))
}

fn unit_table(units: &Vec<CompilationUnit>) -> (r: Vec<CuRow>)
    ensures
        unit_rows(r@) == rows_of_units(units@),
{
    let ghost goal = rows_of_units(units@);
    let mut r: Vec<CuRow> = Vec::new();
    assert(unit_rows(r@) =~= goal.subrange(0, 0));
    let mut i: usize = 0;
    while i < units.len()
        invariant
            i <= units@.len(),
            goal == rows_of_units(units@),
            goal.len() == units@.len(),
            unit_rows(r@) == goal.subrange(0, i as int),
        decreases units@.len() - i,
    {
        let u = &units[i];
        let row = CuRow {
            name: owned(u.name.as_str()),
            comp_dir: clone_text(&u.comp_dir),
            ranges: u.ranges.len(),
            functions: u.functions.len(),
            variables: u.variables.len(),
            coverage: coverage(&u.ranges),
        };
        let ghost before = r@;
        let ghost view = row@;
        assert(view == goal[i as int]);
        r.push(row);
        assert(unit_rows(r@) =~= unit_rows(before).push(view));
        assert(goal.subrange(0, i + 1) =~= goal.subrange(0, i as int).push(view));
        i = i + 1;
    }
    assert(goal.subrange(0, goal.len() as int) =~= goal);
    r
}

/// Number of the first `n` groups whose place is known.
pub open spec fn anchored(groups: Seq<GroupView>, n: int) -> nat
    decreases n,
{
    if n <= 0 {
        0
    } else {
        anchored(groups, n - 1) + (if groups[n - 1].anchor is Some {
            1nat
        } else {
            0nat
        })
    }
}

fn count_anchored(groups: &Vec<FileGroup>) -> (count: usize)
    ensures
        count == anchored(group_views(groups@), groups@.len() as int),
{
    let ghost views = group_views(groups@);
    let mut count: usize = 0;
    let mut i: usize = 0;
    while i < groups.len()
        invariant
            i <= groups@.len(),
            views == group_views(groups@),
            count == anchored(views, i as int),
            count <= i,
        decreases groups@.len() - i,
    {
        assert(views[i as int] == groups@[i as int]@);
        if groups[i].anchor.is_some() {
            count = count + 1;
        }
        i = i + 1;
    }
    count
}

/// True when an image has DWARF information.
pub open spec fn carries_dwarf(binary: Binary) -> bool {
    binary.spec_section_data(".debug_info"@) matches Some(d) && d.len() > 0
}

/// The summary of an image with these symbols and, where it has DWARF information,
/// these units.
pub open spec fn reported(
    binary: Binary,
    units: Seq<CompilationUnit>,
    symbols: Seq<SymbolView>,
) -> ReportView {
    let (base, data, end) = code_section(binary);
    let groups = file_groups(symbols, text_index(binary));
    let named = text_functions_of(symbols, text_index(binary), end);
    let dwarf = carries_dwarf(binary);
    ReportView {
        arch: binary.arch.spec_name(),
        class: binary.class.spec_name(),
        symtab_files: groups.len() as usize,
        symtab_anchored: anchored(groups, groups.len() as int) as usize,
        symtab_functions: all_functions(named, orphan_regions(named, base, data, end)).len()
            as usize,
        sections: rows_of_sections(
            section_views(binary.sections@),
            binary.sections@.len() as int,
        ),
        dyn_relocs: match spec_all_dyn_relocs(binary) {
            Some(relocs) => reloc_counts(binary.arch, relocs),
            None => Seq::empty(),
        },
        cu_rows: if dwarf {
            rows_of_units(units)
        } else {
            Seq::empty()
        },
        total_functions: if dwarf {
            function_count(units, units.len() as int)
        } else {
            0
        },
        total_variables: if dwarf {
            variable_count(units, units.len() as int)
        } else {
            0
        },
        has_dwarf: dwarf,
    }
}

/// Summarises an image. `units` are those of its DWARF information; they do not
/// matter where it has none.
pub fn inspect(binary: &Binary, units: &CuIndex) -> (r: Result<InspectReport, ElfError>)
    ensures
        match r {
            Ok(report) => table_symbols(*binary) is Some && report@ == reported(
                *binary,
                units.units@,
                table_symbols(*binary)->0,
            ),
            Err(e) => table_symbols(*binary) is None && e == ElfError::UnreadableSection,
        },
{
    let has_dwarf = binary.has_dwarf();
    let sections = section_table(&binary.sections);
    let dyn_relocs = count_dyn_relocs(binary);
    let mut cu_rows: Vec<CuRow> = Vec::new();
    assert(unit_rows(cu_rows@) =~= Seq::empty());
    let mut total_functions: usize = 0;
    let mut total_variables: usize = 0;
    if has_dwarf {
        cu_rows = unit_table(&units.units);
        total_functions = units.total_functions();
        total_variables = units.total_variables();
    }
    let symtab = match SymtabIndex::build(binary) {
        Ok(x) => x,
        Err(e) => return Err(e),
    };
    let functions = symtab.text_functions();
    assert(symbol_views(functions@).len() == functions@.len());
    assert(group_views(symtab.groups@).len() == symtab.groups@.len());
    Ok(
        InspectReport {
            arch: owned(binary.arch.name()),
            class: owned(binary.class.name()),
            symtab_files: symtab.groups.len(),
            symtab_anchored: count_anchored(&symtab.groups),
            symtab_functions: functions.len(),
            sections,
            dyn_relocs,
            cu_rows,
            total_functions,
            total_variables,
            has_dwarf,
        },
    )
}

/// With a line for each section from `i` on.
pub open spec fn with_section_lines(out: Seq<char>, rows: Seq<SectionRowView>, i: int) -> Seq<char>
    decreases rows.len() - i,
{
    if i < 0 || i >= rows.len() {
        out
    } else {
        let r = rows[i];
        with_section_lines(
            out + "  "@ + padded_right(spec_truncate(r.name, 28), 28) + " "@ + zero_padded(
                digits(r.addr as nat, 16),
                16,
            ) + " "@ + padded_left(digits(r.size as nat, 10), 10) + "  "@ + r.kind + "\n"@,
            rows,
            i + 1,
        )
    }
}

fn add_section_lines(out: &mut String, rows: &Vec<SectionRow>)
    ensures
        final(out)@ == with_section_lines(old(out)@, section_rows(rows@), 0),
{
    let ghost views = section_rows(rows@);
    let mut i: usize = 0;
    while i < rows.len()
        invariant
            i <= rows@.len(),
            views == section_rows(rows@),
            with_section_lines(old(out)@, views, 0) == with_section_lines(out@, views, i as int),
        decreases rows@.len() - i,
    {
        let r = &rows[i];
        assert(views[i as int] == r@);
        let name = truncate(r.name.as_str(), 28);
        let name = pad_right(name.as_str(), 28);
        let addr = hex(r.addr);
        let addr = pad_zeros(addr.as_str(), 16);
        let size = decimal(r.size);
        let size = pad_left(size.as_str(), 10);
        out.append("  ");
        out.append(name.as_str());
        out.append(" ");
        out.append(addr.as_str());
        out.append(" ");
        out.append(size.as_str());
        out.append("  ");
        out.append(r.kind.as_str());
        out.append("\n");
        i = i + 1;
    }
}

/// With a line for each count from `i` on.
pub open spec fn with_count_lines(out: Seq<char>, rows: Seq<(Seq<char>, usize)>, i: int) -> Seq<char>
    decreases rows.len() - i,
{
    if i < 0 || i >= rows.len() {
        out
    } else {
        with_count_lines(
            out + "  "@ + padded_right(rows[i].0, 40) + " "@ + padded_left(
                digits(rows[i].1 as nat, 10),
                8,
            ) + "\n"@,
            rows,
            i + 1,
        )
    }
}

fn add_count_lines(out: &mut String, rows: &Vec<(String, usize)>)
    ensures
        final(out)@ == with_count_lines(old(out)@, count_rows(rows@), 0),
{
    let ghost views = count_rows(rows@);
    let mut i: usize = 0;
    while i < rows.len()
        invariant
            i <= rows@.len(),
            views == count_rows(rows@),
            with_count_lines(old(out)@, views, 0) == with_count_lines(out@, views, i as int),
        decreases rows@.len() - i,
    {
        assert(views[i as int] == (rows@[i as int].0@, rows@[i as int].1));
        let name = pad_right(rows[i].0.as_str(), 40);
        let count = decimal(rows[i].1 as u64);
        let count = pad_left(count.as_str(), 8);
        out.append("  ");
        out.append(name.as_str());
        out.append(" ");
        out.append(count.as_str());
        out.append("\n");
        i = i + 1;
    }
}

/// A number in a column.
pub open spec fn column(n: int, width: nat) -> Seq<char> {
    padded_left(digits(n as nat, 10), width)
}

fn add_column(out: &mut String, n: u64, width: usize)
    ensures
        final(out)@ == old(out)@ + " "@ + column(n as int, width as nat),
{
    let d = decimal(n);
    let d = pad_left(d.as_str(), width);
    out.append(" ");
    out.append(d.as_str());
}

/// With a line for each unit from `i` on.
pub open spec fn with_unit_lines(out: Seq<char>, rows: Seq<CuRowView>, i: int) -> Seq<char>
    decreases rows.len() - i,
{
    if i < 0 || i >= rows.len() {
        out
    } else {
        let r = rows[i];
        with_unit_lines(
            out + "  "@ + padded_right(spec_truncate(r.name, 50), 50) + " "@ + column(
                r.ranges as int,
                6,
            ) + " "@ + column(r.functions as int, 6) + " "@ + column(r.variables as int, 6) + " "@
                + column(r.coverage as int, 10) + "\n"@,
            rows,
            i + 1,
        )
    }
}

fn add_unit_lines(out: &mut String, rows: &Vec<CuRow>)
    ensures
        final(out)@ == with_unit_lines(old(out)@, unit_rows(rows@), 0),
{
    let ghost views = unit_rows(rows@);
    let mut i: usize = 0;
    while i < rows.len()
        invariant
            i <= rows@.len(),
            views == unit_rows(rows@),
            with_unit_lines(old(out)@, views, 0) == with_unit_lines(out@, views, i as int),
        decreases rows@.len() - i,
    {
        let r = &rows[i];
        assert(views[i as int] == r@);
        let name = truncate(r.name.as_str(), 50);
        let name = pad_right(name.as_str(), 50);
        out.append("  ");
        out.append(name.as_str());
        add_column(out, r.ranges as u64, 6);
        add_column(out, r.functions as u64, 6);
        add_column(out, r.variables as u64, 6);
        add_column(out, r.coverage, 10);
        out.append("\n");
        i = i + 1;
    }
}

/// The first lines of a summary: architecture, DWARF and symbol table.
pub open spec fn head_text(r: ReportView) -> Seq<char> {
    ""@ + "arch: "@ + r.arch + " ("@ + r.class + ")\n"@ + "dwarf: "@ + (if r.has_dwarf {
        "present"@
    } else {
        "MISSING"@
    }) + "\n"@ + "symtab: "@ + digits(r.symtab_files as nat, 10) + " STT_FILE units ("@ + digits(
        r.symtab_anchored as nat,
        10,
    ) + " with a .text anchor), "@ + digits(r.symtab_functions as nat, 10)
        + " sized functions in .text\n"@ + "\n"@
}

fn write_head(r: &InspectReport) -> (out: String)
    ensures
        out@ == head_text(r@),
{
    let mut out = owned("");
    out.append("arch: ");
    out.append(r.arch.as_str());
    out.append(" (");
    out.append(r.class.as_str());
    out.append(")\n");
    out.append("dwarf: ");
    if r.has_dwarf {
        out.append("present");
    } else {
        out.append("MISSING");
    }
    out.append("\n");
    out.append("symtab: ");
    let files = decimal(r.symtab_files as u64);
    out.append(files.as_str());
    out.append(" STT_FILE units (");
    let anchored = decimal(r.symtab_anchored as u64);
    out.append(anchored.as_str());
    out.append(" with a .text anchor), ");
    let functions = decimal(r.symtab_functions as u64);
    out.append(functions.as_str());
    out.append(" sized functions in .text\n");
    out.append("\n");
    out
}

/// With the table of sections.
pub open spec fn with_sections(out: Seq<char>, r: ReportView) -> Seq<char> {
    with_section_lines(
        out + "SECTIONS\n"@ + "  "@ + padded_right("name"@, 28) + " "@ + padded_left("addr"@, 16)
            + " "@ + padded_left("size"@, 10) + "  kind\n"@,
        r.sections,
        0,
    ) + "\n"@
}

fn add_sections(out: &mut String, r: &InspectReport)
    ensures
        final(out)@ == with_sections(old(out)@, r@),
{
    let name = pad_right("name", 28);
    let addr = pad_left("addr", 16);
    let size = pad_left("size", 10);
    out.append("SECTIONS\n");
    out.append("  ");
    out.append(name.as_str());
    out.append(" ");
    out.append(addr.as_str());
    out.append(" ");
    out.append(size.as_str());
    out.append("  kind\n");
    add_section_lines(out, &r.sections);
    out.append("\n");
}

/// With the table of dynamic relocations.
pub open spec fn with_relocs(out: Seq<char>, r: ReportView) -> Seq<char> {
    let head = out + "DYNAMIC RELOCATIONS\n"@;
    (if r.dyn_relocs.len() == 0 {
        head + "  (none)\n"@
    } else {
        with_count_lines(head, r.dyn_relocs, 0)
    }) + "\n"@
}

fn add_relocs(out: &mut String, r: &InspectReport)
    ensures
        final(out)@ == with_relocs(old(out)@, r@),
{
    out.append("DYNAMIC RELOCATIONS\n");
    assert(count_rows(r.dyn_relocs@).len() == r.dyn_relocs@.len());
    if r.dyn_relocs.len() == 0 {
        out.append("  (none)\n");
    } else {
        add_count_lines(out, &r.dyn_relocs);
    }
    out.append("\n");
}

/// With the table of compilation units.
pub open spec fn with_units(out: Seq<char>, r: ReportView) -> Seq<char> {
    with_unit_lines(
        out + "COMPILATION UNITS: "@ + digits(r.cu_rows.len(), 10) + " ("@ + digits(
            r.total_functions as nat,
            10,
        ) + " functions, "@ + digits(r.total_variables as nat, 10) + " variables)\n"@ + "  "@
            + padded_right("name"@, 50) + " "@ + padded_left("ranges"@, 6) + " "@ + padded_left(
            "funcs"@,
            6,
        ) + " "@ + padded_left("vars"@, 6) + " "@ + padded_left("bytes"@, 10) + "\n"@,
        r.cu_rows,
        0,
    )
}

fn add_units(out: &mut String, r: &InspectReport)
    ensures
        final(out)@ == with_units(old(out)@, r@),
{
    assert(unit_rows(r.cu_rows@).len() == r.cu_rows@.len());
    let count = decimal(r.cu_rows.len() as u64);
    let functions = decimal(r.total_functions as u64);
    let variables = decimal(r.total_variables as u64);
    out.append("COMPILATION UNITS: ");
    out.append(count.as_str());
    out.append(" (");
    out.append(functions.as_str());
    out.append(" functions, ");
    out.append(variables.as_str());
    out.append(" variables)\n");
    let name = pad_right("name", 50);
    let ranges = pad_left("ranges", 6);
    let funcs = pad_left("funcs", 6);
    let vars = pad_left("vars", 6);
    let bytes = pad_left("bytes", 10);
    out.append("  ");
    out.append(name.as_str());
    out.append(" ");
    out.append(ranges.as_str());
    out.append(" ");
    out.append(funcs.as_str());
    out.append(" ");
    out.append(vars.as_str());
    out.append(" ");
    out.append(bytes.as_str());
    out.append("\n");
    add_unit_lines(out, &r.cu_rows);
}

/// A summary as text.
pub open spec fn report_text(r: ReportView) -> Seq<char> {
    with_units(with_relocs(with_sections(head_text(r), r), r), r)
}

/// Formats a summary.
pub fn format_text(r: &InspectReport) -> (out: String)
    ensures
        out@ == report_text(r@),
{
    let mut out = write_head(r);
    add_sections(&mut out, r);
    add_relocs(&mut out, r);
    add_units(&mut out, r);
    out
}

} // verus!
