//! How the tables of an image encode its dynamic relocations.
use vstd::prelude::*;

use super::binary::Binary;
use super::dynrel::{
    entry_reloc, entry_size, entry_word, info_sym, info_type, section_relocs, spec_all_dyn_relocs,
    DynRelocView,
};
use crate::arch::ElfClass;
use crate::bytes::le_value;
use crate::cstr::utf8_string_at;

verus! {

/// Bytes of an address.
pub open spec fn address_len(binary: Binary) -> nat {
    if binary.class is Elf64 {
        8
    } else {
        4
    }
}

/// Bytes of an entry: an address and a word of info, and an addend where there is one.
pub open spec fn entry_len(binary: Binary, is_rela: bool) -> nat {
    if is_rela {
        3 * address_len(binary)
    } else {
        2 * address_len(binary)
    }
}

/// What the symbol counts in a word of info; the type is below that.
pub open spec fn symbol_unit(binary: Binary) -> int {
    if binary.class is Elf64 {
        0x1_0000_0000
    } else {
        0x100
    }
}

/// What an addend counts modulo.
pub open spec fn addend_modulus(binary: Binary) -> int {
    if binary.class is Elf64 {
        0x1_0000_0000_0000_0000
    } else {
        0x1_0000_0000
    }
}

/// Where the dynamic symbol `sym` is in its table.
pub open spec fn symbol_at(binary: Binary, sym: u32) -> int {
    if binary.class is Elf64 {
        24 * sym
    } else {
        16 * sym
    }
}

/// True when `name` is what the tables call the dynamic symbol `sym`.
pub open spec fn is_name_of(binary: Binary, sym: u32, name: Seq<char>) -> bool {
    &&& sym == 0 ==> name.len() == 0
    &&& match (binary.spec_section_data(".dynsym"@), binary.spec_section_data(".dynstr"@)) {
        (Some(symbols), Some(strings)) => sym != 0 && symbol_at(binary, sym) + 4 <= symbols.len()
            ==> (utf8_string_at(
            strings,
            le_value(symbols, symbol_at(binary, sym), 4),
        ) matches Some(text) ==> name == text),
        (None, _) => name.len() == 0,
        _ => true,
    }
}

/// True when `r` is encoded by the entry at `at`: the address, then the symbol and the type in
/// one word, then the addend with its sign. Without an addend in the entry it is what the image
/// holds at the address.
pub open spec fn encodes(
    binary: Binary,
    data: Seq<u8>,
    at: int,
    is_rela: bool,
    r: DynRelocView,
) -> bool {
    let n = address_len(binary);
    &&& le_value(data, at, n) == r.r_offset
    &&& le_value(data, at + n, n) == r.r_sym * symbol_unit(binary) + r.r_type
    &&& r.r_type < symbol_unit(binary)
    &&& is_rela ==> le_value(data, at + 2 * n, n) == (r.r_addend as int)
        % addend_modulus(binary)
    &&& is_rela ==> -addend_modulus(binary) <= 2 * r.r_addend < addend_modulus(binary)
    &&& !is_rela ==> r.r_addend == (match binary.spec_read_word_at(r.r_offset) {
        Some(w) => w as i64,
        None => 0,
    })
    &&& is_name_of(binary, r.r_sym, r.sym_name)
}

/// True when the section `name` has an entry `i`, at `data`.
pub open spec fn has_entry(
    binary: Binary,
    name: Seq<char>,
    is_rela: bool,
    data: Seq<u8>,
    i: int,
) -> bool {
    &&& binary.spec_section_data(name) == Some(data)
    &&& 0 <= i
    &&& (i + 1) * entry_len(binary, is_rela) <= data.len()
}

/// True when `all` has, of each entry of the section `name`, the relocation.
pub open spec fn has_all_of(
    binary: Binary,
    name: Seq<char>,
    is_rela: bool,
    plt: bool,
    all: Seq<DynRelocView>,
) -> bool {
    forall|data: Seq<u8>, i: int| #[trigger]
        has_entry(binary, name, is_rela, data, i) ==> has_one(binary, data, i, is_rela, plt, all)
}

/// True when `all` has what entry `i` encodes.
pub open spec fn has_one(
    binary: Binary,
    data: Seq<u8>,
    i: int,
    is_rela: bool,
    plt: bool,
    all: Seq<DynRelocView>,
) -> bool {
    exists|j: int|
        0 <= j < all.len() && encodes(
            binary,
            data,
            i * entry_len(binary, is_rela),
            is_rela,
            #[trigger] all[j],
        ) && all[j].from_plt_section == plt
}

/// True when `r` is what some entry of the section `name` encodes.
pub open spec fn is_of_section(
    binary: Binary,
    name: Seq<char>,
    is_rela: bool,
    plt: bool,
    r: DynRelocView,
) -> bool {
    exists|data: Seq<u8>, i: int| #[trigger]
        has_entry(binary, name, is_rela, data, i) && encodes(
            binary,
            data,
            i * entry_len(binary, is_rela),
            is_rela,
            r,
        ) && r.from_plt_section == plt
}

proof fn lemma_bounds(data: Seq<u8>, at: int)
    ensures
        0 <= le_value(data, at, 4) < 0x1_0000_0000,
        0 <= le_value(data, at, 8) < 0x1_0000_0000_0000_0000,
{
    reveal_with_fuel(le_value, 9);
}

proof fn lemma_info(class: ElfClass, info: u64)
    requires
        class is Elf32 ==> info < 0x1_0000_0000,
    ensures
        class is Elf32 ==> info == info_sym(class, info) * 0x100 + info_type(class, info)
            && info_type(class, info) < 0x100,
        class is Elf64 ==> info == info_sym(class, info) * 0x1_0000_0000 + info_type(class, info),
{
    if class is Elf32 {
        assert(info == ((info >> 8) as u32) * 0x100 + ((info & 0xff) as u32) && ((info
            & 0xff) as u32) < 0x100) by (bit_vector)
            requires
                info < 0x1_0000_0000,
        ;
    } else {
        assert(info == ((info >> 32) as u32) * 0x1_0000_0000 + ((info & 0xffff_ffff) as u32))
            by (bit_vector);
    }
}

proof fn lemma_signed(w: u64)
    ensures
        w == ((w as i64) as int) % 0x1_0000_0000_0000_0000,
        w < 0x1_0000_0000 ==> w == ((w as u32 as i32 as i64) as int) % 0x1_0000_0000,
        w < 0x1_0000_0000 ==> -0x8000_0000 <= (w as u32 as i32 as i64) < 0x8000_0000,
{
    assert(w < 0x8000_0000_0000_0000 ==> w as i64 == w) by (bit_vector);
    assert(w >= 0x8000_0000_0000_0000 ==> w as i64 == w - 0x1_0000_0000_0000_0000)
        by (bit_vector);
    assert(w < 0x8000_0000 ==> w as u32 as i32 as i64 == w) by (bit_vector);
    assert(0x8000_0000 <= w < 0x1_0000_0000 ==> w as u32 as i32 as i64 == w - 0x1_0000_0000)
        by (bit_vector);
}

proof fn lemma_encodes(binary: Binary, data: Seq<u8>, at: int, is_rela: bool, plt: bool)
    ensures
        encodes(binary, data, at, is_rela, entry_reloc(binary, data, at, is_rela, plt)),
{
    let n = address_len(binary) as int;
    lemma_bounds(data, at);
    lemma_bounds(data, at + n);
    lemma_bounds(data, at + 2 * n);
    assert(0 * n == 0 && 1 * n == n);
    lemma_info(binary.class, entry_word(data, at, binary.class, 1));
    lemma_signed(entry_word(data, at, binary.class, 2));
    let r = entry_reloc(binary, data, at, is_rela, plt);
    assert(is_name_of(binary, r.r_sym, r.sym_name));
}

proof fn lemma_room(len: nat, size: nat, i: int)
    requires
        size > 0,
        0 <= i,
    ensures
        i < len / size <==> (i + 1) * size <= len,
{
    let q = (len / size) as int;
    let d = size as int;
    vstd::arithmetic::div_mod::lemma_fundamental_div_mod(len as int, d);
    if i < q {
        assert((i + 1) * d <= d * q) by (nonlinear_arith)
            requires
                i + 1 <= q,
                d > 0,
        ;
    } else {
        assert((i + 1) * d >= d * q + d) by (nonlinear_arith)
            requires
                i >= q,
                d > 0,
        ;
    }
}

proof fn lemma_section(
    binary: Binary,
    name: Seq<char>,
    is_rela: bool,
    plt: bool,
    all: Seq<DynRelocView>,
    from: int,
)
    requires
        section_relocs(binary, name, is_rela, plt) is Some,
        0 <= from,
        from + (section_relocs(binary, name, is_rela, plt)->0).len() <= all.len(),
        forall|j: int|
            0 <= j < (section_relocs(binary, name, is_rela, plt)->0).len() ==> all[from + j] == (
            #[trigger] (section_relocs(binary, name, is_rela, plt)->0)[j]),
    ensures
        has_all_of(binary, name, is_rela, plt, all),
        forall|j: int|
            from <= j < from + (section_relocs(binary, name, is_rela, plt)->0).len()
                ==> is_of_section(binary, name, is_rela, plt, #[trigger] all[j]),
{
    let own = section_relocs(binary, name, is_rela, plt)->0;
    let size = entry_size(binary.class, is_rela);
    assert(size == entry_len(binary, is_rela));
    assert forall|data: Seq<u8>, i: int| #[trigger]
        has_entry(binary, name, is_rela, data, i) implies has_one(
        binary,
        data,
        i,
        is_rela,
        plt,
        all,
    ) by {
        lemma_room(data.len(), size, i);
        lemma_encodes(binary, data, i * size, is_rela, plt);
        assert(all[from + i] == own[i]);
    }
    assert forall|j: int| from <= j < from + own.len() implies is_of_section(
        binary,
        name,
        is_rela,
        plt,
        #[trigger] all[j],
    ) by {
        let data = binary.spec_section_data(name)->0;
        let i = j - from;
        lemma_room(data.len(), size, i);
        lemma_encodes(binary, data, i * size, is_rela, plt);
        assert(all[from + i] == own[i]);
        assert(has_entry(binary, name, is_rela, data, i));
    }
}

/// The dynamic relocations of an image are those that the entries of its four tables encode:
/// each entry has its relocation, marked where the table is one of procedure linkage, and
/// there is no other.
pub proof fn law_entries_encode_the_relocations(binary: Binary)
    requires
        spec_all_dyn_relocs(binary) is Some,
    ensures
        has_all_of(binary, ".rel.dyn"@, false, false, spec_all_dyn_relocs(binary)->0),
        has_all_of(binary, ".rel.plt"@, false, true, spec_all_dyn_relocs(binary)->0),
        has_all_of(binary, ".rela.dyn"@, true, false, spec_all_dyn_relocs(binary)->0),
        has_all_of(binary, ".rela.plt"@, true, true, spec_all_dyn_relocs(binary)->0),
        forall|j: int|
            0 <= j < (spec_all_dyn_relocs(binary)->0).len() ==> {
                let r = #[trigger] (spec_all_dyn_relocs(binary)->0)[j];
                ||| is_of_section(binary, ".rel.dyn"@, false, false, r)
                ||| is_of_section(binary, ".rel.plt"@, false, true, r)
                ||| is_of_section(binary, ".rela.dyn"@, true, false, r)
                ||| is_of_section(binary, ".rela.plt"@, true, true, r)
            },
{
    let all = spec_all_dyn_relocs(binary)->0;
    let a = section_relocs(binary, ".rel.dyn"@, false, false)->0;
    let b = section_relocs(binary, ".rel.plt"@, false, true)->0;
    let c = section_relocs(binary, ".rela.dyn"@, true, false)->0;
    lemma_section(binary, ".rel.dyn"@, false, false, all, 0);
    lemma_section(binary, ".rel.plt"@, false, true, all, a.len() as int);
    lemma_section(binary, ".rela.dyn"@, true, false, all, (a.len() + b.len()) as int);
    lemma_section(binary, ".rela.plt"@, true, true, all, (a.len() + b.len() + c.len()) as int);
}

} // verus!
