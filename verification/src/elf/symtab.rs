//! Compilation units from the symbol table of an ELF image.
//!
//! A linker writes the symbol table in link order: for every input object with
//! local symbols a symbol that names the source file, then the local symbols of
//! the object. That gives the boundaries of every unit with a static function.
//! Other units leave no anchor; their code lies between the anchors of their
//! neighbours, so every function goes to the nearest anchor before it.
use std::ops::Range;
use vstd::prelude::*;

use super::binary::{Binary, ElfError};
use super::cu::{
    function_views, unit_views, variable_views, CompilationUnit, CuIndex, Function, FunctionView,
    UnitView, Variable, VariableView,
};
use super::dynrel::spec_all_dyn_relocs;
use super::symbols::{
    unit_functions, unit_variables, variable_map, GlobalSymbols, VariableRef, VariableRefView,
};
use crate::arch::{Arch, ElfClass};
use crate::bytes::{le_value, read_u16_le, read_u32_le, read_u64_le};
use crate::cstr::{read_string, string_at};
use crate::image::{elf_section, section_called, section_named};
use crate::ordered::{
    by_address, distinct, lemma_distinct, lemma_distinct_is_first, lemma_sorted_map,
    lemma_stable_sorted, lemma_stable_sorted_contains, lemma_stable_sorted_numbers,
    sort_by_address, stable_sorted, total_preorder, without_repeats,
};
use crate::text::{digits, hex, joined, owned, str_eq, text_le, text_of};

verus! {

broadcast use vstd::std_specs::btree::group_btree_axioms;

/// Symbol type of data.
pub const STT_OBJECT: u8 = 1;

/// Symbol type of functions.
pub const STT_FUNC: u8 = 2;

/// Symbol type of source files.
pub const STT_FILE: u8 = 4;

/// Binding of local symbols.
pub const STB_LOCAL: u8 = 0;

/// Prefix of the names for code that no symbol describes.
pub const ORPHAN_PREFIX: &'static str = "__delink_orphan_";

/// Name of the unit for functions in front of every anchor.
pub const UNATTRIBUTED: &'static str = "__unattributed";

/// An entry of the symbol table.
#[derive(Debug)]
pub struct StaticSymbol {
    pub name: String,
    pub value: u64,
    pub size: u64,
    pub sym_type: u8,
    pub bind: u8,
    pub shndx: u16,
}

/// An entry of the symbol table, with its name as text.
pub ghost struct SymbolView {
    pub name: Seq<char>,
    pub value: u64,
    pub size: u64,
    pub sym_type: u8,
    pub bind: u8,
    pub shndx: u16,
}

impl View for StaticSymbol {
    type V = SymbolView;

    open spec fn view(&self) -> SymbolView {
        SymbolView {
            name: self.name@,
            value: self.value,
            size: self.size,
            sym_type: self.sym_type,
            bind: self.bind,
            shndx: self.shndx,
        }
    }
}

impl Clone for StaticSymbol {
    fn clone(&self) -> (r: Self)
        ensures
            r == *self,
    {
        StaticSymbol {
            name: self.name.clone(),
            value: self.value,
            size: self.size,
            sym_type: self.sym_type,
            bind: self.bind,
            shndx: self.shndx,
        }
    }
}

impl StaticSymbol {
    /// Tests whether the symbol is local to its unit.
    pub fn is_local(&self) -> (b: bool)
        ensures
            b == (self.bind == STB_LOCAL),
    {
        self.bind == STB_LOCAL
    }
}

/// Symbols, with their names as text.
pub open spec fn symbol_views(v: Seq<StaticSymbol>) -> Seq<SymbolView> {
    v.map_values(|s: StaticSymbol| s@)
}

/// A source file and the local symbols behind it.
#[derive(Debug)]
pub struct FileGroup {
    pub file: String,
    /// Lowest address of a local function of the group; a group without one cannot
    /// be placed.
    pub anchor: Option<u64>,
    pub locals: Vec<StaticSymbol>,
}

/// A source file and the local symbols behind it, with names as text.
#[verifier::ext_equal]
pub ghost struct GroupView {
    pub file: Seq<char>,
    pub anchor: Option<u64>,
    pub locals: Seq<SymbolView>,
}

impl View for FileGroup {
    type V = GroupView;

    open spec fn view(&self) -> GroupView {
        GroupView { file: self.file@, anchor: self.anchor, locals: symbol_views(self.locals@) }
    }
}

/// Groups, with names as text.
pub open spec fn group_views(v: Seq<FileGroup>) -> Seq<GroupView> {
    v.map_values(|g: FileGroup| g@)
}

/// The symbol table of an image.
pub struct SymtabIndex {
    pub symbols: Vec<StaticSymbol>,
    pub groups: Vec<FileGroup>,
    /// Number of the code section.
    pub text_shndx: Option<u16>,
    /// End of the code section.
    pub text_end: u64,
    /// Entries for code that no symbol describes.
    pub orphans: Vec<StaticSymbol>,
}

/// The symbol in the table entry at `at`. The lowest bit of an ARM function's
/// value tells its instruction set and is no part of the address.
pub open spec fn entry_symbol(data: Seq<u8>, strings: Seq<u8>, at: int, arch: Arch, class: ElfClass) -> SymbolView {
    let (value, size, info, shndx) = match class {
        ElfClass::Elf32 => (
            le_value(data, at + 4, 4) as u64,
            le_value(data, at + 8, 4) as u64,
            data[at + 12],
            le_value(data, at + 14, 2) as u16,
        ),
        ElfClass::Elf64 => (
            le_value(data, at + 8, 8) as u64,
            le_value(data, at + 16, 8) as u64,
            data[at + 4],
            le_value(data, at + 6, 2) as u16,
        ),
    };
    let sym_type = info & 0xf;
    SymbolView {
        name: string_at(strings, le_value(data, at, 4)),
        value: if arch == Arch::Arm && sym_type == STT_FUNC {
            value & !1
        } else {
            value
        },
        size,
        sym_type,
        bind: info >> 4,
        shndx,
    }
}

/// The symbol table of an image; empty where it has none, and none where it
/// cannot be read.
pub open spec fn table_symbols(binary: Binary) -> Option<Seq<SymbolView>> {
    if elf_section(binary.sections@, ".symtab"@) is None || elf_section(
        binary.sections@,
        ".strtab"@,
    ) is None {
        Some(Seq::empty())
    } else {
        match (binary.spec_section_data(".symtab"@), binary.spec_section_data(".strtab"@)) {
            (Some(data), Some(strings)) => Some(
                Seq::new(
                    data.len() / binary.class.spec_sym_entsize(),
                    |i: int|
                        entry_symbol(
                            data,
                            strings,
                            i * binary.class.spec_sym_entsize(),
                            binary.arch,
                            binary.class,
                        ),
                ),
            ),
            _ => None,
        }
    }
}

/// With the source files, and the local symbols behind them, from symbol `i` on.
pub open spec fn with_groups(groups: Seq<GroupView>, symbols: Seq<SymbolView>, i: int) -> Seq<
    GroupView,
>
    decreases symbols.len() - i,
{
    if i < 0 || i >= symbols.len() {
        groups
    } else {
        let s = symbols[i];
        with_groups(
            if s.sym_type == STT_FILE {
                groups.push(GroupView { file: s.name, anchor: None, locals: Seq::empty() })
            } else if groups.len() > 0 && s.bind == STB_LOCAL && (s.sym_type == STT_FUNC
                || s.sym_type == STT_OBJECT) && s.shndx != 0 {
                groups.drop_last().push(
                    GroupView { locals: groups.last().locals.push(s), ..groups.last() },
                )
            } else {
                groups
            },
            symbols,
            i + 1,
        )
    }
}

/// Lowest address of a function with a size in the code section, among the first
/// `n`.
pub open spec fn lowest_function(locals: Seq<SymbolView>, text_shndx: Option<u16>, n: int) -> Option<
    u64,
>
    decreases n,
{
    if n <= 0 {
        None
    } else {
        let before = lowest_function(locals, text_shndx, n - 1);
        let s = locals[n - 1];
        if s.sym_type == STT_FUNC && s.size > 0 && Some(s.shndx) == text_shndx && (before is None
            || s.value < before->0) {
            Some(s.value)
        } else {
            before
        }
    }
}

/// The source files of a symbol table, each with its local symbols and its anchor.
pub open spec fn file_groups(symbols: Seq<SymbolView>, text_shndx: Option<u16>) -> Seq<GroupView> {
    with_groups(Seq::empty(), symbols, 0).map_values(
        |g: GroupView|
            GroupView {
                anchor: lowest_function(g.locals, text_shndx, g.locals.len() as int),
                ..g
            },
    )
}

/// The named functions of the code section among the first `n` symbols.
pub open spec fn named_functions(symbols: Seq<SymbolView>, text_shndx: Option<u16>, n: int) -> Seq<
    SymbolView,
>
    decreases n,
{
    if n <= 0 {
        Seq::empty()
    } else {
        let before = named_functions(symbols, text_shndx, n - 1);
        let s = symbols[n - 1];
        if s.sym_type == STT_FUNC && Some(s.shndx) == text_shndx && s.name.len() > 0 {
            before.push(s)
        } else {
            before
        }
    }
}

/// Orders symbols by address; at one address, those with a size go first, and
/// then by name.
pub open spec fn function_order() -> spec_fn(SymbolView, SymbolView) -> bool {
    |a: SymbolView, b: SymbolView|
        a.value < b.value || (a.value == b.value && ((a.size != 0 && b.size == 0) || ((a.size == 0)
            == (b.size == 0) && text_le(a.name, b.name))))
}

/// The same order on symbols in memory.
pub open spec fn function_order_exec() -> spec_fn(StaticSymbol, StaticSymbol) -> bool {
    |a: StaticSymbol, b: StaticSymbol| function_order()(a@, b@)
}

/// Orders symbols by address, then by name.
pub open spec fn object_order() -> spec_fn(SymbolView, SymbolView) -> bool {
    |a: SymbolView, b: SymbolView|
        a.value < b.value || (a.value == b.value && text_le(a.name, b.name))
}

/// The same order on symbols in memory.
pub open spec fn object_order_exec() -> spec_fn(StaticSymbol, StaticSymbol) -> bool {
    |a: StaticSymbol, b: StaticSymbol| object_order()(a@, b@)
}

/// Orders symbols by address.
pub open spec fn value_order() -> spec_fn(SymbolView, SymbolView) -> bool {
    |a: SymbolView, b: SymbolView| a.value <= b.value
}

/// The same order on symbols in memory.
pub open spec fn value_order_exec() -> spec_fn(StaticSymbol, StaticSymbol) -> bool {
    |a: StaticSymbol, b: StaticSymbol| value_order()(a@, b@)
}

/// What functions are sorted by.
fn function_key(s: &StaticSymbol) -> (k: (u64, bool, String))
    ensures
        k.0 == s.value,
        k.1 == (s.size == 0),
        k.2@ == s.name@,
{
    (s.value, s.size == 0, s.name.clone())
}

/// What data are sorted by.
fn object_key(s: &StaticSymbol) -> (k: (u64, String))
    ensures
        k.0 == s.value,
        k.1@ == s.name@,
{
    (s.value, s.name.clone())
}

/// `slice::sort_by_key` with [`function_key`] as its key: a stable sort. Tuples
/// compare by their first difference, `false` goes before `true`, and strings
/// compare by their code points.
#[verifier::external_body]
fn sort_functions(v: &mut Vec<StaticSymbol>)
    ensures
        final(v)@ == stable_sorted(old(v)@, function_order_exec()),
{
    v.sort_by_key(|s| function_key(s));
}

/// `slice::sort_by_key` with [`object_key`] as its key: a stable sort. Tuples
/// compare by their first difference, and strings compare by their code points.
#[verifier::external_body]
fn sort_objects(v: &mut Vec<StaticSymbol>)
    ensures
        final(v)@ == stable_sorted(old(v)@, object_order_exec()),
{
    v.sort_by_key(|s| object_key(s));
}

/// `slice::sort_by_key` with the address as its key: a stable sort.
#[verifier::external_body]
fn sort_by_value(v: &mut Vec<StaticSymbol>)
    ensures
        final(v)@ == stable_sorted(old(v)@, value_order_exec()),
{
    v.sort_by_key(|s| s.value);
}

/// The first symbol of each address among the first `n`.
pub open spec fn first_of_value(s: Seq<SymbolView>, n: int) -> Seq<SymbolView>
    decreases n,
{
    if n <= 0 {
        Seq::empty()
    } else {
        let before = first_of_value(s, n - 1);
        if before.len() > 0 && before.last().value == s[n - 1].value {
            before
        } else {
            before.push(s[n - 1])
        }
    }
}

/// Where the function `i` ends if it has no size: at the next function, or else at
/// the end of the code.
pub open spec fn next_start(s: Seq<SymbolView>, i: int, text_end: u64) -> u64 {
    let next = if i + 1 < s.len() {
        s[i + 1].value
    } else {
        text_end
    };
    if next >= s[i].value {
        next
    } else {
        s[i].value
    }
}

/// Functions without a size get the one that the next function leaves them.
pub open spec fn sized(s: Seq<SymbolView>, text_end: u64) -> Seq<SymbolView> {
    Seq::new(
        s.len(),
        |i: int|
            if s[i].size != 0 {
                s[i]
            } else {
                SymbolView { size: (next_start(s, i, text_end) - s[i].value) as u64, ..s[i] }
            },
    )
}

/// The functions, from `i` on, that take up space and do not begin before `end`,
/// which each of them moves behind itself.
pub open spec fn with_disjoint(kept: Seq<SymbolView>, s: Seq<SymbolView>, end: int, i: int) -> Seq<
    SymbolView,
>
    decreases s.len() - i,
{
    if i < 0 || i >= s.len() {
        kept
    } else if s[i].size == 0 || s[i].value < end {
        with_disjoint(kept, s, end, i + 1)
    } else {
        with_disjoint(kept.push(s[i]), s, s[i].value + s[i].size, i + 1)
    }
}

/// The named functions of the code section by address. Of several at one address
/// the first with a size stays, a missing size runs to the next function, and
/// entries inside another function go.
pub open spec fn text_functions_of(
    symbols: Seq<SymbolView>,
    text_shndx: Option<u16>,
    text_end: u64,
) -> Seq<SymbolView> {
    let sorted = stable_sorted(
        named_functions(symbols, text_shndx, symbols.len() as int),
        function_order(),
    );
    with_disjoint(
        Seq::empty(),
        sized(first_of_value(sorted, sorted.len() as int), text_end),
        0,
        0,
    )
}

/// True when the functions take up space, are in ascending order and do not
/// overlap.
pub open spec fn disjoint(s: Seq<SymbolView>) -> bool {
    &&& forall|i: int| 0 <= i < s.len() ==> (#[trigger] s[i]).size > 0
    &&& forall|i: int, j: int|
        0 <= i < j < s.len() ==> (#[trigger] s[i]).value + s[i].size <= (#[trigger] s[j]).value
}

proof fn lemma_disjoint(kept: Seq<SymbolView>, s: Seq<SymbolView>, end: int, i: int)
    requires
        0 <= i,
        disjoint(kept),
        forall|k: int| 0 <= k < kept.len() ==> (#[trigger] kept[k]).value + kept[k].size <= end,
    ensures
        disjoint(with_disjoint(kept, s, end, i)),
    decreases s.len() - i,
{
    if i < s.len() {
        if s[i].size == 0 || s[i].value < end {
            lemma_disjoint(kept, s, end, i + 1);
        } else {
            let next = kept.push(s[i]);
            lemma_disjoint(next, s, s[i].value + s[i].size, i + 1);
        }
    }
}

/// The named functions of the code take up space, ascend by address and do not
/// overlap, so that no byte of code belongs to two of them.
pub proof fn law_text_functions_are_disjoint(
    symbols: Seq<SymbolView>,
    text_shndx: Option<u16>,
    text_end: u64,
)
    ensures
        disjoint(text_functions_of(symbols, text_shndx, text_end)),
{
    let sorted = stable_sorted(
        named_functions(symbols, text_shndx, symbols.len() as int),
        function_order(),
    );
    lemma_disjoint(
        Seq::empty(),
        sized(first_of_value(sorted, sorted.len() as int), text_end),
        0,
        0,
    );
}

/// The words that linkers put between functions: zeros and the two words for "no
/// operation".
pub open spec fn is_filler(w: int) -> bool {
    w == 0 || w == 0xe1a0_0000 || w == 0xe320_f000
}

/// True when the bytes are whole words of filler.
pub open spec fn spec_is_padding(bytes: Seq<u8>) -> bool {
    bytes.len() % 4 == 0 && forall|k: int|
        0 <= k < bytes.len() / 4 ==> is_filler(#[trigger] le_value(bytes, 4 * k, 4))
}

/// Tests whether a run of code is nothing but padding.
pub fn is_padding(bytes: &[u8]) -> (b: bool)
    ensures
        b == spec_is_padding(bytes@),
{
    let n: usize = bytes.len();
    if n % 4 != 0 {
        return false;
    }
    let mut i: usize = 0;
    let ghost mut k: int = 0;
    while i < n
        invariant
            n == bytes@.len(),
            n % 4 == 0,
            i <= n,
            i == 4 * k,
            0 <= k,
            forall|j: int| 0 <= j < k ==> is_filler(#[trigger] le_value(bytes@, 4 * j, 4)),
        decreases n - i,
    {
        let w = read_u32_le(bytes, i);
        if !(w == 0 || w == 0xe1a0_0000 || w == 0xe320_f000) {
            assert(!is_filler(le_value(bytes@, 4 * k, 4)));
            return false;
        }
        i = i + 4;
        proof {
            k = k + 1;
        }
    }
    true
}

/// The entry for the code from `start` to `end`, where it lies in the section and
/// is not padding.
pub open spec fn orphan(text_base: u64, text_data: Seq<u8>, shndx: u16, start: int, end: int) -> Option<
    SymbolView,
> {
    if end <= start || end - text_base > text_data.len() || spec_is_padding(
        text_data.subrange(start - text_base, end - text_base),
    ) {
        None
    } else {
        Some(
            SymbolView {
                name: ORPHAN_PREFIX@ + digits(start as nat, 16),
                value: start as u64,
                size: (end - start) as u64,
                sym_type: STT_FUNC,
                bind: STB_LOCAL,
                shndx,
            },
        )
    }
}

/// `s` with an optional element behind it.
pub open spec fn pushed(s: Seq<SymbolView>, x: Option<SymbolView>) -> Seq<SymbolView> {
    match x {
        Some(e) => s.push(e),
        None => s,
    }
}

/// With the entries for the code in front of the functions from `i` on, counted
/// from `cursor`, and behind the last of them.
pub open spec fn with_orphans(
    out: Seq<SymbolView>,
    named: Seq<SymbolView>,
    text_base: u64,
    text_data: Seq<u8>,
    text_end: u64,
    shndx: u16,
    cursor: int,
    i: int,
) -> Seq<SymbolView>
    decreases named.len() - i,
{
    if i < 0 || i >= named.len() {
        pushed(out, orphan(text_base, text_data, shndx, cursor, text_end as int))
    } else {
        let f = named[i];
        with_orphans(
            if f.value > cursor {
                pushed(out, orphan(text_base, text_data, shndx, cursor, f.value as int))
            } else {
                out
            },
            named,
            text_base,
            text_data,
            text_end,
            shndx,
            if f.value + f.size > cursor {
                f.value + f.size
            } else {
                cursor
            },
            i + 1,
        )
    }
}

/// Entries for the runs of code that no function covers and that are not padding.
pub open spec fn orphan_regions(
    named: Seq<SymbolView>,
    text_base: u64,
    text_data: Seq<u8>,
    text_end: u64,
) -> Seq<SymbolView> {
    if text_data.len() == 0 || text_end <= text_base {
        Seq::empty()
    } else {
        with_orphans(
            Seq::empty(),
            named,
            text_base,
            text_data,
            text_end,
            if named.len() > 0 {
                named[0].shndx
            } else {
                0
            },
            text_base as int,
            0,
        )
    }
}

/// True when no function of `named` shares a byte with an entry of `orphans`.
pub open spec fn apart(named: Seq<SymbolView>, orphans: Seq<SymbolView>) -> bool {
    forall|i: int, j: int|
        0 <= i < named.len() && 0 <= j < orphans.len() ==> (#[trigger] named[i]).value
            + named[i].size <= (#[trigger] orphans[j]).value || orphans[j].value + orphans[j].size
            <= named[i].value
}

proof fn lemma_orphans(
    out: Seq<SymbolView>,
    named: Seq<SymbolView>,
    text_base: u64,
    text_data: Seq<u8>,
    text_end: u64,
    shndx: u16,
    cursor: int,
    i: int,
)
    requires
        0 <= i <= named.len(),
        text_base <= cursor,
        disjoint(named),
        disjoint(out),
        apart(named, out),
        forall|k: int| 0 <= k < out.len() ==> (#[trigger] out[k]).value + out[k].size <= cursor,
        forall|k: int| 0 <= k < i ==> (#[trigger] named[k]).value + named[k].size <= cursor,
        i < named.len() ==> forall|k: int|
            0 <= k < out.len() ==> (#[trigger] out[k]).value + out[k].size <= named[i].value,
    ensures
        disjoint(with_orphans(out, named, text_base, text_data, text_end, shndx, cursor, i)),
        apart(named, with_orphans(out, named, text_base, text_data, text_end, shndx, cursor, i)),
    decreases named.len() - i,
{
    if i < named.len() {
        let f = named[i];
        let next = if f.value > cursor {
            pushed(out, orphan(text_base, text_data, shndx, cursor, f.value as int))
        } else {
            out
        };
        let moved = if f.value + f.size > cursor {
            f.value + f.size
        } else {
            cursor
        };
        assert(apart(named, next)) by {
            assert forall|a: int, b: int| 0 <= a < named.len() && 0 <= b < next.len() implies (
            #[trigger] named[a]).value + named[a].size <= (#[trigger] next[b]).value
                || next[b].value + next[b].size <= named[a].value by {
                if b == out.len() {
                    if a > i {
                        assert(named[i].value + named[i].size <= named[a].value);
                    }
                }
            }
        }
        assert(forall|k: int|
            0 <= k < next.len() ==> (#[trigger] next[k]).value + next[k].size <= f.value
                || next[k].value + next[k].size <= cursor);
        if i + 1 < named.len() {
            assert(named[i].value + named[i].size <= named[i + 1].value);
            assert forall|k: int| 0 <= k < next.len() implies (#[trigger] next[k]).value
                + next[k].size <= named[i + 1].value by {
                if k < out.len() {
                    assert(out[k].value + out[k].size <= named[i].value);
                }
            }
        }
        lemma_orphans(next, named, text_base, text_data, text_end, shndx, moved, i + 1);
    }
}

/// The entries for code without a symbol share no byte with each other or with
/// the named functions.
pub proof fn law_orphans_are_disjoint(
    named: Seq<SymbolView>,
    text_base: u64,
    text_data: Seq<u8>,
    text_end: u64,
)
    requires
        disjoint(named),
    ensures
        disjoint(orphan_regions(named, text_base, text_data, text_end)),
        apart(named, orphan_regions(named, text_base, text_data, text_end)),
{
    if text_data.len() > 0 && text_end > text_base {
        lemma_orphans(
            Seq::empty(),
            named,
            text_base,
            text_data,
            text_end,
            if named.len() > 0 {
                named[0].shndx
            } else {
                0
            },
            text_base as int,
            0,
        );
    }
}

/// The functions of the code, named or not, by address.
pub open spec fn all_functions(named: Seq<SymbolView>, orphans: Seq<SymbolView>) -> Seq<SymbolView> {
    if orphans.len() == 0 {
        named
    } else {
        stable_sorted(named + orphans, value_order())
    }
}

/// The functions of the code, named or not, take up space, ascend by address and do
/// not overlap, so that no byte of code belongs to two of them.
pub proof fn law_all_functions_are_disjoint(named: Seq<SymbolView>, orphans: Seq<SymbolView>)
    requires
        disjoint(named),
        disjoint(orphans),
        apart(named, orphans),
    ensures
        disjoint(all_functions(named, orphans)),
{
    broadcast use vstd::seq_lib::group_to_multiset_ensures;

    if orphans.len() > 0 {
        let both = named + orphans;
        let sorted = stable_sorted(both, value_order());
        assert forall|i: int, j: int| 0 <= i < both.len() && 0 <= j < both.len() && i != j implies (
        #[trigger] both[i]).value + both[i].size <= (#[trigger] both[j]).value || both[j].value
            + both[j].size <= both[i].value by {
            let n = named.len() as int;
            if i < n && j < n {
                assert(both[i] == named[i] && both[j] == named[j]);
            } else if i >= n && j >= n {
                assert(both[i] == orphans[i - n] && both[j] == orphans[j - n]);
            } else if i < n {
                assert(both[i] == named[i] && both[j] == orphans[j - n]);
            } else {
                assert(both[i] == orphans[i - n] && both[j] == named[j]);
            }
        }
        assert forall|i: int| 0 <= i < both.len() implies (#[trigger] both[i]).size > 0 by {
            let n = named.len() as int;
            if i < n {
                assert(both[i] == named[i]);
            } else {
                assert(both[i] == orphans[i - n]);
            }
        }
        assert(both.no_duplicates());
        lemma_stable_sorted(both, value_order());
        both.lemma_multiset_has_no_duplicates();
        assert(forall|x: SymbolView| #[trigger]
            sorted.to_multiset().contains(x) ==> sorted.to_multiset().count(x) == 1);
        sorted.lemma_multiset_has_no_duplicates_conv();
        assert forall|i: int| 0 <= i < sorted.len() implies (#[trigger] sorted[i]).size > 0 by {
            lemma_stable_sorted_contains(both, value_order(), sorted[i]);
            assert(sorted.contains(sorted[i]));
        }
        assert forall|i: int, j: int| 0 <= i < j < sorted.len() implies (#[trigger] sorted[i]).value
            + sorted[i].size <= (#[trigger] sorted[j]).value by {
            lemma_stable_sorted_contains(both, value_order(), sorted[i]);
            lemma_stable_sorted_contains(both, value_order(), sorted[j]);
            assert(sorted.contains(sorted[i]) && sorted.contains(sorted[j]));
            let a = choose|a: int| 0 <= a < both.len() && both[a] == sorted[i];
            let b = choose|b: int| 0 <= b < both.len() && both[b] == sorted[j];
            assert(sorted[i] != sorted[j]);
            assert(a != b);
            assert(value_order()(sorted[i], sorted[j]));
            assert(both[a].size > 0 && both[b].size > 0);
        }
    }
}

/// True when a function of `s` holds the byte at `x`.
pub open spec fn holds(s: Seq<SymbolView>, x: int) -> bool {
    exists|i: int| 0 <= i < s.len() && (#[trigger] s[i]).value <= x < s[i].value + s[i].size
}

/// True when the byte at `x` lies in a run of padding.
pub open spec fn in_padding(text_base: u64, text_data: Seq<u8>, x: int) -> bool {
    exists|start: int, end: int|
        text_base <= start <= x < end <= text_base + text_data.len()
            && #[trigger] spec_is_padding(text_data.subrange(start - text_base, end - text_base))
}

proof fn lemma_gap(
    out: Seq<SymbolView>,
    text_base: u64,
    text_data: Seq<u8>,
    shndx: u16,
    start: int,
    end: int,
    x: int,
)
    requires
        text_base <= start <= x < end <= text_base + text_data.len(),
        end <= u64::MAX,
    ensures
        holds(pushed(out, orphan(text_base, text_data, shndx, start, end)), x) || in_padding(
            text_base,
            text_data,
            x,
        ),
{
    let next = pushed(out, orphan(text_base, text_data, shndx, start, end));
    if orphan(text_base, text_data, shndx, start, end) is Some {
        assert(next[out.len() as int].value <= x < next[out.len() as int].value
            + next[out.len() as int].size);
    }
}

proof fn lemma_covered(
    out: Seq<SymbolView>,
    named: Seq<SymbolView>,
    text_base: u64,
    text_data: Seq<u8>,
    text_end: u64,
    shndx: u16,
    cursor: int,
    i: int,
    x: int,
)
    requires
        0 <= i <= named.len(),
        text_base <= cursor,
        text_base <= x < text_end,
        text_end - text_base <= text_data.len(),
        forall|k: int| 0 <= k < named.len() ==> (#[trigger] named[k]).value <= text_end,
        x < cursor ==> holds(named, x) || holds(out, x) || in_padding(text_base, text_data, x),
    ensures
        ({
            let all = with_orphans(out, named, text_base, text_data, text_end, shndx, cursor, i);
            holds(named, x) || holds(all, x) || in_padding(text_base, text_data, x)
        }),
    decreases named.len() - i,
{
    if i < named.len() {
        let f = named[i];
        let next = if f.value > cursor {
            pushed(out, orphan(text_base, text_data, shndx, cursor, f.value as int))
        } else {
            out
        };
        let moved = if f.value + f.size > cursor {
            f.value + f.size
        } else {
            cursor
        };
        if cursor <= x < f.value {
            lemma_gap(out, text_base, text_data, shndx, cursor, f.value as int, x);
        }
        if holds(out, x) {
            let k = choose|k: int|
                0 <= k < out.len() && (#[trigger] out[k]).value <= x < out[k].value + out[k].size;
            assert(next[k] == out[k]);
        }
        lemma_covered(next, named, text_base, text_data, text_end, shndx, moved, i + 1, x);
    } else {
        if cursor <= x {
            lemma_gap(out, text_base, text_data, shndx, cursor, text_end as int, x);
        }
        let all = with_orphans(out, named, text_base, text_data, text_end, shndx, cursor, i);
        if holds(out, x) {
            let k = choose|k: int|
                0 <= k < out.len() && (#[trigger] out[k]).value <= x < out[k].value + out[k].size;
            assert(all[k] == out[k]);
        }
    }
}

/// No code is lost: where the functions begin in the code section and the file holds
/// all of it, each byte of it belongs to a named function, to an entry for code
/// without a symbol, or to padding.
pub proof fn law_no_code_is_lost(
    named: Seq<SymbolView>,
    text_base: u64,
    text_data: Seq<u8>,
    text_end: u64,
    x: int,
)
    requires
        text_base <= x < text_end,
        text_end - text_base <= text_data.len(),
        forall|k: int| 0 <= k < named.len() ==> (#[trigger] named[k]).value <= text_end,
    ensures
        holds(named, x) || holds(orphan_regions(named, text_base, text_data, text_end), x)
            || in_padding(text_base, text_data, x),
{
    lemma_covered(
        Seq::empty(),
        named,
        text_base,
        text_data,
        text_end,
        if named.len() > 0 {
            named[0].shndx
        } else {
            0
        },
        text_base as int,
        0,
        x,
    );
}

/// The data with a name and an address outside the code, among the first `n`
/// symbols.
pub open spec fn named_objects(symbols: Seq<SymbolView>, text_shndx: Option<u16>, n: int) -> Seq<
    SymbolView,
>
    decreases n,
{
    if n <= 0 {
        Seq::empty()
    } else {
        let before = named_objects(symbols, text_shndx, n - 1);
        let s = symbols[n - 1];
        if s.sym_type == STT_OBJECT && s.shndx != 0 && Some(s.shndx) != text_shndx && s.value != 0
            && s.name.len() > 0 {
            before.push(s)
        } else {
            before
        }
    }
}

/// The first `n` symbols, without those that have the address and name of the one
/// before.
pub open spec fn first_of_name(s: Seq<SymbolView>, n: int) -> Seq<SymbolView>
    decreases n,
{
    if n <= 0 {
        Seq::empty()
    } else {
        let before = first_of_name(s, n - 1);
        if before.len() > 0 && before.last().value == s[n - 1].value && before.last().name == s[n
            - 1].name {
            before
        } else {
            before.push(s[n - 1])
        }
    }
}

/// The data of a symbol table by address and name.
pub open spec fn objects_of(symbols: Seq<SymbolView>, text_shndx: Option<u16>) -> Seq<SymbolView> {
    let sorted = stable_sorted(
        named_objects(symbols, text_shndx, symbols.len() as int),
        object_order(),
    );
    first_of_name(sorted, sorted.len() as int)
}

/// Anchors and positions of the groups that have one, among the first `n`.
pub open spec fn anchor_pairs(groups: Seq<GroupView>, n: int) -> Seq<(u64, usize)>
    decreases n,
{
    if n <= 0 {
        Seq::empty()
    } else {
        let before = anchor_pairs(groups, n - 1);
        match groups[n - 1].anchor {
            Some(a) => before.push((a, (n - 1) as usize)),
            None => before,
        }
    }
}

/// The anchors by address, the first group of each alone.
pub open spec fn anchors_of(groups: Seq<GroupView>) -> Seq<(u64, usize)> {
    let sorted = stable_sorted(anchor_pairs(groups, groups.len() as int), by_address());
    distinct(sorted, sorted.len() as int)
}

/// Index of the last of the first `n` anchors that is not above `value`.
pub open spec fn nearest(anchors: Seq<(u64, usize)>, value: u64, n: int) -> Option<int>
    decreases n,
{
    if n <= 0 {
        None
    } else if anchors[n - 1].0 <= value {
        Some(n - 1)
    } else {
        nearest(anchors, value, n - 1)
    }
}

/// The source file that the function at `value` goes to: that of the nearest
/// anchor at or below it.
pub open spec fn file_of(groups: Seq<GroupView>, value: u64) -> Option<Seq<char>> {
    let anchors = anchors_of(groups);
    match nearest(anchors, value, anchors.len() as int) {
        Some(i) => Some(groups[anchors[i].1 as int].file),
        None => None,
    }
}

/// True when the group has an anchor that is not above `value`.
pub open spec fn is_below(groups: Seq<GroupView>, value: u64, g: int) -> bool {
    groups[g].anchor matches Some(a) && a <= value
}

/// True when `g` is the first of the groups with the greatest anchor that is not
/// above `value`.
pub open spec fn is_nearest(groups: Seq<GroupView>, value: u64, g: int) -> bool {
    &&& 0 <= g < groups.len()
    &&& is_below(groups, value, g)
    &&& forall|h: int|
        0 <= h < groups.len() && #[trigger] is_below(groups, value, h) ==> {
            ||| groups[h].anchor->0 < groups[g].anchor->0
            ||| groups[h].anchor->0 == groups[g].anchor->0 && g <= h
        }
}

proof fn lemma_anchor_pairs(groups: Seq<GroupView>, n: int)
    requires
        0 <= n <= groups.len() <= usize::MAX,
    ensures
        forall|i: int, j: int|
            0 <= i < j < anchor_pairs(groups, n).len() ==> (#[trigger] anchor_pairs(groups, n)[i]).1
                < (#[trigger] anchor_pairs(groups, n)[j]).1,
        forall|i: int|
            0 <= i < anchor_pairs(groups, n).len() ==> (#[trigger] anchor_pairs(groups, n)[i]).1 < n
                && groups[anchor_pairs(groups, n)[i].1 as int].anchor == Some(
                anchor_pairs(groups, n)[i].0,
            ),
        forall|g: int|
            0 <= g < n && (#[trigger] groups[g]).anchor is Some ==> anchor_pairs(groups, n).contains(
                (groups[g].anchor->0, g as usize),
            ),
    decreases n,
{
    if n > 0 {
        lemma_anchor_pairs(groups, n - 1);
        let before = anchor_pairs(groups, n - 1);
        let after = anchor_pairs(groups, n);
        assert forall|g: int| 0 <= g < n && (#[trigger] groups[g]).anchor is Some implies after.contains(
            (groups[g].anchor->0, g as usize),
        ) by {
            if g < n - 1 {
                let i = choose|i: int|
                    0 <= i < before.len() && before[i] == (groups[g].anchor->0, g as usize);
                assert(after[i] == before[i]);
            } else {
                assert(after[before.len() as int] == (groups[g].anchor->0, g as usize));
            }
        }
    }
}

proof fn lemma_nearest(anchors: Seq<(u64, usize)>, value: u64, n: int)
    requires
        0 <= n <= anchors.len(),
    ensures
        match nearest(anchors, value, n) {
            Some(i) => 0 <= i < n && anchors[i].0 <= value && forall|j: int|
                i < j < n ==> (#[trigger] anchors[j]).0 > value,
            None => forall|j: int| 0 <= j < n ==> (#[trigger] anchors[j]).0 > value,
        },
    decreases n,
{
    if n > 0 {
        lemma_nearest(anchors, value, n - 1);
    }
}

/// A function goes to the source file of the first group with the greatest anchor that
/// is not above it, and to none only where every anchor is above it.
pub proof fn law_functions_go_to_the_nearest_anchor(groups: Seq<GroupView>, value: u64)
    requires
        groups.len() <= usize::MAX,
    ensures
        match file_of(groups, value) {
            Some(f) => exists|g: int| #[trigger]
                is_nearest(groups, value, g) && groups[g].file == f,
            None => forall|g: int| 0 <= g < groups.len() ==> !#[trigger] is_below(groups, value, g),
        },
{
    let pairs = anchor_pairs(groups, groups.len() as int);
    let sorted = stable_sorted(pairs, by_address());
    let anchors = anchors_of(groups);
    lemma_anchor_pairs(groups, groups.len() as int);
    assert(total_preorder(by_address()));
    lemma_stable_sorted(pairs, by_address());
    lemma_stable_sorted_numbers(pairs);
    lemma_distinct(sorted, sorted.len() as int);
    lemma_nearest(anchors, value, anchors.len() as int);
    let found = nearest(anchors, value, anchors.len() as int);
    assert forall|h: int| 0 <= h < groups.len() && #[trigger] is_below(groups, value, h) implies {
        &&& found is Some
        &&& {
            ||| groups[h].anchor->0 < anchors[found->0].0
            ||| groups[h].anchor->0 == anchors[found->0].0 && anchors[found->0].1 <= h
        }
    } by {
        let e = (groups[h].anchor->0, h as usize);
        assert(pairs.contains(e));
        lemma_stable_sorted_contains(pairs, by_address(), e);
        let i = choose|i: int| 0 <= i < sorted.len() && sorted[i] == e;
        lemma_distinct_is_first(sorted, sorted.len() as int, i);
        let k = choose|k: int|
            0 <= k < anchors.len() && (#[trigger] anchors[k]).0 == sorted[i].0 && anchors[k].1
                <= sorted[i].1;
        assert(anchors[k].0 <= value);
        assert(found is Some && k <= found->0);
    }
    if found is Some {
        let e = anchors[found->0];
        assert(sorted.contains(e));
        lemma_stable_sorted_contains(pairs, by_address(), e);
        let i = choose|i: int| 0 <= i < pairs.len() && pairs[i] == e;
        assert(groups[pairs[i].1 as int].anchor == Some(pairs[i].0));
        assert(is_nearest(groups, value, e.1 as int));
    }
}

/// A unit under construction: its name and its functions.
#[verifier::ext_equal]
pub ghost struct Draft {
    pub name: Seq<char>,
    pub functions: Seq<SymbolView>,
}

/// Index, from `i` on, of the first unit called `name`.
pub open spec fn draft_position(drafts: Seq<Draft>, name: Seq<char>, i: int) -> Option<int>
    decreases drafts.len() - i,
{
    if i < 0 || i >= drafts.len() {
        None
    } else if drafts[i].name == name {
        Some(i)
    } else {
        draft_position(drafts, name, i + 1)
    }
}

/// With a function in the unit called `name`; a missing unit is added at the end.
pub open spec fn with_function(drafts: Seq<Draft>, name: Seq<char>, f: SymbolView) -> Seq<Draft> {
    match draft_position(drafts, name, 0) {
        Some(k) => drafts.update(
            k,
            Draft { functions: drafts[k].functions.push(f), ..drafts[k] },
        ),
        None => drafts.push(Draft { name, functions: Seq::empty().push(f) }),
    }
}

/// Name of the unit for the function at `value`.
pub open spec fn unit_name(groups: Seq<GroupView>, value: u64) -> Seq<char> {
    match file_of(groups, value) {
        Some(f) => f,
        None => UNATTRIBUTED@,
    }
}

/// With the functions from `i` on, each in the unit of its source file.
pub open spec fn with_functions(
    drafts: Seq<Draft>,
    groups: Seq<GroupView>,
    functions: Seq<SymbolView>,
    i: int,
) -> Seq<Draft>
    decreases functions.len() - i,
{
    if i < 0 || i >= functions.len() {
        drafts
    } else {
        with_functions(
            with_function(drafts, unit_name(groups, functions[i].value), functions[i]),
            groups,
            functions,
            i + 1,
        )
    }
}

/// The data of a group among its first `n` local symbols.
pub open spec fn group_variables(locals: Seq<SymbolView>, n: int) -> Seq<VariableView>
    decreases n,
{
    if n <= 0 {
        Seq::empty()
    } else {
        let before = group_variables(locals, n - 1);
        let s = locals[n - 1];
        if s.sym_type == STT_OBJECT && s.value != 0 {
            before.push(
                VariableView {
                    name: s.name,
                    linkage_name: Some(s.name),
                    addr: s.value,
                    external: s.bind != STB_LOCAL,
                },
            )
        } else {
            before
        }
    }
}

/// The data of the groups of `file` among the first `n`.
pub open spec fn file_variables(groups: Seq<GroupView>, file: Seq<char>, n: int) -> Seq<VariableView>
    decreases n,
{
    if n <= 0 {
        Seq::empty()
    } else {
        let before = file_variables(groups, file, n - 1);
        let g = groups[n - 1];
        if g.file == file {
            before + group_variables(g.locals, g.locals.len() as int)
        } else {
            before
        }
    }
}

/// The range of a function. An end beyond the address space wraps.
pub open spec fn function_range(s: SymbolView) -> Range<u64> {
    Range { start: s.value, end: s.value.wrapping_add(s.size) }
}

/// A function of a unit.
pub open spec fn function_of(s: SymbolView) -> FunctionView {
    FunctionView {
        name: s.name,
        linkage_name: Some(s.name),
        addr: s.value,
        size: s.size,
        external: s.bind != STB_LOCAL,
    }
}

/// The unit of a draft.
pub open spec fn unit_of(groups: Seq<GroupView>, d: Draft, id: int) -> UnitView {
    UnitView {
        id: id as nat,
        name: d.name,
        comp_dir: None,
        producer: None,
        language: None,
        ranges: d.functions.map_values(|s: SymbolView| function_range(s)),
        functions: d.functions.map_values(|s: SymbolView| function_of(s)),
        variables: file_variables(groups, d.name, groups.len() as int),
        debug_info_range: Range { start: 0usize, end: 0usize },
        debug_abbrev_range: Range { start: 0usize, end: 0usize },
        debug_line_range: None,
        file_name: None,
    }
}

/// The units of a symbol table, in the order of their first functions.
pub open spec fn units_of(groups: Seq<GroupView>, functions: Seq<SymbolView>) -> Seq<UnitView> {
    let drafts = with_functions(Seq::empty(), groups, functions, 0);
    Seq::new(drafts.len(), |k: int| unit_of(groups, drafts[k], k))
}

/// How many functions equal to `f` the first `n` units have.
pub open spec fn times_in_units(units: Seq<UnitView>, f: FunctionView, n: int) -> nat
    decreases n,
{
    if n <= 0 {
        0
    } else {
        times_in_units(units, f, n - 1) + units[n - 1].functions.to_multiset().count(f)
    }
}

/// How many functions equal to `f` the first `n` drafts have.
spec fn times_in_drafts(drafts: Seq<Draft>, f: FunctionView, n: int) -> nat
    decreases n,
{
    if n <= 0 {
        0
    } else {
        times_in_drafts(drafts, f, n - 1) + drafts[n - 1].functions.map_values(
            |s: SymbolView| function_of(s),
        ).to_multiset().count(f)
    }
}

proof fn lemma_draft_position(drafts: Seq<Draft>, name: Seq<char>, i: int)
    requires
        0 <= i,
    ensures
        match draft_position(drafts, name, i) {
            Some(k) => i <= k < drafts.len() && drafts[k].name == name,
            None => forall|k: int| i <= k < drafts.len() ==> (#[trigger] drafts[k]).name != name,
        },
    decreases drafts.len() - i,
{
    if i < drafts.len() {
        lemma_draft_position(drafts, name, i + 1);
    }
}

proof fn lemma_times_local(a: Seq<Draft>, b: Seq<Draft>, f: FunctionView, n: int)
    requires
        n <= a.len(),
        n <= b.len(),
        forall|i: int| 0 <= i < n ==> a[i] == b[i],
    ensures
        times_in_drafts(a, f, n) == times_in_drafts(b, f, n),
    decreases n,
{
    if n > 0 {
        lemma_times_local(a, b, f, n - 1);
    }
}

/// Changing one draft changes the count by what that draft gains.
proof fn lemma_times_update(drafts: Seq<Draft>, k: int, d: Draft, f: FunctionView, n: int)
    requires
        0 <= k < n <= drafts.len(),
    ensures
        times_in_drafts(drafts.update(k, d), f, n) + drafts[k].functions.map_values(
            |s: SymbolView| function_of(s),
        ).to_multiset().count(f) == times_in_drafts(drafts, f, n) + d.functions.map_values(
            |s: SymbolView| function_of(s),
        ).to_multiset().count(f),
    decreases n,
{
    let after = drafts.update(k, d);
    if k == n - 1 {
        lemma_times_local(drafts, after, f, n - 1);
    } else {
        lemma_times_update(drafts, k, d, f, n - 1);
    }
}

proof fn lemma_with_function(drafts: Seq<Draft>, name: Seq<char>, s: SymbolView, f: FunctionView)
    ensures
        ({
            let after = with_function(drafts, name, s);
            times_in_drafts(after, f, after.len() as int) == times_in_drafts(
                drafts,
                f,
                drafts.len() as int,
            ) + (if function_of(s) == f {
                1nat
            } else {
                0nat
            })
        }),
{
    broadcast use vstd::seq_lib::group_to_multiset_ensures;

    let view = |s: SymbolView| function_of(s);
    let after = with_function(drafts, name, s);
    lemma_draft_position(drafts, name, 0);
    match draft_position(drafts, name, 0) {
        Some(k) => {
            let d = Draft { functions: drafts[k].functions.push(s), ..drafts[k] };
            assert(d.functions.map_values(view) =~= drafts[k].functions.map_values(view).push(
                function_of(s),
            ));
            lemma_times_update(drafts, k, d, f, drafts.len() as int);
        },
        None => {
            let d = Draft { name, functions: Seq::empty().push(s) };
            assert(d.functions.map_values(view) =~= Seq::empty().push(function_of(s)));
            lemma_times_local(drafts, after, f, drafts.len() as int);
            assert(after[drafts.len() as int] == d);
        },
    }
}

proof fn lemma_with_functions(
    drafts: Seq<Draft>,
    groups: Seq<GroupView>,
    functions: Seq<SymbolView>,
    i: int,
    f: FunctionView,
)
    requires
        0 <= i <= functions.len(),
    ensures
        ({
            let after = with_functions(drafts, groups, functions, i);
            times_in_drafts(after, f, after.len() as int) == times_in_drafts(
                drafts,
                f,
                drafts.len() as int,
            ) + functions.subrange(i, functions.len() as int).map_values(
                |s: SymbolView| function_of(s),
            ).to_multiset().count(f)
        }),
    decreases functions.len() - i,
{
    broadcast use vstd::seq_lib::group_to_multiset_ensures;

    let view = |s: SymbolView| function_of(s);
    let rest = functions.subrange(i, functions.len() as int).map_values(view);
    if i < functions.len() {
        let next = with_function(drafts, unit_name(groups, functions[i].value), functions[i]);
        lemma_with_function(drafts, unit_name(groups, functions[i].value), functions[i], f);
        lemma_with_functions(next, groups, functions, i + 1, f);
        let tail = functions.subrange(i + 1, functions.len() as int).map_values(view);
        assert(rest =~= seq![function_of(functions[i])] + tail);
        vstd::seq_lib::lemma_multiset_commutative(seq![function_of(functions[i])], tail);
        assert(seq![function_of(functions[i])] =~= Seq::empty().push(function_of(functions[i])));
    } else {
        assert(rest =~= Seq::empty());
    }
}

/// Every function of the code is in the units as often as it is in the code: none
/// is lost, and none is in two units.
pub proof fn law_units_share_out_the_functions(
    groups: Seq<GroupView>,
    functions: Seq<SymbolView>,
    f: FunctionView,
)
    ensures
        times_in_units(units_of(groups, functions), f, units_of(groups, functions).len() as int)
            == functions.map_values(|s: SymbolView| function_of(s)).to_multiset().count(f),
{
    broadcast use vstd::seq_lib::group_to_multiset_ensures;

    let drafts = with_functions(Seq::empty(), groups, functions, 0);
    lemma_with_functions(Seq::empty(), groups, functions, 0, f);
    assert(functions.subrange(0, functions.len() as int) =~= functions);
    lemma_same_counts(groups, functions, f, drafts.len() as int);
}

proof fn lemma_same_counts(
    groups: Seq<GroupView>,
    functions: Seq<SymbolView>,
    f: FunctionView,
    n: int,
)
    requires
        0 <= n <= with_functions(Seq::empty(), groups, functions, 0).len(),
    ensures
        times_in_units(units_of(groups, functions), f, n) == times_in_drafts(
            with_functions(Seq::empty(), groups, functions, 0),
            f,
            n,
        ),
    decreases n,
{
    if n > 0 {
        lemma_same_counts(groups, functions, f, n - 1);
    }
}

/// The functions of the unit called `name` among the first `n`.
pub open spec fn functions_for(
    groups: Seq<GroupView>,
    functions: Seq<SymbolView>,
    name: Seq<char>,
    n: int,
) -> Seq<SymbolView>
    decreases n,
{
    if n <= 0 {
        Seq::empty()
    } else {
        let before = functions_for(groups, functions, name, n - 1);
        if unit_name(groups, functions[n - 1].value) == name {
            before.push(functions[n - 1])
        } else {
            before
        }
    }
}

/// Index, from `i` on, of the first function of the unit called `name`.
pub open spec fn first_for(
    groups: Seq<GroupView>,
    functions: Seq<SymbolView>,
    name: Seq<char>,
    i: int,
) -> int
    decreases functions.len() - i,
{
    if i < 0 || i >= functions.len() || unit_name(groups, functions[i].value) == name {
        i
    } else {
        first_for(groups, functions, name, i + 1)
    }
}

proof fn lemma_first_for(
    groups: Seq<GroupView>,
    functions: Seq<SymbolView>,
    name: Seq<char>,
    i: int,
    p: int,
)
    requires
        0 <= i <= p < functions.len(),
        unit_name(groups, functions[p].value) == name,
        forall|k: int| i <= k < p ==> unit_name(groups, (#[trigger] functions[k]).value) != name,
    ensures
        first_for(groups, functions, name, i) == p,
    decreases p - i,
{
    if i < p {
        assert(unit_name(groups, functions[i].value) != name);
        lemma_first_for(groups, functions, name, i + 1, p);
    }
}

/// The drafts are those of the first `n` functions.
spec fn drafts_are(
    drafts: Seq<Draft>,
    groups: Seq<GroupView>,
    functions: Seq<SymbolView>,
    n: int,
) -> bool {
    &&& forall|i: int, j: int|
        0 <= i < j < drafts.len() ==> (#[trigger] drafts[i]).name != (#[trigger] drafts[j]).name
            && first_for(groups, functions, drafts[i].name, 0) < first_for(
            groups,
            functions,
            drafts[j].name,
            0,
        )
    &&& forall|k: int|
        0 <= k < drafts.len() ==> (#[trigger] drafts[k]).functions == functions_for(
            groups,
            functions,
            drafts[k].name,
            n,
        ) && first_for(groups, functions, drafts[k].name, 0) < n
    &&& forall|i: int|
        0 <= i < n ==> has_draft(drafts, unit_name(groups, (#[trigger] functions[i]).value))
}

spec fn has_draft(drafts: Seq<Draft>, name: Seq<char>) -> bool {
    exists|k: int| 0 <= k < drafts.len() && (#[trigger] drafts[k]).name == name
}

/// A name that no function among the first `n` has has no functions there.
proof fn lemma_no_functions_for(
    groups: Seq<GroupView>,
    functions: Seq<SymbolView>,
    name: Seq<char>,
    n: int,
)
    requires
        0 <= n <= functions.len(),
        forall|k: int| 0 <= k < n ==> unit_name(groups, (#[trigger] functions[k]).value) != name,
    ensures
        functions_for(groups, functions, name, n) == Seq::<SymbolView>::empty(),
    decreases n,
{
    if n > 0 {
        lemma_no_functions_for(groups, functions, name, n - 1);
        assert(unit_name(groups, functions[n - 1].value) != name);
    }
}

proof fn lemma_drafts(
    drafts: Seq<Draft>,
    groups: Seq<GroupView>,
    functions: Seq<SymbolView>,
    i: int,
)
    requires
        0 <= i <= functions.len(),
        drafts_are(drafts, groups, functions, i),
    ensures
        drafts_are(
            with_functions(drafts, groups, functions, i),
            groups,
            functions,
            functions.len() as int,
        ),
    decreases functions.len() - i,
{
    if i < functions.len() {
        let f = functions[i];
        let name = unit_name(groups, f.value);
        let after = with_function(drafts, name, f);
        lemma_draft_position(drafts, name, 0);
        match draft_position(drafts, name, 0) {
            Some(k) => {
                assert forall|j: int| 0 <= j < after.len() implies (#[trigger] after[j]).functions
                    == functions_for(groups, functions, after[j].name, i + 1) && after[j].name
                    == drafts[j].name by {
                    assert(j != k ==> drafts[j].name != drafts[k].name);
                }
                assert forall|p: int| 0 <= p < i + 1 implies has_draft(
                    after,
                    unit_name(groups, (#[trigger] functions[p]).value),
                ) by {
                    if p < i {
                        let q = choose|q: int|
                            0 <= q < drafts.len() && (#[trigger] drafts[q]).name == unit_name(
                                groups,
                                functions[p].value,
                            );
                        assert(after[q].name == drafts[q].name);
                    } else {
                        assert(after[k].name == name);
                    }
                }
            },
            None => {
                assert forall|p: int| 0 <= p < i implies unit_name(
                    groups,
                    (#[trigger] functions[p]).value,
                ) != name by {
                    assert(has_draft(drafts, unit_name(groups, functions[p].value)));
                }
                lemma_no_functions_for(groups, functions, name, i);
                lemma_first_for(groups, functions, name, 0, i);
                assert forall|j: int| 0 <= j < after.len() implies (#[trigger] after[j]).functions
                    == functions_for(groups, functions, after[j].name, i + 1) by {
                    assert(j < drafts.len() ==> after[j] == drafts[j]);
                }
                assert forall|p: int| 0 <= p < i + 1 implies has_draft(
                    after,
                    unit_name(groups, (#[trigger] functions[p]).value),
                ) by {
                    if p < i {
                        let q = choose|q: int|
                            0 <= q < drafts.len() && (#[trigger] drafts[q]).name == unit_name(
                                groups,
                                functions[p].value,
                            );
                        assert(after[q].name == drafts[q].name);
                    } else {
                        assert(after[drafts.len() as int].name == name);
                    }
                }
            },
        }
        assert(drafts_are(after, groups, functions, i + 1));
        lemma_drafts(after, groups, functions, i + 1);
    }
}

/// The units have different names and stand in the order of their first functions. Each
/// has all the functions that go to its source file, in the order of the code, and every
/// function has its unit.
pub proof fn law_units_are_the_files(groups: Seq<GroupView>, functions: Seq<SymbolView>)
    ensures
        ({
            let units = units_of(groups, functions);
            &&& forall|i: int, j: int|
                0 <= i < j < units.len() ==> (#[trigger] units[i]).name != (
                #[trigger] units[j]).name && first_for(groups, functions, units[i].name, 0)
                    < first_for(groups, functions, units[j].name, 0)
            &&& forall|k: int|
                0 <= k < units.len() ==> (#[trigger] units[k]).functions == functions_for(
                    groups,
                    functions,
                    units[k].name,
                    functions.len() as int,
                ).map_values(|s: SymbolView| function_of(s)) && first_for(
                    groups,
                    functions,
                    units[k].name,
                    0,
                ) < functions.len()
            &&& forall|i: int|
                0 <= i < functions.len() ==> exists|k: int|
                    0 <= k < units.len() && (#[trigger] units[k]).name == unit_name(
                        groups,
                        (#[trigger] functions[i]).value,
                    )
        }),
{
    let drafts = with_functions(Seq::empty(), groups, functions, 0);
    let units = units_of(groups, functions);
    lemma_drafts(Seq::empty(), groups, functions, 0);
    assert forall|i: int, j: int| 0 <= i < j < units.len() implies (#[trigger] units[i]).name != (
    #[trigger] units[j]).name && first_for(groups, functions, units[i].name, 0) < first_for(
        groups,
        functions,
        units[j].name,
        0,
    ) by {
        assert(drafts[i].name != drafts[j].name);
    }
    assert forall|i: int| 0 <= i < functions.len() implies exists|k: int|
        0 <= k < units.len() && (#[trigger] units[k]).name == unit_name(
            groups,
            (#[trigger] functions[i]).value,
        ) by {
        assert(has_draft(drafts, unit_name(groups, functions[i].value)));
        let k = choose|k: int|
            0 <= k < drafts.len() && (#[trigger] drafts[k]).name == unit_name(
                groups,
                functions[i].value,
            );
        assert(units[k].name == drafts[k].name);
    }
}

/// Total size of the first `n` functions, modulo the range of `u64`.
pub open spec fn total_size(functions: Seq<SymbolView>, n: int) -> u64
    decreases n,
{
    if n <= 0 {
        0
    } else {
        total_size(functions, n - 1).wrapping_add(functions[n - 1].size)
    }
}

/// With the data from `i` on under the addresses that have none yet.
pub open spec fn with_objects(
    m: Map<u64, VariableRefView>,
    objects: Seq<SymbolView>,
    i: int,
) -> Map<u64, VariableRefView>
    decreases objects.len() - i,
{
    if i < 0 || i >= objects.len() {
        m
    } else {
        let s = objects[i];
        with_objects(
            if m.contains_key(s.value) {
                m
            } else {
                m.insert(
                    s.value,
                    VariableRefView {
                        cu_id: usize::MAX,
                        name: s.name,
                        linkage_name: Some(s.name),
                        external: s.bind != STB_LOCAL,
                    },
                )
            },
            objects,
            i + 1,
        )
    }
}

fn read_entry(data: &[u8], strings: &[u8], at: usize, arch: Arch, class: ElfClass) -> (s:
    StaticSymbol)
    requires
        at + class.spec_sym_entsize() <= data@.len(),
    ensures
        s@ == entry_symbol(data@, strings@, at as int, arch, class),
{
    let n: usize = data.len();
    let (st_value, st_size, st_info, st_shndx): (u64, u64, u8, u16) = match class {
        ElfClass::Elf32 => (
            read_u32_le(data, at + 4) as u64,
            read_u32_le(data, at + 8) as u64,
            data[at + 12],
            read_u16_le(data, at + 14),
        ),
        ElfClass::Elf64 => (
            read_u64_le(data, at + 8),
            read_u64_le(data, at + 16),
            data[at + 4],
            read_u16_le(data, at + 6),
        ),
    };
    let sym_type: u8 = st_info & 0xf;
    let value: u64 = if arch == Arch::Arm && sym_type == STT_FUNC {
        st_value & !1
    } else {
        st_value
    };
    StaticSymbol {
        name: read_string(strings, read_u32_le(data, at)),
        value,
        size: st_size,
        sym_type,
        bind: st_info >> 4,
        shndx: st_shndx,
    }
}

fn read_symtab(binary: &Binary) -> (r: Result<Vec<StaticSymbol>, ElfError>)
    ensures
        match r {
            Ok(v) => table_symbols(*binary) == Some(symbol_views(v@)),
            Err(e) => table_symbols(*binary) is None && e == ElfError::UnreadableSection,
        },
{
    let mut out: Vec<StaticSymbol> = Vec::new();
    let symtab = match binary.section(".symtab") {
        Some(s) => s,
        None => {
            assert(symbol_views(out@) =~= Seq::empty());
            return Ok(out);
        },
    };
    let strtab = match binary.section(".strtab") {
        Some(s) => s,
        None => {
            assert(symbol_views(out@) =~= Seq::empty());
            return Ok(out);
        },
    };
    let data: &[u8] = match &symtab.data {
        Some(d) => d.as_slice(),
        None => return Err(ElfError::UnreadableSection),
    };
    let strings: &[u8] = match &strtab.data {
        Some(d) => d.as_slice(),
        None => return Err(ElfError::UnreadableSection),
    };
    let n: usize = data.len();
    let size: usize = binary.class.sym_entsize();
    let count: usize = n / size;
    let ghost all = table_symbols(*binary)->0;
    assert(symbol_views(out@) =~= all.subrange(0, 0));
    let mut i: usize = 0;
    let mut at: usize = 0;
    while i < count
        invariant
            n == data@.len(),
            size == binary.class.spec_sym_entsize(),
            size >= 16,
            count == n / size,
            i <= count,
            at == i * size,
            at <= n,
            all.len() == count,
            forall|k: int|
                0 <= k < count ==> #[trigger] all[k] == entry_symbol(
                    data@,
                    strings@,
                    k * size,
                    binary.arch,
                    binary.class,
                ),
            symbol_views(out@) == all.subrange(0, i as int),
        decreases count - i,
    {
        assert((i + 1) * size <= n && (i + 1) * size == at + size) by (nonlinear_arith)
            requires
                i < count,
                count == n / size,
                size >= 16,
                at == i * size,
        ;
        let ghost list = out@;
        out.push(read_entry(data, strings, at, binary.arch, binary.class));
        assert(symbol_views(out@) =~= symbol_views(list).push(all[i as int]));
        assert(all.subrange(0, i + 1) =~= all.subrange(0, i as int).push(all[i as int]));
        i = i + 1;
        at = at + size;
    }
    assert(all.subrange(0, count as int) =~= all);
    Ok(out)
}

fn in_section(s: &StaticSymbol, shndx: Option<u16>) -> (b: bool)
    ensures
        b == (Some(s.shndx) == shndx),
{
    match shndx {
        Some(n) => s.shndx == n,
        None => false,
    }
}

fn find_anchor(locals: &Vec<StaticSymbol>, text_shndx: Option<u16>) -> (r: Option<u64>)
    ensures
        r == lowest_function(symbol_views(locals@), text_shndx, locals@.len() as int),
{
    let ghost views = symbol_views(locals@);
    let mut r: Option<u64> = None;
    let mut i: usize = 0;
    while i < locals.len()
        invariant
            i <= locals@.len(),
            views == symbol_views(locals@),
            r == lowest_function(views, text_shndx, i as int),
        decreases locals@.len() - i,
    {
        let s = &locals[i];
        assert(views[i as int] == s@);
        let lower = match r {
            Some(a) => s.value < a,
            None => true,
        };
        if s.sym_type == STT_FUNC && s.size > 0 && in_section(s, text_shndx) && lower {
            r = Some(s.value);
        }
        i = i + 1;
    }
    r
}

fn build_groups(symbols: &Vec<StaticSymbol>, text_shndx: Option<u16>) -> (r: Vec<FileGroup>)
    ensures
        group_views(r@) == file_groups(symbol_views(symbols@), text_shndx),
{
    let ghost views = symbol_views(symbols@);
    let mut groups: Vec<FileGroup> = Vec::new();
    assert(group_views(groups@) =~= Seq::empty());
    let mut i: usize = 0;
    while i < symbols.len()
        invariant
            i <= symbols@.len(),
            views == symbol_views(symbols@),
            with_groups(Seq::empty(), views, 0) == with_groups(
                group_views(groups@),
                views,
                i as int,
            ),
        decreases symbols@.len() - i,
    {
        let s = &symbols[i];
        assert(views[i as int] == s@);
        let ghost before = groups@;
        if s.sym_type == STT_FILE {
            groups.push(FileGroup { file: s.name.clone(), anchor: None, locals: Vec::new() });
            assert(groups@.last()@.locals =~= Seq::empty());
            assert(group_views(groups@) =~= group_views(before).push(
                GroupView { file: s.name@, anchor: None, locals: Seq::empty() },
            ));
        } else if groups.len() > 0 && s.is_local() && (s.sym_type == STT_FUNC || s.sym_type
            == STT_OBJECT) && s.shndx != 0 {
            let k: usize = groups.len() - 1;
            let ghost locals = groups@[k as int].locals@;
            groups[k].locals.push(s.clone());
            assert(symbol_views(groups@[k as int].locals@) =~= symbol_views(locals).push(s@));
            let ghost last = group_views(before).last();
            assert(group_views(groups@) =~= group_views(before).drop_last().push(
                GroupView { locals: last.locals.push(s@), ..last },
            ));
        }
        i = i + 1;
    }
    let ghost drafts = group_views(groups@);
    let ghost goal = file_groups(views, text_shndx);
    let mut k: usize = 0;
    while k < groups.len()
        invariant
            k <= groups@.len(),
            groups@.len() == drafts.len(),
            goal.len() == drafts.len(),
            forall|j: int|
                0 <= j < drafts.len() ==> #[trigger] goal[j] == (GroupView {
                    anchor: lowest_function(
                        drafts[j].locals,
                        text_shndx,
                        drafts[j].locals.len() as int,
                    ),
                    ..drafts[j]
                }),
            forall|j: int| 0 <= j < k ==> (#[trigger] groups@[j])@ == goal[j],
            forall|j: int| k <= j < groups@.len() ==> (#[trigger] groups@[j])@ == drafts[j],
        decreases groups@.len() - k,
    {
        let anchor = find_anchor(&groups[k].locals, text_shndx);
        let ghost before = groups@;
        assert(before[k as int]@ == drafts[k as int]);
        groups[k].anchor = anchor;
        assert(groups@[k as int]@ =~= goal[k as int]);
        k = k + 1;
    }
    assert(group_views(groups@) =~= goal);
    groups
}

/// The named functions of the code section, by address and without overlaps.
///
/// Routines written in assembly often have no size, and would be lost without
/// one; theirs runs to the next symbol. A second entry into a function appears as
/// a symbol of its own inside it; references to it resolve as an offset into the
/// function, so it is left out.
pub fn collect_text_functions(
    symbols: &[StaticSymbol],
    text_shndx: Option<u16>,
    text_end: u64,
) -> (r: Vec<StaticSymbol>)
    ensures
        symbol_views(r@) == text_functions_of(symbol_views(symbols@), text_shndx, text_end),
{
    let ghost views = symbol_views(symbols@);
    let n: usize = symbols.len();
    let mut fns: Vec<StaticSymbol> = Vec::new();
    assert(symbol_views(fns@) =~= Seq::empty());
    let mut i: usize = 0;
    while i < n
        invariant
            i <= n,
            n == symbols@.len(),
            views == symbol_views(symbols@),
            symbol_views(fns@) == named_functions(views, text_shndx, i as int),
        decreases n - i,
    {
        let s = &symbols[i];
        assert(views[i as int] == s@);
        if s.sym_type == STT_FUNC && in_section(s, text_shndx) && s.name.as_str().unicode_len()
            > 0 {
            let ghost before = fns@;
            fns.push(s.clone());
            assert(symbol_views(fns@) =~= symbol_views(before).push(s@));
        }
        i = i + 1;
    }
    let ghost unsorted = fns@;
    sort_functions(&mut fns);
    let ghost sorted = symbol_views(fns@);
    proof {
        lemma_sorted_map(
            unsorted,
            |s: StaticSymbol| s@,
            function_order_exec(),
            function_order(),
        );
    }
    let mut first: Vec<StaticSymbol> = Vec::new();
    assert(symbol_views(first@) =~= Seq::empty());
    let mut k: usize = 0;
    while k < fns.len()
        invariant
            k <= fns@.len(),
            sorted == symbol_views(fns@),
            symbol_views(first@) == first_of_value(sorted, k as int),
        decreases fns@.len() - k,
    {
        assert(sorted[k as int] == fns@[k as int]@);
        assert(first@.len() > 0 ==> symbol_views(first@).last() == first@.last()@);
        if !(first.len() > 0 && first[first.len() - 1].value == fns[k].value) {
            let ghost before = first@;
            first.push(fns[k].clone());
            assert(symbol_views(first@) =~= symbol_views(before).push(fns@[k as int]@));
        }
        k = k + 1;
    }
    let ghost list = symbol_views(first@);
    let ghost goal = sized(list, text_end);
    let mut kept: Vec<StaticSymbol> = Vec::new();
    assert(symbol_views(kept@) =~= Seq::empty());
    let mut end: u128 = 0;
    let mut j: usize = 0;
    while j < first.len()
        invariant
            j <= first@.len(),
            list == symbol_views(first@),
            goal == sized(list, text_end),
            with_disjoint(Seq::empty(), goal, 0, 0) == with_disjoint(
                symbol_views(kept@),
                goal,
                end as int,
                j as int,
            ),
        decreases first@.len() - j,
    {
        assert(list[j as int] == first@[j as int]@);
        assert(first@.len() == first.len());
        let mut f = first[j].clone();
        if f.size == 0 {
            let next: u64 = if j + 1 < first.len() {
                assert(list[j + 1] == first@[j + 1]@);
                first[j + 1].value
            } else {
                text_end
            };
            let next: u64 = if next >= f.value {
                next
            } else {
                f.value
            };
            f.size = next - f.value;
        }
        assert(f@ == goal[j as int]);
        if f.size != 0 && f.value as u128 >= end {
            end = f.value as u128 + f.size as u128;
            let ghost before = kept@;
            kept.push(f);
            assert(symbol_views(kept@) =~= symbol_views(before).push(goal[j as int]));
        }
        j = j + 1;
    }
    kept
}

fn push_orphan(
    out: &mut Vec<StaticSymbol>,
    text_base: u64,
    text_data: &[u8],
    shndx: u16,
    start: u64,
    end: u64,
)
    requires
        text_base <= start,
    ensures
        symbol_views(final(out)@) == pushed(
            symbol_views(old(out)@),
            orphan(text_base, text_data@, shndx, start as int, end as int),
        ),
{
    let n: usize = text_data.len();
    if end <= start {
        return ;
    }
    if end - text_base > n as u64 {
        return ;
    }
    let from: usize = (start - text_base) as usize;
    let to: usize = (end - text_base) as usize;
    if is_padding(vstd::slice::slice_subrange(text_data, from, to)) {
        return ;
    }
    let ghost before = out@;
    let s = StaticSymbol {
        name: joined(ORPHAN_PREFIX, hex(start).as_str()),
        value: start,
        size: end - start,
        sym_type: STT_FUNC,
        bind: STB_LOCAL,
        shndx,
    };
    let ghost view = s@;
    out.push(s);
    assert(symbol_views(out@) =~= symbol_views(before).push(view));
}

/// Finds the runs of code that no function covers and that are not padding.
///
/// Linkers drop local symbols of some inputs, and the code stays without a name.
/// If it were left out, every branch into it would stay unrelocated.
pub fn find_orphan_regions(
    named: &[StaticSymbol],
    text_base: u64,
    text_data: &[u8],
    text_end: u64,
) -> (r: Vec<StaticSymbol>)
    ensures
        symbol_views(r@) == orphan_regions(
            symbol_views(named@),
            text_base,
            text_data@,
            text_end,
        ),
{
    let ghost views = symbol_views(named@);
    let mut out: Vec<StaticSymbol> = Vec::new();
    assert(symbol_views(out@) =~= Seq::empty());
    if text_data.len() == 0 || text_end <= text_base {
        return out;
    }
    let n: usize = named.len();
    let shndx: u16 = if n > 0 {
        assert(views[0] == named@[0]@);
        named[0].shndx
    } else {
        0
    };
    let mut cursor: u128 = text_base as u128;
    let mut i: usize = 0;
    while i < n
        invariant
            i <= n,
            n == named@.len(),
            views == symbol_views(named@),
            text_base <= cursor,
            with_orphans(
                Seq::empty(),
                views,
                text_base,
                text_data@,
                text_end,
                shndx,
                text_base as int,
                0,
            ) == with_orphans(
                symbol_views(out@),
                views,
                text_base,
                text_data@,
                text_end,
                shndx,
                cursor as int,
                i as int,
            ),
        decreases n - i,
    {
        let f = &named[i];
        assert(views[i as int] == f@);
        if f.value as u128 > cursor {
            push_orphan(&mut out, text_base, text_data, shndx, cursor as u64, f.value);
        }
        let end: u128 = f.value as u128 + f.size as u128;
        if end > cursor {
            cursor = end;
        }
        i = i + 1;
    }
    if (text_end as u128) > cursor {
        push_orphan(&mut out, text_base, text_data, shndx, cursor as u64, text_end);
    }
    out
}

/// Number of the section called `.text`, with the width that symbols have for it.
pub open spec fn text_index(binary: Binary) -> Option<u16> {
    match section_called(binary.sections@, ".text"@, 0) {
        Some(i) => Some(binary.sections@[i].index as u16),
        None => None,
    }
}

fn text_section_index(binary: &Binary) -> (r: Option<u16>)
    ensures
        r == text_index(*binary),
{
    match section_named(&binary.sections, ".text") {
        Some(i) => Some(binary.sections[i].index as u16),
        None => None,
    }
}

/// Start, bytes and end of the code section; nothing where there is none. An end
/// beyond the address space wraps.
pub open spec fn code_section(binary: Binary) -> (u64, Seq<u8>, u64) {
    match elf_section(binary.sections@, ".text"@) {
        Some(i) => {
            let s = binary.sections@[i];
            (
                s.addr,
                match s.data {
                    Some(d) => d@,
                    None => Seq::empty(),
                },
                s.addr.wrapping_add(s.size),
            )
        },
        None => (0, Seq::empty(), 0),
    }
}

impl SymtabIndex {
    /// The index of an image with these symbols.
    pub open spec fn is_built(&self, binary: Binary, symbols: Seq<SymbolView>) -> bool {
        let (base, data, end) = code_section(binary);
        &&& symbol_views(self.symbols@) == symbols
        &&& self.text_shndx == text_index(binary)
        &&& group_views(self.groups@) == file_groups(symbols, text_index(binary))
        &&& self.text_end == end
        &&& symbol_views(self.orphans@) == orphan_regions(
            text_functions_of(symbols, text_index(binary), end),
            base,
            data,
            end,
        )
    }

    /// Reads the symbol table of an image.
    pub fn build(binary: &Binary) -> (r: Result<SymtabIndex, ElfError>)
        ensures
            match r {
                Ok(x) => table_symbols(*binary) is Some && x.is_built(
                    *binary,
                    table_symbols(*binary)->0,
                ),
                Err(e) => table_symbols(*binary) is None && e == ElfError::UnreadableSection,
            },
    {
        let symbols = match read_symtab(binary) {
            Ok(s) => s,
            Err(e) => return Err(e),
        };
        let text_shndx = text_section_index(binary);
        let groups = build_groups(&symbols, text_shndx);
        let empty: Vec<u8> = Vec::new();
        assert(empty@ =~= Seq::empty());
        let (base, end, data): (u64, u64, &[u8]) = match binary.section(".text") {
            Some(s) => (
                s.addr,
                s.addr.wrapping_add(s.size),
                match &s.data {
                    Some(d) => d.as_slice(),
                    None => empty.as_slice(),
                },
            ),
            None => (0, 0, empty.as_slice()),
        };
        let named = collect_text_functions(symbols.as_slice(), text_shndx, end);
        let orphans = find_orphan_regions(named.as_slice(), base, data, end);
        Ok(SymtabIndex { symbols, groups, text_shndx, text_end: end, orphans })
    }

    /// The functions of the code, named or not, by address.
    pub open spec fn spec_text_functions(&self) -> Seq<SymbolView> {
        all_functions(
            text_functions_of(symbol_views(self.symbols@), self.text_shndx, self.text_end),
            symbol_views(self.orphans@),
        )
    }

    /// No byte of code belongs to two functions of the index of an image.
    pub proof fn law_functions_are_disjoint(&self, binary: Binary, symbols: Seq<SymbolView>)
        requires
            self.is_built(binary, symbols),
        ensures
            disjoint(self.spec_text_functions()),
    {
        let (base, data, end) = code_section(binary);
        let named = text_functions_of(symbols, text_index(binary), end);
        law_text_functions_are_disjoint(symbols, text_index(binary), end);
        law_orphans_are_disjoint(named, base, data, end);
        law_all_functions_are_disjoint(named, orphan_regions(named, base, data, end));
    }

    /// Lists the functions of the code, named or not, by address.
    pub fn text_functions(&self) -> (r: Vec<StaticSymbol>)
        ensures
            symbol_views(r@) == self.spec_text_functions(),
    {
        let mut fns = collect_text_functions(
            self.symbols.as_slice(),
            self.text_shndx,
            self.text_end,
        );
        if self.orphans.len() > 0 {
            let ghost named = fns@;
            let mut i: usize = 0;
            while i < self.orphans.len()
                invariant
                    i <= self.orphans@.len(),
                    fns@ == named + self.orphans@.subrange(0, i as int),
                decreases self.orphans@.len() - i,
            {
                fns.push(self.orphans[i].clone());
                i = i + 1;
                assert(fns@ =~= named + self.orphans@.subrange(0, i as int));
            }
            assert(fns@ =~= named + self.orphans@);
            assert(symbol_views(fns@) =~= symbol_views(named) + symbol_views(self.orphans@));
            let ghost unsorted = fns@;
            sort_by_value(&mut fns);
            proof {
                lemma_sorted_map(
                    unsorted,
                    |s: StaticSymbol| s@,
                    value_order_exec(),
                    value_order(),
                );
            }
        }
        fns
    }

    /// Lists the data with a name and an address, by address and name.
    pub fn data_objects(&self) -> (r: Vec<StaticSymbol>)
        ensures
            symbol_views(r@) == objects_of(symbol_views(self.symbols@), self.text_shndx),
    {
        let ghost views = symbol_views(self.symbols@);
        let mut objs: Vec<StaticSymbol> = Vec::new();
        assert(symbol_views(objs@) =~= Seq::empty());
        let mut i: usize = 0;
        while i < self.symbols.len()
            invariant
                i <= self.symbols@.len(),
                views == symbol_views(self.symbols@),
                symbol_views(objs@) == named_objects(views, self.text_shndx, i as int),
            decreases self.symbols@.len() - i,
        {
            let s = &self.symbols[i];
            assert(views[i as int] == s@);
            if s.sym_type == STT_OBJECT && s.shndx != 0 && !in_section(s, self.text_shndx)
                && s.value != 0 && s.name.as_str().unicode_len() > 0 {
                let ghost before = objs@;
                objs.push(s.clone());
                assert(symbol_views(objs@) =~= symbol_views(before).push(s@));
            }
            i = i + 1;
        }
        let ghost unsorted = objs@;
        sort_objects(&mut objs);
        let ghost sorted = symbol_views(objs@);
        proof {
            lemma_sorted_map(
                unsorted,
                |s: StaticSymbol| s@,
                object_order_exec(),
                object_order(),
            );
        }
        let mut r: Vec<StaticSymbol> = Vec::new();
        assert(symbol_views(r@) =~= Seq::empty());
        let mut k: usize = 0;
        while k < objs.len()
            invariant
                k <= objs@.len(),
                sorted == symbol_views(objs@),
                symbol_views(r@) == first_of_name(sorted, k as int),
            decreases objs@.len() - k,
        {
            assert(sorted[k as int] == objs@[k as int]@);
            assert(r@.len() > 0 ==> symbol_views(r@).last() == r@.last()@);
            if !(r.len() > 0 && r[r.len() - 1].value == objs[k].value && str_eq(
                r[r.len() - 1].name.as_str(),
                objs[k].name.as_str(),
            )) {
                let ghost before = r@;
                r.push(objs[k].clone());
                assert(symbol_views(r@) =~= symbol_views(before).push(objs@[k as int]@));
            }
            k = k + 1;
        }
        r
    }

    fn anchors(&self) -> (r: Vec<(u64, usize)>)
        ensures
            r@ == anchors_of(group_views(self.groups@)),
            forall|i: int| 0 <= i < r@.len() ==> (#[trigger] r@[i]).1 < self.groups@.len(),
    {
        let ghost views = group_views(self.groups@);
        let mut found: Vec<(u64, usize)> = Vec::new();
        let mut i: usize = 0;
        while i < self.groups.len()
            invariant
                i <= self.groups@.len(),
                views == group_views(self.groups@),
                found@ == anchor_pairs(views, i as int),
                forall|k: int| 0 <= k < found@.len() ==> (#[trigger] found@[k]).1 < i,
            decreases self.groups@.len() - i,
        {
            assert(views[i as int] == self.groups@[i as int]@);
            if let Some(a) = self.groups[i].anchor {
                found.push((a, i));
            }
            i = i + 1;
        }
        let ghost pairs = found@;
        sort_by_address(&mut found);
        let r = without_repeats(&found);
        proof {
            assert(total_preorder(by_address()));
            lemma_stable_sorted(pairs, by_address());
            lemma_distinct(found@, found@.len() as int);
            assert forall|i: int| 0 <= i < r@.len() implies (#[trigger] r@[i]).1
                < self.groups@.len() by {
                assert(found@.contains(r@[i]));
                lemma_stable_sorted_contains(pairs, by_address(), r@[i]);
                let k = choose|k: int| 0 <= k < pairs.len() && pairs[k] == r@[i];
                assert(pairs[k].1 < self.groups@.len());
            }
        }
        r
    }

    fn find_file(&self, anchors: &Vec<(u64, usize)>, value: u64) -> (r: Option<String>)
        requires
            anchors@ == anchors_of(group_views(self.groups@)),
            forall|i: int| 0 <= i < anchors@.len() ==> (#[trigger] anchors@[i]).1
                < self.groups@.len(),
        ensures
            text_of(r) == file_of(group_views(self.groups@), value),
    {
        let mut n: usize = anchors.len();
        while n > 0 && anchors[n - 1].0 > value
            invariant
                n <= anchors@.len(),
                nearest(anchors@, value, anchors@.len() as int) == nearest(
                    anchors@,
                    value,
                    n as int,
                ),
            decreases n,
        {
            n = n - 1;
        }
        if n == 0 {
            None
        } else {
            let k: usize = anchors[n - 1].1;
            assert(group_views(self.groups@)[k as int] == self.groups@[k as int]@);
            Some(self.groups[k].file.clone())
        }
    }

    /// Each function of the code with the source file that it goes to.
    pub open spec fn spec_attribute_functions(&self) -> Seq<(SymbolView, Option<Seq<char>>)> {
        self.spec_text_functions().map_values(
            |f: SymbolView| (f, file_of(group_views(self.groups@), f.value)),
        )
    }

    /// Tells the source file of each function of the code: that of the nearest
    /// anchor at or below it, or none in front of the first anchor.
    pub fn attribute_functions(&self) -> (r: Vec<(StaticSymbol, Option<String>)>)
        ensures
            r@.map_values(|e: (StaticSymbol, Option<String>)| (e.0@, text_of(e.1)))
                == self.spec_attribute_functions(),
    {
        let anchors = self.anchors();
        let fns = self.text_functions();
        let ghost goal = self.spec_attribute_functions();
        let mut r: Vec<(StaticSymbol, Option<String>)> = Vec::new();
        let mut i: usize = 0;
        while i < fns.len()
            invariant
                i <= fns@.len(),
                symbol_views(fns@) == self.spec_text_functions(),
                anchors@ == anchors_of(group_views(self.groups@)),
                forall|i: int| 0 <= i < anchors@.len() ==> (#[trigger] anchors@[i]).1
                    < self.groups@.len(),
                goal == self.spec_attribute_functions(),
                r@.len() == i,
                forall|k: int|
                    0 <= k < i ==> ((#[trigger] r@[k]).0@, text_of(r@[k].1)) == goal[k],
            decreases fns@.len() - i,
        {
            assert(symbol_views(fns@)[i as int] == fns@[i as int]@);
            let file = self.find_file(&anchors, fns[i].value);
            r.push((fns[i].clone(), file));
            i = i + 1;
        }
        assert(r@.map_values(|e: (StaticSymbol, Option<String>)| (e.0@, text_of(e.1))) =~= goal);
        r
    }

    /// Total size of the functions of the code.
    pub fn text_coverage(&self) -> (n: u64)
        ensures
            n == total_size(
                self.spec_text_functions(),
                self.spec_text_functions().len() as int,
            ),
    {
        let fns = self.text_functions();
        let ghost views = symbol_views(fns@);
        let mut n: u64 = 0;
        let mut i: usize = 0;
        while i < fns.len()
            invariant
                i <= fns@.len(),
                views == symbol_views(fns@),
                n == total_size(views, i as int),
            decreases fns@.len() - i,
        {
            assert(views[i as int] == fns@[i as int]@);
            n = n.wrapping_add(fns[i].size);
            i = i + 1;
        }
        n
    }

    /// The units of the image: one for each source file with a function, and one
    /// for the functions in front of every anchor.
    pub fn to_cu_index(&self) -> (r: CuIndex)
        ensures
            unit_views(r.units@) == units_of(
                group_views(self.groups@),
                self.spec_text_functions(),
            ),
    {
        let ghost groups = group_views(self.groups@);
        let ghost functions = self.spec_text_functions();
        let list = self.attribute_functions();
        let ghost pairs = list@.map_values(
            |e: (StaticSymbol, Option<String>)| (e.0@, text_of(e.1)),
        );
        assert(pairs.len() == list@.len() && pairs.len() == functions.len());
        let mut names: Vec<String> = Vec::new();
        let mut lists: Vec<Vec<StaticSymbol>> = Vec::new();
        assert(drafts_of(names@, lists@) =~= Seq::empty());
        let mut i: usize = 0;
        while i < list.len()
            invariant
                i <= list@.len(),
                list@.len() == functions.len(),
                pairs == list@.map_values(
                    |e: (StaticSymbol, Option<String>)| (e.0@, text_of(e.1)),
                ),
                pairs == functions.map_values(|f: SymbolView| (f, file_of(groups, f.value))),
                names@.len() == lists@.len(),
                with_functions(Seq::empty(), groups, functions, 0) == with_functions(
                    drafts_of(names@, lists@),
                    groups,
                    functions,
                    i as int,
                ),
            decreases list@.len() - i,
        {
            assert(pairs[i as int] == (list@[i as int].0@, text_of(list@[i as int].1)));
            assert(pairs[i as int] == (functions[i as int], file_of(
                groups,
                functions[i as int].value,
            )));
            let key = match &list[i].1 {
                Some(f) => f.clone(),
                None => owned(UNATTRIBUTED),
            };
            add_function(&mut names, &mut lists, key, list[i].0.clone());
            i = i + 1;
        }
        let ghost drafts = drafts_of(names@, lists@);
        let mut units: Vec<CompilationUnit> = Vec::new();
        let mut k: usize = 0;
        while k < names.len()
            invariant
                k <= names@.len(),
                names@.len() == lists@.len(),
                drafts == drafts_of(names@, lists@),
                groups == group_views(self.groups@),
                units@.len() == k,
                forall|j: int|
                    0 <= j < k ==> (#[trigger] units@[j])@ == unit_of(groups, drafts[j], j),
            decreases names@.len() - k,
        {
            let unit = self.make_unit(names[k].as_str(), &lists[k], k);
            assert(drafts[k as int] =~= (Draft {
                name: names@[k as int]@,
                functions: symbol_views(lists@[k as int]@),
            }));
            units.push(unit);
            k = k + 1;
        }
        assert(unit_views(units@) =~= units_of(groups, functions));
        CuIndex { units }
    }

    fn make_unit(&self, name: &str, list: &Vec<StaticSymbol>, id: usize) -> (u: CompilationUnit)
        ensures
            u@ == unit_of(
                group_views(self.groups@),
                (Draft { name: name@, functions: symbol_views(list@) }),
                id as int,
            ),
    {
        let ghost d = Draft { name: name@, functions: symbol_views(list@) };
        let ghost goal = unit_of(group_views(self.groups@), d, id as int);
        let mut ranges: Vec<Range<u64>> = Vec::new();
        let mut functions: Vec<Function> = Vec::new();
        let mut i: usize = 0;
        while i < list.len()
            invariant
                i <= list@.len(),
                d.functions == symbol_views(list@),
                goal == unit_of(group_views(self.groups@), d, id as int),
                ranges@.len() == i,
                functions@.len() == i,
                forall|k: int| 0 <= k < i ==> #[trigger] ranges@[k] == goal.ranges[k],
                forall|k: int| 0 <= k < i ==> (#[trigger] functions@[k])@ == goal.functions[k],
            decreases list@.len() - i,
        {
            let s = &list[i];
            assert(d.functions[i as int] == s@);
            ranges.push(Range { start: s.value, end: s.value.wrapping_add(s.size) });
            functions.push(
                Function {
                    name: s.name.clone(),
                    linkage_name: Some(s.name.clone()),
                    addr: s.value,
                    size: s.size,
                    external: s.bind != STB_LOCAL,
                },
            );
            i = i + 1;
        }
        assert(ranges@ =~= goal.ranges);
        assert(function_views(functions@) =~= goal.functions);
        let variables = self.variables_of(name);
        let u = CompilationUnit {
            id,
            name: owned(name),
            comp_dir: None,
            producer: None,
            language: None,
            ranges,
            functions,
            variables,
            debug_info_range: Range { start: 0usize, end: 0usize },
            debug_abbrev_range: Range { start: 0usize, end: 0usize },
            debug_line_range: None,
            file_name: None,
        };
        assert(u@ =~= goal);
        u
    }

    fn variables_of(&self, file: &str) -> (r: Vec<Variable>)
        ensures
            variable_views(r@) == file_variables(
                group_views(self.groups@),
                file@,
                self.groups@.len() as int,
            ),
    {
        let ghost views = group_views(self.groups@);
        let mut r: Vec<Variable> = Vec::new();
        assert(variable_views(r@) =~= Seq::empty());
        let mut i: usize = 0;
        while i < self.groups.len()
            invariant
                i <= self.groups@.len(),
                views == group_views(self.groups@),
                variable_views(r@) == file_variables(views, file@, i as int),
            decreases self.groups@.len() - i,
        {
            assert(views[i as int] == self.groups@[i as int]@);
            if str_eq(self.groups[i].file.as_str(), file) {
                let locals = &self.groups[i].locals;
                let ghost lv = symbol_views(locals@);
                let ghost before = variable_views(r@);
                assert(before + group_variables(lv, 0) =~= before);
                let mut k: usize = 0;
                while k < locals.len()
                    invariant
                        k <= locals@.len(),
                        lv == symbol_views(locals@),
                        variable_views(r@) == before + group_variables(lv, k as int),
                    decreases locals@.len() - k,
                {
                    let s = &locals[k];
                    assert(lv[k as int] == s@);
                    if s.sym_type == STT_OBJECT && s.value != 0 {
                        let ghost list = r@;
                        let v = Variable {
                            name: s.name.clone(),
                            linkage_name: Some(s.name.clone()),
                            addr: s.value,
                            external: s.bind != STB_LOCAL,
                        };
                        let ghost view = v@;
                        r.push(v);
                        assert(variable_views(r@) =~= variable_views(list).push(view));
                        assert(before + group_variables(lv, k as int).push(view) =~= (before
                            + group_variables(lv, k as int)).push(view));
                    }
                    k = k + 1;
                }
            }
            i = i + 1;
        }
        r
    }

    /// Builds the tables of an image with the functions and data of the units and
    /// the data of the symbol table. What the units have at an address stays.
    pub fn build_symbols(&self, binary: &Binary, cus: &CuIndex) -> (r: Result<
        GlobalSymbols,
        ElfError,
    >)
        ensures
            match r {
                Ok(g) => spec_all_dyn_relocs(*binary) is Some && g.is_built(
                    *binary,
                    unit_functions(Map::empty(), unit_views(cus.units@), 0),
                    with_objects(
                        unit_variables(Map::empty(), unit_views(cus.units@), 0),
                        objects_of(symbol_views(self.symbols@), self.text_shndx),
                        0,
                    ),
                    spec_all_dyn_relocs(*binary)->0,
                ),
                Err(e) => spec_all_dyn_relocs(*binary) is None && e == ElfError::UnreadableSection,
            },
    {
        let (functions, variables) = GlobalSymbols::maps_from_cus(cus);
        let mut variables = variables;
        let ghost start = variable_map(variables@);
        let objects = self.data_objects();
        let ghost views = symbol_views(objects@);
        let mut i: usize = 0;
        while i < objects.len()
            invariant
                i <= objects@.len(),
                views == symbol_views(objects@),
                with_objects(start, views, 0) == with_objects(
                    variable_map(variables@),
                    views,
                    i as int,
                ),
            decreases objects@.len() - i,
        {
            let s = &objects[i];
            assert(views[i as int] == s@);
            if !variables.contains_key(&s.value) {
                let ghost before = variables@;
                let v = VariableRef {
                    cu_id: usize::MAX,
                    name: s.name.clone(),
                    linkage_name: Some(s.name.clone()),
                    external: s.bind != STB_LOCAL,
                };
                let ghost view = v@;
                variables.insert(s.value, v);
                assert(variable_map(variables@) =~= variable_map(before).insert(s.value, view));
            }
            i = i + 1;
        }
        GlobalSymbols::build_from_maps(binary, functions, variables)
    }
}

/// Units under construction.
pub open spec fn drafts_of(names: Seq<String>, lists: Seq<Vec<StaticSymbol>>) -> Seq<Draft> {
    Seq::new(
        names.len(),
        |k: int| Draft { name: names[k]@, functions: symbol_views(lists[k]@) },
    )
}

fn add_function(
    names: &mut Vec<String>,
    lists: &mut Vec<Vec<StaticSymbol>>,
    key: String,
    f: StaticSymbol,
)
    requires
        old(names)@.len() == old(lists)@.len(),
    ensures
        final(names)@.len() == final(lists)@.len(),
        drafts_of(final(names)@, final(lists)@) == with_function(
            drafts_of(old(names)@, old(lists)@),
            key@,
            f@,
        ),
{
    let ghost drafts = drafts_of(names@, lists@);
    let ghost n0 = names@;
    let ghost l0 = lists@;
    let mut i: usize = 0;
    while i < names.len() && !str_eq(names[i].as_str(), key.as_str())
        invariant
            i <= names@.len(),
            names@ == n0,
            names@.len() == l0.len(),
            drafts == drafts_of(n0, l0),
            draft_position(drafts, key@, 0) == draft_position(drafts, key@, i as int),
        decreases names@.len() - i,
    {
        assert(drafts[i as int].name == names@[i as int]@);
        i = i + 1;
    }
    proof {
        if i < names@.len() {
            assert(drafts[i as int].name == names@[i as int]@);
        }
    }
    let ghost view = f@;
    let ghost name = key@;
    if i < names.len() {
        let ghost list = lists@[i as int]@;
        lists[i].push(f);
        assert(symbol_views(lists@[i as int]@) =~= symbol_views(list).push(view));
        assert(drafts_of(names@, lists@) =~= with_function(drafts, name, view));
    } else {
        let mut list: Vec<StaticSymbol> = Vec::new();
        list.push(f);
        assert(symbol_views(list@) =~= Seq::empty().push(view));
        names.push(key);
        lists.push(list);
        assert(drafts_of(names@, lists@) =~= with_function(drafts, name, view));
    }
}

} // verus!
