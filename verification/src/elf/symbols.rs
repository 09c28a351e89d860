//! Addresses of an ELF image resolved to symbol names.
//!
//! Functions and data come from the compilation units or the symbol table, and
//! symbols outside the image from the procedure linkage table and the global
//! offset table.
use std::collections::{BTreeMap, HashMap};
use std::ops::Range;
use vstd::hash_map::StringHashMap;
use vstd::prelude::*;

use super::binary::{Binary, ElfError};
use super::cu::{unit_views, CompilationUnit, CuIndex, UnitView};
use super::dynrel::{dyn_reloc_views, read_all_dyn_relocs, spec_all_dyn_relocs, DynReloc, DynRelocView};
use super::reltypes::{R_AARCH64_RELATIVE, R_ARM_RELATIVE};
use crate::arch::Arch;
use crate::bytes::{le_value, read_u32_le};
use crate::image::{elf_section, section_called, ImageSection};
use crate::ordered::{
    covers, floor, floor_entry, keys_between, keys_in_range, lemma_covers, lemma_keys_between,
};
use crate::ranges::{
    begins_at, contains, lemma_reaches, offset_in, range_contains, range_offset, reaches,
};
use crate::text::{
    clone_text, digits, hex, joined, lemma_digits_distinct, lemma_digits_have_no_dot, owned,
    text_list, text_of, texts,
};

verus! {

broadcast use {
    vstd::std_specs::hash::group_hash_axioms,
    vstd::std_specs::btree::group_btree_axioms,
    vstd::hash_map::group_hash_map_axioms,
};

/// A function that addresses resolve to.
#[derive(Debug)]
pub struct FunctionRef {
    /// Unit that the function belongs to.
    pub cu_id: usize,
    pub name: String,
    pub linkage_name: Option<String>,
    pub size: u64,
    pub external: bool,
}

/// A function that addresses resolve to, with its names as text.
pub ghost struct FunctionRefView {
    pub cu_id: usize,
    pub name: Seq<char>,
    pub linkage_name: Option<Seq<char>>,
    pub size: u64,
    pub external: bool,
}

/// The mangled name, or else the source name.
pub open spec fn exported(name: Seq<char>, linkage_name: Option<Seq<char>>) -> Seq<char> {
    match linkage_name {
        Some(n) => n,
        None => name,
    }
}

impl FunctionRefView {
    /// The name under which objects know the function.
    pub open spec fn export_name(self) -> Seq<char> {
        exported(self.name, self.linkage_name)
    }
}

impl View for FunctionRef {
    type V = FunctionRefView;

    open spec fn view(&self) -> FunctionRefView {
        FunctionRefView {
            cu_id: self.cu_id,
            name: self.name@,
            linkage_name: text_of(self.linkage_name),
            size: self.size,
            external: self.external,
        }
    }
}

impl FunctionRef {
    /// The name under which objects know the function.
    pub fn export_name(&self) -> (r: &str)
        ensures
            r@ == self@.export_name(),
    {
        match &self.linkage_name {
            Some(n) => n.as_str(),
            None => self.name.as_str(),
        }
    }
}

impl Clone for FunctionRef {
    fn clone(&self) -> (r: Self)
        ensures
            r == *self,
    {
        FunctionRef {
            cu_id: self.cu_id,
            name: self.name.clone(),
            linkage_name: clone_text(&self.linkage_name),
            size: self.size,
            external: self.external,
        }
    }
}

/// A datum that addresses resolve to.
#[derive(Debug)]
pub struct VariableRef {
    /// Unit that the datum belongs to; the greatest number where none is known.
    pub cu_id: usize,
    pub name: String,
    pub linkage_name: Option<String>,
    pub external: bool,
}

/// A datum that addresses resolve to, with its names as text.
pub ghost struct VariableRefView {
    pub cu_id: usize,
    pub name: Seq<char>,
    pub linkage_name: Option<Seq<char>>,
    pub external: bool,
}

impl VariableRefView {
    /// The name under which objects know the datum.
    pub open spec fn export_name(self) -> Seq<char> {
        exported(self.name, self.linkage_name)
    }
}

impl View for VariableRef {
    type V = VariableRefView;

    open spec fn view(&self) -> VariableRefView {
        VariableRefView {
            cu_id: self.cu_id,
            name: self.name@,
            linkage_name: text_of(self.linkage_name),
            external: self.external,
        }
    }
}

impl VariableRef {
    /// The name under which objects know the datum.
    pub fn export_name(&self) -> (r: &str)
        ensures
            r@ == self@.export_name(),
    {
        match &self.linkage_name {
            Some(n) => n.as_str(),
            None => self.name.as_str(),
        }
    }
}

impl Clone for VariableRef {
    fn clone(&self) -> (r: Self)
        ensures
            r == *self,
    {
        VariableRef {
            cu_id: self.cu_id,
            name: self.name.clone(),
            linkage_name: clone_text(&self.linkage_name),
            external: self.external,
        }
    }
}

/// Functions by address, with their names as text.
pub open spec fn function_map(m: Map<u64, FunctionRef>) -> Map<u64, FunctionRefView> {
    m.map_values(|f: FunctionRef| f@)
}

/// Data by address, with their names as text.
pub open spec fn variable_map(m: Map<u64, VariableRef>) -> Map<u64, VariableRefView> {
    m.map_values(|v: VariableRef| v@)
}

/// What a branch goes to.
#[derive(Debug)]
pub enum ResolvedTarget<'a> {
    /// A function of one of the units.
    Internal(&'a FunctionRef),
    /// A symbol outside the image, through the procedure linkage table.
    ExternalPlt(&'a str),
    /// Nothing known.
    Unknown,
}

/// How an address was resolved.
#[derive(Debug, Clone, Copy, PartialEq, Eq, Structural)]
pub enum DataSource {
    Function,
    Variable,
    GotSlot,
    SectionRelative,
}

/// A symbol and the distance from it.
#[derive(Debug)]
pub struct DataResolution {
    pub symbol: String,
    pub addend: i64,
    pub source: DataSource,
}

/// A symbol and the distance from it, with its name as text.
pub ghost struct DataResolutionView {
    pub symbol: Seq<char>,
    pub addend: i64,
    pub source: DataSource,
}

impl View for DataResolution {
    type V = DataResolutionView;

    open spec fn view(&self) -> DataResolutionView {
        DataResolutionView { symbol: self.symbol@, addend: self.addend, source: self.source }
    }
}

/// An optional resolution, with its name as text.
pub open spec fn resolution_of(r: Option<DataResolution>) -> Option<DataResolutionView> {
    match r {
        Some(d) => Some(d@),
        None => None,
    }
}

/// Start of the constant data in the object for shared data.
pub const SYM_RODATA_START: &'static str = "__delink_rodata_start";

/// Start of the initialized data in the object for shared data.
pub const SYM_DATA_START: &'static str = "__delink_data_start";

/// Start of the data that is constant once relocated.
pub const SYM_DATA_REL_RO_START: &'static str = "__delink_data_rel_ro_start";

/// Start of the local data that is constant once relocated.
pub const SYM_DATA_REL_RO_LOCAL_START: &'static str = "__delink_data_rel_ro_local_start";

/// Start of the zero-filled data.
pub const SYM_BSS_START: &'static str = "__delink_bss_start";

pub const AARCH64_PLT_HEADER_SIZE: u64 = 32;

pub const AARCH64_PLT_ENTRY_SIZE: u64 = 16;

/// A first entry of 20 bytes, then entries of 12 bytes.
pub const ARM_PLT_HEADER_SIZE: u64 = 20;

pub const ARM_PLT_ENTRY_SIZE: u64 = 12;

/// What the addresses of an image stand for.
pub struct GlobalSymbols {
    /// Start of a function to the function.
    pub functions: BTreeMap<u64, FunctionRef>,
    /// Address of a datum to the datum.
    pub variables: BTreeMap<u64, VariableRef>,
    /// Stub of the procedure linkage table to the name of the dynamic symbol.
    pub plt: HashMap<u64, String>,
    /// Slot of the global offset table to the name of the dynamic symbol.
    pub got: HashMap<u64, String>,
    /// Slot of the global offset table to the address in the image that it holds.
    pub got_local: HashMap<u64, u64>,
    pub plt_range: Option<Range<u64>>,
    pub got_range: Option<Range<u64>>,
    pub text_range: Range<u64>,
    pub rodata_range: Option<Range<u64>>,
    pub data_range: Option<Range<u64>>,
    pub data_rel_ro_range: Option<Range<u64>>,
    pub data_rel_ro_local_range: Option<Range<u64>>,
    pub bss_range: Option<Range<u64>>,
    pub arch: Arch,
}

/// With the functions of unit `cu`, from `i` on, that take up space. The last
/// function of an address stays.
pub open spec fn with_functions(
    m: Map<u64, FunctionRefView>,
    cu: UnitView,
    i: int,
) -> Map<u64, FunctionRefView>
    decreases cu.functions.len() - i,
{
    if i < 0 || i >= cu.functions.len() {
        m
    } else {
        let f = cu.functions[i];
        with_functions(
            if f.size == 0 {
                m
            } else {
                m.insert(
                    f.addr,
                    FunctionRefView {
                        cu_id: cu.id as usize,
                        name: f.name,
                        linkage_name: f.linkage_name,
                        size: f.size,
                        external: f.external,
                    },
                )
            },
            cu,
            i + 1,
        )
    }
}

/// With the data of unit `cu`, from `i` on, that have an address. The last datum
/// of an address stays.
pub open spec fn with_variables(
    m: Map<u64, VariableRefView>,
    cu: UnitView,
    i: int,
) -> Map<u64, VariableRefView>
    decreases cu.variables.len() - i,
{
    if i < 0 || i >= cu.variables.len() {
        m
    } else {
        let v = cu.variables[i];
        with_variables(
            if v.addr == 0 {
                m
            } else {
                m.insert(
                    v.addr,
                    VariableRefView {
                        cu_id: cu.id as usize,
                        name: v.name,
                        linkage_name: v.linkage_name,
                        external: v.external,
                    },
                )
            },
            cu,
            i + 1,
        )
    }
}

/// With the functions of the units from `i` on.
pub open spec fn unit_functions(
    m: Map<u64, FunctionRefView>,
    units: Seq<UnitView>,
    i: int,
) -> Map<u64, FunctionRefView>
    decreases units.len() - i,
{
    if i < 0 || i >= units.len() {
        m
    } else {
        unit_functions(with_functions(m, units[i], 0), units, i + 1)
    }
}

/// With the data of the units from `i` on.
pub open spec fn unit_variables(
    m: Map<u64, VariableRefView>,
    units: Seq<UnitView>,
    i: int,
) -> Map<u64, VariableRefView>
    decreases units.len() - i,
{
    if i < 0 || i >= units.len() {
        m
    } else {
        unit_variables(with_variables(m, units[i], 0), units, i + 1)
    }
}

fn add_functions(m: &mut BTreeMap<u64, FunctionRef>, cu: &CompilationUnit)
    ensures
        function_map(final(m)@) == with_functions(function_map(old(m)@), cu@, 0),
{
    let mut i: usize = 0;
    while i < cu.functions.len()
        invariant
            i <= cu.functions@.len(),
            with_functions(function_map(old(m)@), cu@, 0) == with_functions(
                function_map(m@),
                cu@,
                i as int,
            ),
        decreases cu.functions@.len() - i,
    {
        let f = &cu.functions[i];
        assert(cu@.functions[i as int] == f@);
        if f.size != 0 {
            let ghost before = m@;
            let r = FunctionRef {
                cu_id: cu.id,
                name: f.name.clone(),
                linkage_name: clone_text(&f.linkage_name),
                size: f.size,
                external: f.external,
            };
            let ghost view = r@;
            m.insert(f.addr, r);
            assert(function_map(m@) =~= function_map(before).insert(f.addr, view));
        }
        i = i + 1;
    }
}

fn add_variables(m: &mut BTreeMap<u64, VariableRef>, cu: &CompilationUnit)
    ensures
        variable_map(final(m)@) == with_variables(variable_map(old(m)@), cu@, 0),
{
    let mut i: usize = 0;
    while i < cu.variables.len()
        invariant
            i <= cu.variables@.len(),
            with_variables(variable_map(old(m)@), cu@, 0) == with_variables(
                variable_map(m@),
                cu@,
                i as int,
            ),
        decreases cu.variables@.len() - i,
    {
        let v = &cu.variables[i];
        assert(cu@.variables[i as int] == v@);
        if v.addr != 0 {
            let ghost before = m@;
            let r = VariableRef {
                cu_id: cu.id,
                name: v.name.clone(),
                linkage_name: clone_text(&v.linkage_name),
                external: v.external,
            };
            let ghost view = r@;
            m.insert(v.addr, r);
            assert(variable_map(m@) =~= variable_map(before).insert(v.addr, view));
        }
        i = i + 1;
    }
}

/// True when the function at `a` is exported as `name`.
pub open spec fn function_called(fs: Map<u64, FunctionRefView>, a: u64, name: Seq<char>) -> bool {
    fs.contains_key(a) && fs[a].export_name() == name
}

/// True when the datum at `a` is exported as `name`.
pub open spec fn variable_called(vs: Map<u64, VariableRefView>, a: u64, name: Seq<char>) -> bool {
    vs.contains_key(a) && vs[a].export_name() == name
}

/// True when more than one function or datum is exported as `name`.
pub open spec fn collides(
    fs: Map<u64, FunctionRefView>,
    vs: Map<u64, VariableRefView>,
    name: Seq<char>,
) -> bool {
    ||| exists|a: u64, b: u64|
        a != b && #[trigger] function_called(fs, a, name) && #[trigger] function_called(fs, b, name)
    ||| exists|a: u64, b: u64| #[trigger]
        function_called(fs, a, name) && #[trigger] variable_called(vs, b, name)
    ||| exists|a: u64, b: u64|
        a != b && #[trigger] variable_called(vs, a, name) && #[trigger] variable_called(vs, b, name)
}

/// `name` with the address behind it.
pub open spec fn suffixed(name: Seq<char>, addr: u64) -> Seq<char> {
    name + "."@ + digits(addr as nat, 16)
}

/// The functions, with the names that collide made unique by their addresses.
pub open spec fn renamed_functions(
    fs: Map<u64, FunctionRefView>,
    vs: Map<u64, VariableRefView>,
) -> Map<u64, FunctionRefView> {
    fs.map_entries(
        |a: u64, f: FunctionRefView|
            if collides(fs, vs, f.export_name()) {
                FunctionRefView { linkage_name: Some(suffixed(f.export_name(), a)), ..f }
            } else {
                f
            },
    )
}

/// The data, with the names that collide made unique by their addresses.
pub open spec fn renamed_variables(
    fs: Map<u64, FunctionRefView>,
    vs: Map<u64, VariableRefView>,
) -> Map<u64, VariableRefView> {
    vs.map_entries(
        |a: u64, v: VariableRefView|
            if collides(fs, vs, v.export_name()) {
                VariableRefView { linkage_name: Some(suffixed(v.export_name(), a)), ..v }
            } else {
                v
            },
    )
}

/// True when a function or a datum at `a` is exported as `name`.
pub open spec fn called(
    fs: Map<u64, FunctionRefView>,
    vs: Map<u64, VariableRefView>,
    a: u64,
    name: Seq<char>,
) -> bool {
    function_called(fs, a, name) || variable_called(vs, a, name)
}

/// True when no name that is left alone is one that another entry gets. It holds of
/// names that come from C sources, where no `.` can stand.
pub open spec fn suffixes_are_new(
    fs: Map<u64, FunctionRefView>,
    vs: Map<u64, VariableRefView>,
) -> bool {
    forall|a: u64, n: Seq<char>, b: u64, m: Seq<char>| #[trigger]
        called(fs, vs, a, n) && #[trigger] called(fs, vs, b, m) && !collides(fs, vs, n) && collides(
            fs,
            vs,
            m,
        ) ==> n != suffixed(m, b)
}

/// True when no function has the name of the datum at its address.
pub open spec fn twins_differ(
    fs: Map<u64, FunctionRefView>,
    vs: Map<u64, VariableRefView>,
) -> bool {
    forall|a: u64| #[trigger]
        fs.contains_key(a) && #[trigger] vs.contains_key(a) ==> fs[a].export_name()
            != vs[a].export_name()
}

/// Names with addresses behind them tell names and addresses apart.
proof fn lemma_suffixed(n: Seq<char>, a: u64, m: Seq<char>, b: u64)
    requires
        suffixed(n, a) == suffixed(m, b),
    ensures
        a == b,
        n == m,
{
    reveal_strlit(".");
    let da = digits(a as nat, 16);
    let db = digits(b as nat, 16);
    let s = suffixed(n, a);
    let t = suffixed(m, b);
    lemma_digits_have_no_dot(a as nat, 16);
    lemma_digits_have_no_dot(b as nat, 16);
    let sa = n + "."@;
    let sb = m + "."@;
    assert(sa.len() == n.len() + 1 && sb.len() == m.len() + 1);
    assert(s.len() == sa.len() + da.len() && t.len() == sb.len() + db.len());
    assert(s[n.len() as int] == '.');
    assert(t[m.len() as int] == '.');
    if n.len() < m.len() {
        assert((sa + da)[m.len() as int] == da[m.len() - sa.len()]);
        assert(false);
    }
    if m.len() < n.len() {
        assert((sb + db)[n.len() as int] == db[n.len() - sb.len()]);
        assert(false);
    }
    assert(da =~= s.subrange(n.len() as int + 1, s.len() as int));
    assert(db =~= t.subrange(m.len() as int + 1, t.len() as int));
    assert(n =~= s.subrange(0, n.len() as int));
    assert(m =~= t.subrange(0, m.len() as int));
    lemma_digits_distinct(a as nat, b as nat, 16);
}

/// After renaming, no two functions, no two data, and no function and datum are exported
/// under one name.
pub proof fn law_names_are_unique(fs: Map<u64, FunctionRefView>, vs: Map<u64, VariableRefView>)
    requires
        suffixes_are_new(fs, vs),
        twins_differ(fs, vs),
    ensures
        forall|name: Seq<char>, a: u64, b: u64|
            a != b ==> !(#[trigger] function_called(renamed_functions(fs, vs), a, name)
                && #[trigger] function_called(renamed_functions(fs, vs), b, name)),
        forall|name: Seq<char>, a: u64, b: u64|
            !(#[trigger] function_called(renamed_functions(fs, vs), a, name)
                && #[trigger] variable_called(renamed_variables(fs, vs), b, name)),
        forall|name: Seq<char>, a: u64, b: u64|
            a != b ==> !(#[trigger] variable_called(renamed_variables(fs, vs), a, name)
                && #[trigger] variable_called(renamed_variables(fs, vs), b, name)),
{
    let rf = renamed_functions(fs, vs);
    let rv = renamed_variables(fs, vs);
    assert forall|name: Seq<char>, a: u64, b: u64| a != b implies !(#[trigger] function_called(
        rf,
        a,
        name,
    ) && #[trigger] function_called(rf, b, name)) by {
        if function_called(rf, a, name) && function_called(rf, b, name) {
            assert(function_called(fs, a, fs[a].export_name()));
            assert(function_called(fs, b, fs[b].export_name()));
            lemma_clash(fs, vs, fs[a].export_name(), a, fs[b].export_name(), b);
        }
    }
    assert forall|name: Seq<char>, a: u64, b: u64| !(#[trigger] function_called(rf, a, name)
        && #[trigger] variable_called(rv, b, name)) by {
        if function_called(rf, a, name) && variable_called(rv, b, name) {
            assert(function_called(fs, a, fs[a].export_name()));
            assert(variable_called(vs, b, vs[b].export_name()));
            if a == b {
                assert(fs.contains_key(a) && vs.contains_key(a));
            }
            lemma_clash(fs, vs, fs[a].export_name(), a, vs[b].export_name(), b);
        }
    }
    assert forall|name: Seq<char>, a: u64, b: u64| a != b implies !(#[trigger] variable_called(
        rv,
        a,
        name,
    ) && #[trigger] variable_called(rv, b, name)) by {
        if variable_called(rv, a, name) && variable_called(rv, b, name) {
            assert(variable_called(vs, a, vs[a].export_name()));
            assert(variable_called(vs, b, vs[b].export_name()));
            lemma_clash(fs, vs, vs[a].export_name(), a, vs[b].export_name(), b);
        }
    }
}

/// The name that an entry exported as `name` at `a` gets.
spec fn new_name(
    fs: Map<u64, FunctionRefView>,
    vs: Map<u64, VariableRefView>,
    name: Seq<char>,
    a: u64,
) -> Seq<char> {
    if collides(fs, vs, name) {
        suffixed(name, a)
    } else {
        name
    }
}

/// Two entries with different addresses or names do not get one name.
proof fn lemma_clash(
    fs: Map<u64, FunctionRefView>,
    vs: Map<u64, VariableRefView>,
    n: Seq<char>,
    a: u64,
    m: Seq<char>,
    b: u64,
)
    requires
        suffixes_are_new(fs, vs),
        a != b || n != m,
        called(fs, vs, a, n),
        called(fs, vs, b, m),
    ensures
        new_name(fs, vs, n, a) != new_name(fs, vs, m, b),
{
    if collides(fs, vs, n) && collides(fs, vs, m) {
        if suffixed(n, a) == suffixed(m, b) {
            lemma_suffixed(n, a, m, b);
        }
    } else if !collides(fs, vs, n) && !collides(fs, vs, m) && n == m {
        assert(collides(fs, vs, n));
    }
}

/// True when `name` stands at two places of the list.
pub open spec fn repeated(names: Seq<Seq<char>>, name: Seq<char>) -> bool {
    exists|i: int, j: int|
        0 <= i < j < names.len() && #[trigger] names[i] == name && #[trigger] names[j] == name
}

/// Finds the names that stand at two places of the list.
fn find_repeated(names: &Vec<String>) -> (r: StringHashMap<bool>)
    ensures
        forall|name: Seq<char>| #[trigger]
            r@.contains_key(name) <==> repeated(text_list(names@), name),
{
    let ghost list = text_list(names@);
    let mut seen: StringHashMap<bool> = StringHashMap::new();
    let mut twice: StringHashMap<bool> = StringHashMap::new();
    let mut i: usize = 0;
    while i < names.len()
        invariant
            i <= names@.len(),
            list == text_list(names@),
            forall|name: Seq<char>| #[trigger]
                seen@.contains_key(name) <==> exists|j: int| 0 <= j < i && #[trigger] list[j] == name,
            forall|name: Seq<char>| #[trigger]
                twice@.contains_key(name) <==> repeated(list.subrange(0, i as int), name),
        decreases names@.len() - i,
    {
        let ghost seen0 = seen@;
        let ghost twice0 = twice@;
        let ghost next = list[i as int];
        let ghost front = list.subrange(0, i as int);
        let ghost whole = list.subrange(0, i + 1);
        assert(list[i as int] == names@[i as int]@);
        if seen.contains_key(names[i].as_str()) {
            twice.insert(names[i].clone(), true);
        } else {
            seen.insert(names[i].clone(), true);
        }
        proof {
            assert forall|name: Seq<char>| #[trigger] twice@.contains_key(name) <==> repeated(
                whole,
                name,
            ) by {
                if repeated(front, name) {
                    let (j, k) = choose|j: int, k: int|
                        0 <= j < k < front.len() && #[trigger] front[j] == name
                            && #[trigger] front[k] == name;
                    assert(whole[j] == name && whole[k] == name);
                }
                if name == next && seen0.contains_key(next) {
                    let j = choose|j: int| 0 <= j < i && #[trigger] list[j] == name;
                    assert(whole[j] == name && whole[i as int] == name);
                }
                if repeated(whole, name) {
                    let (j, k) = choose|j: int, k: int|
                        0 <= j < k < whole.len() && #[trigger] whole[j] == name
                            && #[trigger] whole[k] == name;
                    if k < i {
                        assert(front[j] == name && front[k] == name);
                    } else {
                        assert(list[j] == name);
                        assert(seen0.contains_key(name));
                    }
                }
            }
            assert forall|name: Seq<char>| #[trigger] seen@.contains_key(name) <==> exists|j: int|
                0 <= j < i + 1 && #[trigger] list[j] == name by {
                if seen@.contains_key(name) && name != next {
                    assert(seen0.contains_key(name));
                    let j = choose|j: int| 0 <= j < i && #[trigger] list[j] == name;
                    assert(0 <= j < i + 1 && list[j] == name);
                }
                if name == next {
                    assert(list[i as int] == name);
                }
            }
        }
        i = i + 1;
    }
    assert(list.subrange(0, list.len() as int) =~= list);
    twice
}

/// The export names of the functions and then of the data, by address.
pub open spec fn export_names(
    fs: Map<u64, FunctionRefView>,
    vs: Map<u64, VariableRefView>,
) -> Seq<Seq<char>> {
    keys_between(fs.dom(), 0, u64::MAX).map_values(|a: u64| fs[a].export_name()) + keys_between(
        vs.dom(),
        0,
        u64::MAX,
    ).map_values(|a: u64| vs[a].export_name())
}

/// A name collides when it is repeated in the list of export names.
proof fn lemma_collides(
    fs: Map<u64, FunctionRefView>,
    vs: Map<u64, VariableRefView>,
    name: Seq<char>,
)
    ensures
        collides(fs, vs, name) <==> repeated(export_names(fs, vs), name),
{
    let fk = keys_between(fs.dom(), 0, u64::MAX);
    let vk = keys_between(vs.dom(), 0, u64::MAX);
    let names = export_names(fs, vs);
    lemma_keys_between(fs.dom(), 0, u64::MAX);
    lemma_keys_between(vs.dom(), 0, u64::MAX);
    assert forall|i: int| 0 <= i < fk.len() implies #[trigger] names[i] == fs[fk[i]].export_name()
        && fs.contains_key(fk[i]) by {
        assert(fk.contains(fk[i]));
    }
    assert forall|i: int| fk.len() <= i < names.len() implies #[trigger] names[i]
        == vs[vk[i - fk.len()]].export_name() && vs.contains_key(vk[i - fk.len()]) by {
        assert(vk.contains(vk[i - fk.len()]));
    }
    assert forall|a: u64| function_called(fs, a, name) implies exists|i: int|
        0 <= i < fk.len() && #[trigger] fk[i] == a by {
        assert(fk.contains(a));
    }
    assert forall|a: u64| variable_called(vs, a, name) implies exists|i: int|
        0 <= i < vk.len() && #[trigger] vk[i] == a by {
        assert(vk.contains(a));
    }
    if repeated(names, name) {
        let (i, j) = choose|i: int, j: int|
            0 <= i < j < names.len() && #[trigger] names[i] == name && #[trigger] names[j] == name;
        if j < fk.len() {
            assert(fk[i] < fk[j]);
            assert(function_called(fs, fk[i], name) && function_called(fs, fk[j], name));
        } else if i < fk.len() {
            assert(function_called(fs, fk[i], name) && variable_called(
                vs,
                vk[j - fk.len()],
                name,
            ));
        } else {
            assert(vk[i - fk.len()] < vk[j - fk.len()]);
            assert(variable_called(vs, vk[i - fk.len()], name) && variable_called(
                vs,
                vk[j - fk.len()],
                name,
            ));
        }
    }
    if exists|a: u64, b: u64|
        a != b && #[trigger] function_called(fs, a, name) && #[trigger] function_called(
            fs,
            b,
            name,
        ) {
        let (a, b) = choose|a: u64, b: u64|
            a != b && #[trigger] function_called(fs, a, name) && #[trigger] function_called(
                fs,
                b,
                name,
            );
        let i = choose|i: int| 0 <= i < fk.len() && #[trigger] fk[i] == a;
        let j = choose|j: int| 0 <= j < fk.len() && #[trigger] fk[j] == b;
        assert(names[i] == name && names[j] == name);
        assert(i != j);
    }
    if exists|a: u64, b: u64| #[trigger]
        function_called(fs, a, name) && #[trigger] variable_called(vs, b, name) {
        let (a, b) = choose|a: u64, b: u64| #[trigger]
            function_called(fs, a, name) && #[trigger] variable_called(vs, b, name);
        let i = choose|i: int| 0 <= i < fk.len() && #[trigger] fk[i] == a;
        let j = choose|j: int| 0 <= j < vk.len() && #[trigger] vk[j] == b;
        assert(names[i] == name && names[fk.len() + j] == name);
    }
    if exists|a: u64, b: u64|
        a != b && #[trigger] variable_called(vs, a, name) && #[trigger] variable_called(
            vs,
            b,
            name,
        ) {
        let (a, b) = choose|a: u64, b: u64|
            a != b && #[trigger] variable_called(vs, a, name) && #[trigger] variable_called(
                vs,
                b,
                name,
            );
        let i = choose|i: int| 0 <= i < vk.len() && #[trigger] vk[i] == a;
        let j = choose|j: int| 0 <= j < vk.len() && #[trigger] vk[j] == b;
        assert(names[fk.len() + i] == name && names[fk.len() + j] == name);
        assert(i != j);
    }
}

fn list_names(
    functions: &BTreeMap<u64, FunctionRef>,
    variables: &BTreeMap<u64, VariableRef>,
    fkeys: &Vec<u64>,
    vkeys: &Vec<u64>,
) -> (names: Vec<String>)
    requires
        fkeys@ == keys_between(functions@.dom(), 0, u64::MAX),
        vkeys@ == keys_between(variables@.dom(), 0, u64::MAX),
    ensures
        text_list(names@) == export_names(function_map(functions@), variable_map(variables@)),
{
    let ghost fs = function_map(functions@);
    let ghost vs = variable_map(variables@);
    let ghost total = export_names(fs, vs);
    proof {
        lemma_keys_between(functions@.dom(), 0, u64::MAX);
        lemma_keys_between(variables@.dom(), 0, u64::MAX);
        assert(fs.dom() =~= functions@.dom());
        assert(vs.dom() =~= variables@.dom());
    }
    let mut names: Vec<String> = Vec::new();
    let mut i: usize = 0;
    while i < fkeys.len()
        invariant
            i <= fkeys@.len(),
            fkeys@ == keys_between(functions@.dom(), 0, u64::MAX),
            vkeys@ == keys_between(variables@.dom(), 0, u64::MAX),
            forall|k: u64| #[trigger] fkeys@.contains(k) ==> functions@.contains_key(k),
            fs == function_map(functions@),
            vs == variable_map(variables@),
            fs.dom() == functions@.dom(),
            vs.dom() == variables@.dom(),
            total == export_names(fs, vs),
            text_list(names@) == total.subrange(0, i as int),
        decreases fkeys@.len() - i,
    {
        assert(fkeys@.contains(fkeys@[i as int]));
        if let Some(f) = functions.get(&fkeys[i]) {
            let ghost before = names@;
            names.push(owned(f.export_name()));
            assert(text_list(names@) =~= text_list(before).push(f@.export_name()));
        }
        i = i + 1;
        assert(text_list(names@) =~= total.subrange(0, i as int));
    }
    let ghost base = fkeys@.len();
    let mut j: usize = 0;
    while j < vkeys.len()
        invariant
            j <= vkeys@.len(),
            base == fkeys@.len(),
            fkeys@ == keys_between(functions@.dom(), 0, u64::MAX),
            vkeys@ == keys_between(variables@.dom(), 0, u64::MAX),
            forall|k: u64| #[trigger] vkeys@.contains(k) ==> variables@.contains_key(k),
            fs == function_map(functions@),
            vs == variable_map(variables@),
            fs.dom() == functions@.dom(),
            vs.dom() == variables@.dom(),
            total == export_names(fs, vs),
            text_list(names@) == total.subrange(0, base + j),
        decreases vkeys@.len() - j,
    {
        assert(vkeys@.contains(vkeys@[j as int]));
        if let Some(v) = variables.get(&vkeys[j]) {
            let ghost before = names@;
            names.push(owned(v.export_name()));
            assert(text_list(names@) =~= text_list(before).push(v@.export_name()));
        }
        j = j + 1;
        assert(text_list(names@) =~= total.subrange(0, base + j));
    }
    assert(total.subrange(0, total.len() as int) =~= total);
    names
}

fn suffixed_name(name: &str, addr: u64) -> (r: String)
    ensures
        r@ == suffixed(name@, addr),
{
    joined(joined(name, ".").as_str(), hex(addr).as_str())
}

/// Makes every exported name unique: those that collide get their address behind
/// them.
///
/// Static definitions of different units share names. Once they are in different
/// objects, the name is all that references have to go on, so an ambiguous one
/// would bind to the wrong definition. A `.` cannot stand in a C identifier, so
/// the suffix cannot make a name of the source.
pub fn disambiguate_names(
    functions: &mut BTreeMap<u64, FunctionRef>,
    variables: &mut BTreeMap<u64, VariableRef>,
)
    ensures
        function_map(final(functions)@) == renamed_functions(
            function_map(old(functions)@),
            variable_map(old(variables)@),
        ),
        variable_map(final(variables)@) == renamed_variables(
            function_map(old(functions)@),
            variable_map(old(variables)@),
        ),
{
    let ghost fs = function_map(functions@);
    let ghost vs = variable_map(variables@);
    let ghost f0 = functions@;
    let ghost v0 = variables@;
    let fkeys = keys_in_range(functions, 0, u64::MAX);
    let vkeys = keys_in_range(variables, 0, u64::MAX);
    let names = list_names(functions, variables, &fkeys, &vkeys);
    let twice = find_repeated(&names);
    proof {
        lemma_keys_between(f0.dom(), 0, u64::MAX);
        lemma_keys_between(v0.dom(), 0, u64::MAX);
        assert forall|name: Seq<char>| #[trigger] twice@.contains_key(name) <==> collides(
            fs,
            vs,
            name,
        ) by {
            lemma_collides(fs, vs, name);
        }
        assert(function_map(functions@) =~= fs);
    }
    let mut i: usize = 0;
    while i < fkeys.len()
        invariant
            i <= fkeys@.len(),
            fkeys@ == keys_between(f0.dom(), 0, u64::MAX),
            fs == function_map(f0),
            functions@.dom() == f0.dom(),
            forall|k: u64| #[trigger] fkeys@.contains(k) <==> f0.contains_key(k),
            forall|a: int, b: int| 0 <= a < b < fkeys@.len() ==> fkeys@[a] < fkeys@[b],
            forall|name: Seq<char>| #[trigger] twice@.contains_key(name) <==> collides(fs, vs, name),
            forall|k: int|
                0 <= k < i ==> functions@[#[trigger] fkeys@[k]]@ == renamed_functions(
                    fs,
                    vs,
                )[fkeys@[k]],
            forall|k: int|
                i <= k < fkeys@.len() ==> functions@[#[trigger] fkeys@[k]] == f0[fkeys@[k]],
        decreases fkeys@.len() - i,
    {
        let a: u64 = fkeys[i];
        assert(fkeys@.contains(a));
        let found = match functions.get(&a) {
            Some(f) => if twice.contains_key(f.export_name()) {
                let name = suffixed_name(f.export_name(), a);
                let mut g = f.clone();
                g.linkage_name = Some(name);
                Some(g)
            } else {
                None
            },
            None => None,
        };
        if let Some(g) = found {
            functions.insert(a, g);
        }
        i = i + 1;
        assert(functions@.dom() =~= f0.dom());
    }
    let mut j: usize = 0;
    while j < vkeys.len()
        invariant
            j <= vkeys@.len(),
            vkeys@ == keys_between(v0.dom(), 0, u64::MAX),
            vs == variable_map(v0),
            variables@.dom() == v0.dom(),
            forall|k: u64| #[trigger] vkeys@.contains(k) <==> v0.contains_key(k),
            forall|a: int, b: int| 0 <= a < b < vkeys@.len() ==> vkeys@[a] < vkeys@[b],
            forall|name: Seq<char>| #[trigger] twice@.contains_key(name) <==> collides(fs, vs, name),
            forall|k: int|
                0 <= k < j ==> variables@[#[trigger] vkeys@[k]]@ == renamed_variables(
                    fs,
                    vs,
                )[vkeys@[k]],
            forall|k: int|
                j <= k < vkeys@.len() ==> variables@[#[trigger] vkeys@[k]] == v0[vkeys@[k]],
        decreases vkeys@.len() - j,
    {
        let a: u64 = vkeys[j];
        assert(vkeys@.contains(a));
        let found = match variables.get(&a) {
            Some(v) => if twice.contains_key(v.export_name()) {
                let name = suffixed_name(v.export_name(), a);
                let mut w = v.clone();
                w.linkage_name = Some(name);
                Some(w)
            } else {
                None
            },
            None => None,
        };
        if let Some(w) = found {
            variables.insert(a, w);
        }
        j = j + 1;
        assert(variables@.dom() =~= v0.dom());
    }
    proof {
        assert forall|a: u64| f0.contains_key(a) implies #[trigger] functions@[a]@
            == renamed_functions(fs, vs)[a] by {
            assert(fkeys@.contains(a));
            let k = choose|k: int| 0 <= k < fkeys@.len() && fkeys@[k] == a;
            assert(functions@[fkeys@[k]]@ == renamed_functions(fs, vs)[fkeys@[k]]);
        }
        assert(function_map(functions@) =~= renamed_functions(fs, vs));
        assert forall|a: u64| v0.contains_key(a) implies #[trigger] variables@[a]@
            == renamed_variables(fs, vs)[a] by {
            assert(vkeys@.contains(a));
            let k = choose|k: int| 0 <= k < vkeys@.len() && vkeys@[k] == a;
            assert(variables@[vkeys@[k]]@ == renamed_variables(fs, vs)[vkeys@[k]]);
        }
        assert(variable_map(variables@) =~= renamed_variables(fs, vs));
    }
}

/// The value of a modified immediate: its low byte, rotated right by twice the
/// number above it.
pub open spec fn spec_expand_imm12(imm12: u32) -> u32 {
    let rot = (imm12 >> 8) & 0xf;
    let val = imm12 & 0xff;
    if rot == 0 {
        val
    } else {
        (val >> (2 * rot) as u32) | (val << (32 - 2 * rot) as u32)
    }
}

/// Expands a modified immediate.
pub fn arm_expand_imm12(imm12: u32) -> (v: u32)
    ensures
        v == spec_expand_imm12(imm12),
{
    let rot: u32 = (imm12 >> 8) & 0xf;
    let val: u32 = imm12 & 0xff;
    assert((imm12 >> 8) & 0xf <= 15) by (bit_vector);
    if rot == 0 {
        val
    } else {
        (val >> (2 * rot)) | (val << (32 - 2 * rot))
    }
}

/// The word at `at`.
pub open spec fn word_at(bytes: Seq<u8>, at: int) -> u32 {
    le_value(bytes, at, 4) as u32
}

/// The slot that an ARM stub jumps through: the stub is `add ip, pc, #a`, then
/// `add ip, ip, #b`, then `ldr pc, [ip, #c]!`, and the program counter reads
/// eight bytes ahead.
pub open spec fn spec_plt_slot(bytes: Seq<u8>, stub_addr: u64) -> Option<u64> {
    let i0 = word_at(bytes, 0);
    let i1 = word_at(bytes, 4);
    let i2 = word_at(bytes, 8);
    if i0 & 0x0fff_f000 != 0x028f_c000 || i1 & 0x0fff_f000 != 0x028c_c000 || i2 & 0x0fff_f000
        != 0x05bc_f000 {
        None
    } else {
        Some(
            stub_addr.wrapping_add(8).wrapping_add(
                spec_expand_imm12(i0 & 0xfff) as u64,
            ).wrapping_add(spec_expand_imm12(i1 & 0xfff) as u64).wrapping_add((i2 & 0xfff) as u64),
        )
    }
}

/// Decodes an ARM stub and returns the slot that it jumps through.
pub fn arm_plt_entry_got_slot(bytes: &[u8], stub_addr: u64) -> (r: Option<u64>)
    requires
        bytes@.len() >= 12,
    ensures
        r == spec_plt_slot(bytes@, stub_addr),
{
    let i0 = read_u32_le(bytes, 0);
    let i1 = read_u32_le(bytes, 4);
    let i2 = read_u32_le(bytes, 8);
    if i0 & 0x0fff_f000 != 0x028f_c000 {
        return None;
    }
    if i1 & 0x0fff_f000 != 0x028c_c000 {
        return None;
    }
    if i2 & 0x0fff_f000 != 0x05bc_f000 {
        return None;
    }
    let a = arm_expand_imm12(i0 & 0xfff);
    let b = arm_expand_imm12(i1 & 0xfff);
    let c: u32 = i2 & 0xfff;
    Some(
        stub_addr.wrapping_add(8).wrapping_add(a as u64).wrapping_add(b as u64).wrapping_add(
            c as u64,
        ),
    )
}

/// With the names of the slots that the relocations from `i` on fill.
pub open spec fn with_slots(m: Map<u64, Seq<char>>, relocs: Seq<DynRelocView>, i: int) -> Map<
    u64,
    Seq<char>,
>
    decreases relocs.len() - i,
{
    if i < 0 || i >= relocs.len() {
        m
    } else {
        with_slots(
            if relocs[i].sym_name.len() > 0 {
                m.insert(relocs[i].r_offset, relocs[i].sym_name)
            } else {
                m
            },
            relocs,
            i + 1,
        )
    }
}

/// With the stubs from `cursor` on that jump through a slot with a name.
pub open spec fn with_stubs(
    m: Map<u64, Seq<char>>,
    slots: Map<u64, Seq<char>>,
    data: Seq<u8>,
    size: u64,
    start: u64,
    cursor: int,
) -> Map<u64, Seq<char>>
    decreases data.len() - cursor,
{
    if cursor < 0 || cursor + ARM_PLT_ENTRY_SIZE > size || cursor + ARM_PLT_ENTRY_SIZE
        > data.len() {
        m
    } else {
        let stub = start.wrapping_add(cursor as u64);
        let slot = spec_plt_slot(data.subrange(cursor, cursor + ARM_PLT_ENTRY_SIZE), stub);
        with_stubs(
            if slot is Some && slots.contains_key(slot->0) {
                m.insert(stub, slots[slot->0])
            } else {
                m
            },
            slots,
            data,
            size,
            start,
            cursor + ARM_PLT_ENTRY_SIZE,
        )
    }
}

/// Sizes of the first entry of a procedure linkage table and of the others.
pub open spec fn plt_layout(arch: Arch) -> (u64, u64) {
    match arch {
        Arch::Aarch64 => (AARCH64_PLT_HEADER_SIZE, AARCH64_PLT_ENTRY_SIZE),
        Arch::Arm => (ARM_PLT_HEADER_SIZE, ARM_PLT_ENTRY_SIZE),
    }
}

/// With the stubs of the relocations from `i` on, taken in order from `stub` on.
pub open spec fn with_indexed(
    m: Map<u64, Seq<char>>,
    relocs: Seq<DynRelocView>,
    stub: u64,
    entry: u64,
    i: int,
) -> Map<u64, Seq<char>>
    decreases relocs.len() - i,
{
    if i < 0 || i >= relocs.len() {
        m
    } else if relocs[i].from_plt_section && relocs[i].sym_name.len() > 0 {
        with_indexed(
            m.insert(stub, relocs[i].sym_name),
            relocs,
            stub.wrapping_add(entry),
            entry,
            i + 1,
        )
    } else {
        with_indexed(m, relocs, stub, entry, i + 1)
    }
}

/// The stubs of the procedure linkage table and the symbols that they stand for.
/// ARM stubs name the slot that they jump through; where none can be decoded, and
/// on AArch64, they are in the order of the relocations.
pub open spec fn plt_map(
    binary: Binary,
    relocs: Seq<DynRelocView>,
    plt_range: Option<Range<u64>>,
) -> Map<u64, Seq<char>> {
    match plt_range {
        None => Map::empty(),
        Some(r) => {
            let decoded = match binary.spec_section_data(".plt"@) {
                Some(data) => with_stubs(
                    Map::empty(),
                    with_slots(Map::empty(), relocs, 0),
                    data,
                    binary.sections@[elf_section(binary.sections@, ".plt"@)->0].size,
                    r.start,
                    ARM_PLT_HEADER_SIZE as int,
                ),
                None => Map::empty(),
            };
            if binary.arch == Arch::Arm && decoded.dom() != Set::<u64>::empty() {
                decoded
            } else {
                with_indexed(
                    Map::empty(),
                    relocs,
                    r.start.wrapping_add(plt_layout(binary.arch).0),
                    plt_layout(binary.arch).1,
                    0,
                )
            }
        },
    }
}

fn slot_names(relocs: &Vec<DynReloc>) -> (m: HashMap<u64, String>)
    ensures
        texts(m@) == with_slots(Map::empty(), dyn_reloc_views(relocs@), 0),
{
    let ghost views = dyn_reloc_views(relocs@);
    let mut m: HashMap<u64, String> = HashMap::new();
    assert(texts(m@) =~= Map::<u64, Seq<char>>::empty());
    let mut i: usize = 0;
    while i < relocs.len()
        invariant
            i <= relocs@.len(),
            views == dyn_reloc_views(relocs@),
            with_slots(Map::empty(), views, 0) == with_slots(texts(m@), views, i as int),
        decreases relocs@.len() - i,
    {
        let r = &relocs[i];
        assert(views[i as int] == r@);
        if r.sym_name.as_str().unicode_len() > 0 {
            let ghost before = m@;
            m.insert(r.r_offset, r.sym_name.clone());
            assert(texts(m@) =~= texts(before).insert(r.r_offset, r.sym_name@));
        }
        i = i + 1;
    }
    m
}

fn decode_stubs(slots: &HashMap<u64, String>, data: &[u8], size: u64, start: u64) -> (m: HashMap<
    u64,
    String,
>)
    ensures
        texts(m@) == with_stubs(
            Map::empty(),
            texts(slots@),
            data@,
            size,
            start,
            ARM_PLT_HEADER_SIZE as int,
        ),
{
    let mut m: HashMap<u64, String> = HashMap::new();
    assert(texts(m@) =~= Map::<u64, Seq<char>>::empty());
    let n: u64 = data.len() as u64;
    let mut cursor: u64 = ARM_PLT_HEADER_SIZE;
    while cursor <= size && ARM_PLT_ENTRY_SIZE <= size - cursor && cursor <= n
        && ARM_PLT_ENTRY_SIZE <= n - cursor
        invariant
            n == data@.len(),
            n <= usize::MAX,
            with_stubs(
                Map::empty(),
                texts(slots@),
                data@,
                size,
                start,
                ARM_PLT_HEADER_SIZE as int,
            ) == with_stubs(texts(m@), texts(slots@), data@, size, start, cursor as int),
        decreases n + ARM_PLT_HEADER_SIZE - cursor,
    {
        let at: usize = cursor as usize;
        let stub: u64 = start.wrapping_add(cursor);
        let entry = vstd::slice::slice_subrange(data, at, at + ARM_PLT_ENTRY_SIZE as usize);
        if let Some(slot) = arm_plt_entry_got_slot(entry, stub) {
            if let Some(name) = slots.get(&slot) {
                let ghost before = m@;
                m.insert(stub, name.clone());
                assert(texts(m@) =~= texts(before).insert(stub, name@));
            }
        }
        cursor = cursor + ARM_PLT_ENTRY_SIZE;
    }
    m
}

fn index_stubs(relocs: &Vec<DynReloc>, first: u64, entry: u64) -> (m: HashMap<u64, String>)
    ensures
        texts(m@) == with_indexed(Map::empty(), dyn_reloc_views(relocs@), first, entry, 0),
{
    let ghost views = dyn_reloc_views(relocs@);
    let mut m: HashMap<u64, String> = HashMap::new();
    assert(texts(m@) =~= Map::<u64, Seq<char>>::empty());
    let mut stub: u64 = first;
    let mut i: usize = 0;
    while i < relocs.len()
        invariant
            i <= relocs@.len(),
            views == dyn_reloc_views(relocs@),
            with_indexed(Map::empty(), views, first, entry, 0) == with_indexed(
                texts(m@),
                views,
                stub,
                entry,
                i as int,
            ),
        decreases relocs@.len() - i,
    {
        let r = &relocs[i];
        assert(views[i as int] == r@);
        if r.from_plt_section && r.sym_name.as_str().unicode_len() > 0 {
            let ghost before = m@;
            m.insert(stub, r.sym_name.clone());
            assert(texts(m@) =~= texts(before).insert(stub, r.sym_name@));
            stub = stub.wrapping_add(entry);
        }
        i = i + 1;
    }
    m
}

fn build_plt_map(binary: &Binary, relocs: &Vec<DynReloc>, plt_range: &Option<Range<u64>>) -> (m:
    HashMap<u64, String>)
    ensures
        texts(m@) == plt_map(*binary, dyn_reloc_views(relocs@), *plt_range),
{
    let r = match plt_range {
        Some(r) => r,
        None => {
            let m: HashMap<u64, String> = HashMap::new();
            assert(texts(m@) =~= Map::<u64, Seq<char>>::empty());
            return m;
        },
    };
    if binary.arch == Arch::Arm {
        let slots = slot_names(relocs);
        if let Some(section) = binary.section(".plt") {
            if let Some(data) = &section.data {
                let m = decode_stubs(&slots, data.as_slice(), section.size, r.start);
                assert(texts(m@).dom() =~= m@.dom());
                if m.len() > 0 {
                    assert(m@.dom() != Set::<u64>::empty());
                    return m;
                }
                assert(m@.dom() =~= Set::<u64>::empty());
            }
        }
    }
    match binary.arch {
        Arch::Aarch64 => index_stubs(
            relocs,
            r.start.wrapping_add(AARCH64_PLT_HEADER_SIZE),
            AARCH64_PLT_ENTRY_SIZE,
        ),
        Arch::Arm => index_stubs(
            relocs,
            r.start.wrapping_add(ARM_PLT_HEADER_SIZE),
            ARM_PLT_ENTRY_SIZE,
        ),
    }
}

/// The relocation that installs an address of the image itself.
pub open spec fn spec_is_relative(arch: Arch, r_type: u32) -> bool {
    match arch {
        Arch::Aarch64 => r_type == R_AARCH64_RELATIVE,
        Arch::Arm => r_type == R_ARM_RELATIVE,
    }
}

fn is_relative_reloc(arch: Arch, r_type: u32) -> (b: bool)
    ensures
        b == spec_is_relative(arch, r_type),
{
    match arch {
        Arch::Aarch64 => r_type == R_AARCH64_RELATIVE,
        Arch::Arm => r_type == R_ARM_RELATIVE,
    }
}

/// With the addresses of the image that the relocations from `i` on install in
/// slots: their addends.
pub open spec fn with_local_slots(
    m: Map<u64, u64>,
    arch: Arch,
    relocs: Seq<DynRelocView>,
    i: int,
) -> Map<u64, u64>
    decreases relocs.len() - i,
{
    if i < 0 || i >= relocs.len() {
        m
    } else {
        with_local_slots(
            if relocs[i].sym_name.len() == 0 && spec_is_relative(arch, relocs[i].r_type) {
                m.insert(relocs[i].r_offset, relocs[i].r_addend as u64)
            } else {
                m
            },
            arch,
            relocs,
            i + 1,
        )
    }
}

fn local_slots(arch: Arch, relocs: &Vec<DynReloc>) -> (m: HashMap<u64, u64>)
    ensures
        m@ == with_local_slots(Map::empty(), arch, dyn_reloc_views(relocs@), 0),
{
    let ghost views = dyn_reloc_views(relocs@);
    let mut m: HashMap<u64, u64> = HashMap::new();
    let mut i: usize = 0;
    while i < relocs.len()
        invariant
            i <= relocs@.len(),
            views == dyn_reloc_views(relocs@),
            with_local_slots(Map::empty(), arch, views, 0) == with_local_slots(
                m@,
                arch,
                views,
                i as int,
            ),
        decreases relocs@.len() - i,
    {
        let r = &relocs[i];
        assert(views[i as int] == r@);
        if r.sym_name.as_str().unicode_len() == 0 && is_relative_reloc(arch, r.r_type) {
            m.insert(r.r_offset, r.r_addend as u64);
        }
        i = i + 1;
    }
    m
}

/// Addresses of the section that `name` stands for. An end beyond the address
/// space wraps.
pub open spec fn section_range(binary: Binary, name: Seq<char>) -> Option<Range<u64>> {
    match elf_section(binary.sections@, name) {
        Some(i) => Some(
            Range {
                start: binary.sections@[i].addr,
                end: binary.sections@[i].addr.wrapping_add(binary.sections@[i].size),
            },
        ),
        None => None,
    }
}

fn find_range(binary: &Binary, name: &str) -> (r: Option<Range<u64>>)
    ensures
        r == section_range(*binary, name@),
{
    match binary.section(name) {
        Some(s) => Some(Range { start: s.addr, end: s.addr.wrapping_add(s.size) }),
        None => None,
    }
}

/// The addresses from the first of both ranges to the last.
pub open spec fn merged(a: Option<Range<u64>>, b: Option<Range<u64>>) -> Option<Range<u64>> {
    match (a, b) {
        (Some(x), Some(y)) => Some(
            Range {
                start: if x.start <= y.start {
                    x.start
                } else {
                    y.start
                },
                end: if x.end >= y.end {
                    x.end
                } else {
                    y.end
                },
            },
        ),
        (Some(x), None) => Some(x),
        (None, _) => b,
    }
}

fn merge_ranges(a: Option<Range<u64>>, b: Option<Range<u64>>) -> (r: Option<Range<u64>>)
    ensures
        r == merged(a, b),
{
    match a {
        Some(x) => match b {
            Some(y) => {
                let start: u64 = if x.start <= y.start {
                    x.start
                } else {
                    y.start
                };
                let end: u64 = if x.end >= y.end {
                    x.end
                } else {
                    y.end
                };
                Some(Range { start, end })
            },
            None => Some(x),
        },
        None => b,
    }
}

/// The function that has `addr` in its body, and where it starts.
pub open spec fn enclosing(functions: Map<u64, FunctionRef>, addr: u64) -> Option<u64> {
    match floor(functions.dom(), addr) {
        Some(start) => if addr < start + functions[start].size {
            Some(start)
        } else {
            None
        },
        None => None,
    }
}

/// True when `n` is the name under which objects know something: the mangled name, where
/// there is one, goes before the source name.
pub open spec fn goes_by(name: String, linkage_name: Option<String>, n: Seq<char>) -> bool {
    &&& linkage_name matches Some(l) ==> n == l@
    &&& linkage_name is None ==> n == name@
}

/// True when `r` is the range of the first section called `name`, or nothing where there
/// is no such section.
pub open spec fn is_range_of(binary: Binary, name: Seq<char>, r: Option<Range<u64>>) -> bool {
    match r {
        Some(x) => exists|k: int| #[trigger]
            is_first_called(binary, name, k) && x.start == binary.sections@[k].addr && x.end == (
            binary.sections@[k].addr + binary.sections@[k].size) % 0x1_0000_0000_0000_0000,
        None => forall|k: int|
            0 <= k < binary.sections@.len() ==> text_of((#[trigger] binary.sections@[k]).name)
                != Some(name),
    }
}

/// True when section `k` is called `name` and none before it is.
pub open spec fn is_first_called(binary: Binary, name: Seq<char>, k: int) -> bool {
    &&& 0 <= k < binary.sections@.len()
    &&& text_of(binary.sections@[k].name) == Some(name)
    &&& forall|j: int| 0 <= j < k ==> text_of((#[trigger] binary.sections@[j]).name) != Some(name)
}

/// True of names that no compressed section stands in for.
pub open spec fn plain(name: Seq<char>) -> bool {
    name.len() >= 3 && (name[1] != 'd' || name[2] != 'e')
}

proof fn lemma_section_called(sections: Seq<ImageSection>, name: Seq<char>, i: int)
    requires
        0 <= i <= sections.len(),
    ensures
        match section_called(sections, name, i) {
            Some(k) => i <= k < sections.len() && text_of(sections[k].name) == Some(name)
                && forall|j: int|
                i <= j < k ==> text_of((#[trigger] sections[j]).name) != Some(name),
            None => forall|j: int|
                i <= j < sections.len() ==> text_of((#[trigger] sections[j]).name) != Some(name),
        },
    decreases sections.len() - i,
{
    if i < sections.len() {
        lemma_section_called(sections, name, i + 1);
    }
}

/// The section that a plain name stands for is the first of that name.
pub proof fn lemma_elf_section(binary: Binary, name: Seq<char>)
    requires
        plain(name),
    ensures
        match elf_section(binary.sections@, name) {
            Some(k) => is_first_called(binary, name, k),
            None => forall|k: int| !#[trigger] is_first_called(binary, name, k),
        },
        forall|j: int, k: int| #[trigger]
            is_first_called(binary, name, j) && #[trigger] is_first_called(binary, name, k) ==> j
                == k,
{
    lemma_section_called(binary.sections@, name, 0);
    reveal_strlit(".debug_");
    if crate::text::has_prefix(name, ".debug_"@) {
        assert(name[1] == name.subrange(0, ".debug_"@.len() as int)[1]);
        assert(name[2] == name.subrange(0, ".debug_"@.len() as int)[2]);
    }
}

proof fn lemma_section_range(binary: Binary, name: Seq<char>)
    ensures
        plain(name) ==> is_range_of(binary, name, section_range(binary, name)),
        plain(name) ==> forall|r: Option<Range<u64>>| #[trigger]
            is_range_of(binary, name, r) ==> r == section_range(binary, name),
{
    let sections = binary.sections@;
    lemma_section_called(sections, name, 0);
    if plain(name) {
        reveal_strlit(".debug_");
        if crate::text::has_prefix(name, ".debug_"@) {
            assert(name[1] == name.subrange(0, ".debug_"@.len() as int)[1]);
            assert(name[2] == name.subrange(0, ".debug_"@.len() as int)[2]);
        }
        assert(elf_section(sections, name) == section_called(sections, name, 0));
        if let Some(k) = section_called(sections, name, 0) {
            assert(is_first_called(binary, name, k));
            assert forall|r: Option<Range<u64>>| #[trigger]
                is_range_of(binary, name, r) implies r == section_range(binary, name) by {
                match r {
                    Some(x) => {
                        let j = choose|j: int| #[trigger]
                            is_first_called(binary, name, j) && x.start
                                == binary.sections@[j].addr && x.end == (binary.sections@[j].addr
                                + binary.sections@[j].size) % 0x1_0000_0000_0000_0000;
                        assert(is_first_called(binary, name, j));
                        assert(j == k);
                    },
                    None => {},
                }
            }
        }
    }
}

impl GlobalSymbols {
    /// The tables of an image with these functions and data, whose names are made
    /// unique first.
    pub open spec fn is_built(
        &self,
        binary: Binary,
        fs: Map<u64, FunctionRefView>,
        vs: Map<u64, VariableRefView>,
        relocs: Seq<DynRelocView>,
    ) -> bool {
        &&& function_map(self.functions@) == renamed_functions(fs, vs)
        &&& variable_map(self.variables@) == renamed_variables(fs, vs)
        &&& texts(self.plt@) == plt_map(binary, relocs, section_range(binary, ".plt"@))
        &&& texts(self.got@) == with_slots(Map::empty(), relocs, 0)
        &&& self.got_local@ == with_local_slots(Map::empty(), binary.arch, relocs, 0)
        &&& self.plt_range == section_range(binary, ".plt"@)
        &&& self.got_range == merged(
            section_range(binary, ".got"@),
            section_range(binary, ".got.plt"@),
        )
        &&& self.text_range == (match section_range(binary, ".text"@) {
            Some(r) => r,
            None => Range { start: 0u64, end: 0u64 },
        })
        &&& self.rodata_range == section_range(binary, ".rodata"@)
        &&& self.data_range == section_range(binary, ".data"@)
        &&& self.data_rel_ro_range == section_range(binary, ".data.rel.ro"@)
        &&& self.data_rel_ro_local_range == section_range(binary, ".data.rel.ro.local"@)
        &&& self.bss_range == section_range(binary, ".bss"@)
        &&& self.arch == binary.arch
    }

    /// The functions and data of the units, each under its address, before names
    /// are made unique.
    pub fn maps_from_cus(cus: &CuIndex) -> (r: (
        BTreeMap<u64, FunctionRef>,
        BTreeMap<u64, VariableRef>,
    ))
        ensures
            function_map(r.0@) == unit_functions(Map::empty(), unit_views(cus.units@), 0),
            variable_map(r.1@) == unit_variables(Map::empty(), unit_views(cus.units@), 0),
    {
        let ghost units = unit_views(cus.units@);
        let mut functions: BTreeMap<u64, FunctionRef> = BTreeMap::new();
        let mut variables: BTreeMap<u64, VariableRef> = BTreeMap::new();
        assert(function_map(functions@) =~= Map::<u64, FunctionRefView>::empty());
        assert(variable_map(variables@) =~= Map::<u64, VariableRefView>::empty());
        let mut i: usize = 0;
        while i < cus.units.len()
            invariant
                i <= cus.units@.len(),
                units == unit_views(cus.units@),
                unit_functions(Map::empty(), units, 0) == unit_functions(
                    function_map(functions@),
                    units,
                    i as int,
                ),
                unit_variables(Map::empty(), units, 0) == unit_variables(
                    variable_map(variables@),
                    units,
                    i as int,
                ),
            decreases cus.units@.len() - i,
        {
            assert(units[i as int] == cus.units@[i as int]@);
            add_functions(&mut functions, &cus.units[i]);
            add_variables(&mut variables, &cus.units[i]);
            i = i + 1;
        }
        (functions, variables)
    }

    /// Builds the tables of an image from its functions and data.
    pub fn build_from_maps(
        binary: &Binary,
        functions: BTreeMap<u64, FunctionRef>,
        variables: BTreeMap<u64, VariableRef>,
    ) -> (r: Result<GlobalSymbols, ElfError>)
        ensures
            match r {
                Ok(g) => spec_all_dyn_relocs(*binary) is Some && g.is_built(
                    *binary,
                    function_map(functions@),
                    variable_map(variables@),
                    spec_all_dyn_relocs(*binary)->0,
                ),
                Err(e) => spec_all_dyn_relocs(*binary) is None && e == ElfError::UnreadableSection,
            },
    {
        let mut functions = functions;
        let mut variables = variables;
        disambiguate_names(&mut functions, &mut variables);
        let plt_range = find_range(binary, ".plt");
        let got_range = merge_ranges(find_range(binary, ".got"), find_range(binary, ".got.plt"));
        let text_range = match find_range(binary, ".text") {
            Some(r) => r,
            None => Range { start: 0u64, end: 0u64 },
        };
        let relocs = match read_all_dyn_relocs(binary) {
            Ok(r) => r,
            Err(e) => return Err(e),
        };
        let plt = build_plt_map(binary, &relocs, &plt_range);
        let got = slot_names(&relocs);
        let got_local = local_slots(binary.arch, &relocs);
        Ok(
            GlobalSymbols {
                functions,
                variables,
                plt,
                got,
                got_local,
                plt_range,
                got_range,
                text_range,
                rodata_range: find_range(binary, ".rodata"),
                data_range: find_range(binary, ".data"),
                data_rel_ro_range: find_range(binary, ".data.rel.ro"),
                data_rel_ro_local_range: find_range(binary, ".data.rel.ro.local"),
                bss_range: find_range(binary, ".bss"),
                arch: binary.arch,
            },
        )
    }

    /// Builds the tables of an image from its compilation units.
    pub fn build(binary: &Binary, cus: &CuIndex) -> (r: Result<GlobalSymbols, ElfError>)
        ensures
            match r {
                Ok(g) => spec_all_dyn_relocs(*binary) is Some && g.is_built(
                    *binary,
                    unit_functions(Map::empty(), unit_views(cus.units@), 0),
                    unit_variables(Map::empty(), unit_views(cus.units@), 0),
                    spec_all_dyn_relocs(*binary)->0,
                ),
                Err(e) => spec_all_dyn_relocs(*binary) is None && e == ElfError::UnreadableSection,
            },
    {
        let (functions, variables) = GlobalSymbols::maps_from_cus(cus);
        GlobalSymbols::build_from_maps(binary, functions, variables)
    }

    /// What a branch to `target` goes to: the function that starts there, or the
    /// symbol of a stub there.
    pub fn resolve(&self, target: u64) -> (r: ResolvedTarget<'_>)
        ensures
            match r {
                ResolvedTarget::Internal(f) => self.functions@.contains_key(target) && *f
                    == self.functions@[target],
                ResolvedTarget::ExternalPlt(name) => !self.functions@.contains_key(target)
                    && range_contains(self.plt_range, target) && self.plt@.contains_key(target)
                    && name@ == self.plt@[target]@,
                ResolvedTarget::Unknown => !self.functions@.contains_key(target) && !(range_contains(
                    self.plt_range,
                    target,
                ) && self.plt@.contains_key(target)),
            },
    {
        if let Some(f) = self.functions.get(&target) {
            return ResolvedTarget::Internal(f);
        }
        if contains(&self.plt_range, target) {
            if let Some(name) = self.plt.get(&target) {
                return ResolvedTarget::ExternalPlt(name.as_str());
            }
        }
        ResolvedTarget::Unknown
    }

    /// The function that has `target` in its body, and the offset in it.
    pub fn resolve_into(&self, target: u64) -> (r: Option<(&FunctionRef, u64)>)
        ensures
            match enclosing(self.functions@, target) {
                Some(start) => start <= target && r == Some(
                    (&self.functions@[start], (target - start) as u64),
                ),
                None => r is None,
            },
    {
        match floor_entry(&self.functions, target) {
            Some((start, f)) => if target - start < f.size {
                Some((f, target - start))
            } else {
                None
            },
            None => None,
        }
    }

    /// What a pointer to `addr` refers to: a datum, a function, a place inside
    /// one, a slot of the global offset table, or else an offset into a section.
    pub open spec fn spec_resolve_data(&self, addr: u64) -> Option<DataResolutionView> {
        if self.variables@.contains_key(addr) {
            Some(
                DataResolutionView {
                    symbol: self.variables@[addr]@.export_name(),
                    addend: 0,
                    source: DataSource::Variable,
                },
            )
        } else if self.functions@.contains_key(addr) {
            Some(
                DataResolutionView {
                    symbol: self.functions@[addr]@.export_name(),
                    addend: 0,
                    source: DataSource::Function,
                },
            )
        } else if enclosing(self.functions@, addr) is Some {
            let start = enclosing(self.functions@, addr)->0;
            Some(
                DataResolutionView {
                    symbol: self.functions@[start]@.export_name(),
                    addend: (addr - start) as i64,
                    source: DataSource::Function,
                },
            )
        } else if self.got@.contains_key(addr) {
            Some(
                DataResolutionView {
                    symbol: self.got@[addr]@,
                    addend: 0,
                    source: DataSource::GotSlot,
                },
            )
        } else {
            self.spec_section_relative(addr)
        }
    }

    /// The offset of `addr` into the data section that holds it.
    pub open spec fn spec_section_relative(&self, addr: u64) -> Option<DataResolutionView> {
        if range_contains(self.rodata_range, addr) {
            Some(section_resolution(SYM_RODATA_START@, range_offset(self.rodata_range, addr)))
        } else if range_contains(self.data_range, addr) {
            Some(section_resolution(SYM_DATA_START@, range_offset(self.data_range, addr)))
        } else if range_contains(self.bss_range, addr) {
            Some(section_resolution(SYM_BSS_START@, range_offset(self.bss_range, addr)))
        } else if range_contains(self.data_rel_ro_range, addr) {
            Some(
                section_resolution(
                    SYM_DATA_REL_RO_START@,
                    range_offset(self.data_rel_ro_range, addr),
                ),
            )
        } else if range_contains(self.data_rel_ro_local_range, addr) {
            Some(
                section_resolution(
                    SYM_DATA_REL_RO_LOCAL_START@,
                    range_offset(self.data_rel_ro_local_range, addr),
                ),
            )
        } else {
            None
        }
    }

    /// Resolves an address of code or data.
    pub fn resolve_data(&self, addr: u64) -> (r: Option<DataResolution>)
        ensures
            resolution_of(r) == self.spec_resolve_data(addr),
    {
        if let Some(v) = self.variables.get(&addr) {
            return Some(
                DataResolution {
                    symbol: owned(v.export_name()),
                    addend: 0,
                    source: DataSource::Variable,
                },
            );
        }
        if let Some(f) = self.functions.get(&addr) {
            return Some(
                DataResolution {
                    symbol: owned(f.export_name()),
                    addend: 0,
                    source: DataSource::Function,
                },
            );
        }
        if let Some((f, offset)) = self.resolve_into(addr) {
            return Some(
                DataResolution {
                    symbol: owned(f.export_name()),
                    addend: offset as i64,
                    source: DataSource::Function,
                },
            );
        }
        if let Some(name) = self.got.get(&addr) {
            return Some(
                DataResolution { symbol: name.clone(), addend: 0, source: DataSource::GotSlot },
            );
        }
        self.section_relative(addr)
    }

    /// What the slot of the global offset table at `slot_addr` holds: a symbol,
    /// or an address of the image.
    pub open spec fn spec_resolve_got_slot(&self, slot_addr: u64) -> Option<DataResolutionView> {
        if self.got@.contains_key(slot_addr) {
            Some(
                DataResolutionView {
                    symbol: self.got@[slot_addr]@,
                    addend: 0,
                    source: DataSource::GotSlot,
                },
            )
        } else if self.got_local@.contains_key(slot_addr) {
            self.spec_resolve_data(self.got_local@[slot_addr])
        } else {
            None
        }
    }

    /// Resolves what a slot of the global offset table holds.
    pub fn resolve_got_slot(&self, slot_addr: u64) -> (r: Option<DataResolution>)
        ensures
            resolution_of(r) == self.spec_resolve_got_slot(slot_addr),
    {
        if let Some(name) = self.got.get(&slot_addr) {
            return Some(
                DataResolution { symbol: name.clone(), addend: 0, source: DataSource::GotSlot },
            );
        }
        match self.got_local.get(&slot_addr) {
            Some(target) => self.resolve_data(*target),
            None => None,
        }
    }

    fn section_relative(&self, addr: u64) -> (r: Option<DataResolution>)
        ensures
            resolution_of(r) == self.spec_section_relative(addr),
    {
        if let Some(r) = offset_into(&self.rodata_range, addr, SYM_RODATA_START) {
            return Some(r);
        }
        if let Some(r) = offset_into(&self.data_range, addr, SYM_DATA_START) {
            return Some(r);
        }
        if let Some(r) = offset_into(&self.bss_range, addr, SYM_BSS_START) {
            return Some(r);
        }
        if let Some(r) = offset_into(&self.data_rel_ro_range, addr, SYM_DATA_REL_RO_START) {
            return Some(r);
        }
        offset_into(&self.data_rel_ro_local_range, addr, SYM_DATA_REL_RO_LOCAL_START)
    }

    /// Tests whether `addr` lies in the global offset table.
    pub fn in_got(&self, addr: u64) -> (b: bool)
        ensures
            b == range_contains(self.got_range, addr),
    {
        contains(&self.got_range, addr)
    }

    /// Tests whether `addr` lies in the procedure linkage table.
    pub fn in_plt(&self, addr: u64) -> (b: bool)
        ensures
            b == range_contains(self.plt_range, addr),
    {
        contains(&self.plt_range, addr)
    }

    /// The name of the section that holds `addr`, or `?`.
    pub open spec fn spec_classify_section(&self, addr: u64) -> Seq<char> {
        if range_contains(Some(self.text_range), addr) {
            ".text"@
        } else if range_contains(self.plt_range, addr) {
            ".plt"@
        } else if range_contains(self.got_range, addr) {
            ".got"@
        } else if range_contains(self.rodata_range, addr) {
            ".rodata"@
        } else if range_contains(self.data_rel_ro_local_range, addr) {
            ".data.rel.ro.local"@
        } else if range_contains(self.data_rel_ro_range, addr) {
            ".data.rel.ro"@
        } else if range_contains(self.data_range, addr) {
            ".data"@
        } else if range_contains(self.bss_range, addr) {
            ".bss"@
        } else {
            "?"@
        }
    }

    /// Names the section that holds `addr`.
    pub fn classify_section(&self, addr: u64) -> (s: &'static str)
        ensures
            s@ == self.spec_classify_section(addr),
    {
        if self.text_range.start <= addr && addr < self.text_range.end {
            ".text"
        } else if contains(&self.plt_range, addr) {
            ".plt"
        } else if contains(&self.got_range, addr) {
            ".got"
        } else if contains(&self.rodata_range, addr) {
            ".rodata"
        } else if contains(&self.data_rel_ro_local_range, addr) {
            ".data.rel.ro.local"
        } else if contains(&self.data_rel_ro_range, addr) {
            ".data.rel.ro"
        } else if contains(&self.data_range, addr) {
            ".data"
        } else if contains(&self.bss_range, addr) {
            ".bss"
        } else {
            "?"
        }
    }

    /// True when `name` is the symbol at the start of the data section that holds `va`, and
    /// the section begins at `a`.
    pub open spec fn starts_section(&self, name: Seq<char>, a: u64, va: u64) -> bool {
        ||| name == "__delink_rodata_start"@ && begins_at(self.rodata_range, a, va)
        ||| name == "__delink_data_start"@ && begins_at(self.data_range, a, va)
        ||| name == "__delink_bss_start"@ && begins_at(self.bss_range, a, va)
        ||| name == "__delink_data_rel_ro_start"@ && begins_at(self.data_rel_ro_range, a, va)
        ||| name == "__delink_data_rel_ro_local_start"@ && begins_at(self.data_rel_ro_local_range, a, va)
    }

    /// True when the function that starts at `a` is the one that holds `va`.
    pub open spec fn function_covers(&self, a: u64, va: u64) -> bool {
        covers(self.functions@.dom(), a, self.functions@[a].size as int, va)
    }

    /// True when objects know the function at `a` as `name`.
    pub open spec fn function_goes_by(&self, a: u64, name: Seq<char>) -> bool {
        goes_by(self.functions@[a].name, self.functions@[a].linkage_name, name)
    }

    /// True when a pointer to `va` has to refer to `name` and `addend`: the symbol's
    /// address and the addend together are `va`. A datum at `va` goes first, then the
    /// function that holds it, then a slot of the global offset table, which goes by the
    /// symbol that it holds, then the start of the section.
    pub open spec fn stands_for(&self, r: DataResolutionView, va: u64) -> bool {
        if self.variables@.contains_key(va) {
            &&& r.source == DataSource::Variable
            &&& r.addend == 0
            &&& goes_by(self.variables@[va].name, self.variables@[va].linkage_name, r.symbol)
        } else if exists|a: u64| #[trigger] self.function_covers(a, va) {
            &&& r.source == DataSource::Function
            &&& exists|a: u64| #[trigger]
                self.function_covers(a, va) && self.function_goes_by(a, r.symbol) && reaches(
                    a,
                    r.addend as int,
                    va,
                )
        } else if self.got@.contains_key(va) {
            r.source == DataSource::GotSlot && r.addend == 0 && r.symbol == self.got@[va]@
        } else {
            &&& r.source == DataSource::SectionRelative
            &&& exists|a: u64| #[trigger]
                self.starts_section(r.symbol, a, va) && reaches(a, r.addend as int, va)
        }
    }

    /// True when the slot of the global offset table at `slot` holds the address of `r`: of
    /// the symbol that the dynamic linker puts there, or of what the address in the image
    /// that the slot holds stands for.
    pub open spec fn slot_holds(&self, r: DataResolutionView, slot: u64) -> bool {
        if self.got@.contains_key(slot) {
            r.source == DataSource::GotSlot && r.addend == 0 && r.symbol == self.got@[slot]@
        } else {
            self.got_local@.contains_key(slot) && self.stands_for(r, self.got_local@[slot])
        }
    }

    /// What covers an address is the function that encloses it.
    pub proof fn lemma_enclosing(&self, va: u64)
        ensures
            match enclosing(self.functions@, va) {
                Some(a) => self.function_covers(a, va) && a <= va,
                None => !self.functions@.contains_key(va) ==> forall|a: u64|
                    !#[trigger] self.function_covers(a, va),
            },
            self.functions@.contains_key(va) ==> self.function_covers(va, va),
            forall|a: u64| #[trigger]
                self.function_covers(a, va) && self.functions@.contains_key(va) ==> a == va,
    {
        let starts = self.functions@.dom();
        lemma_covers(starts, va);
    }

    proof fn lemma_section_relative(&self, va: u64)
        ensures
            match self.spec_section_relative(va) {
                Some(r) => r.source == DataSource::SectionRelative && exists|a: u64| #[trigger]
                    self.starts_section(r.symbol, a, va) && reaches(a, r.addend as int, va),
                None => forall|name: Seq<char>, a: u64|
                    !#[trigger] self.starts_section(name, a, va),
            },
    {
        if range_contains(self.rodata_range, va) {
            let a = self.rodata_range->0.start;
            lemma_reaches(a, va);
            assert(self.starts_section(SYM_RODATA_START@, a, va));
            assert(reaches(a, range_offset(self.rodata_range, va) as int, va));
            assert(self.spec_section_relative(va)->0.symbol == SYM_RODATA_START@);
            assert(self.spec_section_relative(va)->0.addend == range_offset(self.rodata_range, va));
            assert(self.starts_section(self.spec_section_relative(va)->0.symbol, a, va));
        } else if range_contains(self.data_range, va) {
            let a = self.data_range->0.start;
            lemma_reaches(a, va);
            assert(self.starts_section(SYM_DATA_START@, a, va));
            assert(reaches(a, range_offset(self.data_range, va) as int, va));
            assert(self.spec_section_relative(va)->0.symbol == SYM_DATA_START@);
            assert(self.spec_section_relative(va)->0.addend == range_offset(self.data_range, va));
            assert(self.starts_section(self.spec_section_relative(va)->0.symbol, a, va));
        } else if range_contains(self.bss_range, va) {
            let a = self.bss_range->0.start;
            lemma_reaches(a, va);
            assert(self.starts_section(SYM_BSS_START@, a, va));
            assert(reaches(a, range_offset(self.bss_range, va) as int, va));
            assert(self.spec_section_relative(va)->0.symbol == SYM_BSS_START@);
            assert(self.spec_section_relative(va)->0.addend == range_offset(self.bss_range, va));
            assert(self.starts_section(self.spec_section_relative(va)->0.symbol, a, va));
        } else if range_contains(self.data_rel_ro_range, va) {
            let a = self.data_rel_ro_range->0.start;
            lemma_reaches(a, va);
            assert(self.starts_section(SYM_DATA_REL_RO_START@, a, va));
            assert(reaches(a, range_offset(self.data_rel_ro_range, va) as int, va));
            assert(self.spec_section_relative(va)->0.symbol == SYM_DATA_REL_RO_START@);
            assert(self.spec_section_relative(va)->0.addend == range_offset(self.data_rel_ro_range, va));
            assert(self.starts_section(self.spec_section_relative(va)->0.symbol, a, va));
        } else if range_contains(self.data_rel_ro_local_range, va) {
            let a = self.data_rel_ro_local_range->0.start;
            lemma_reaches(a, va);
            assert(self.starts_section(SYM_DATA_REL_RO_LOCAL_START@, a, va));
            assert(reaches(a, range_offset(self.data_rel_ro_local_range, va) as int, va));
            assert(self.spec_section_relative(va)->0.symbol == SYM_DATA_REL_RO_LOCAL_START@);
            assert(self.spec_section_relative(va)->0.addend == range_offset(self.data_rel_ro_local_range, va));
            assert(self.starts_section(self.spec_section_relative(va)->0.symbol, a, va));
        }
    }

    /// What a pointer resolves to denotes the address that it holds, and a pointer that does
    /// not resolve has nothing to refer to.
    #[verifier::rlimit(40)]
    pub proof fn law_pointers_denote_their_address(&self, va: u64)
        ensures
            match self.spec_resolve_data(va) {
                Some(r) => self.stands_for(r, va),
                None => forall|r: DataResolutionView| !#[trigger] self.stands_for(r, va),
            },
    {
        self.lemma_enclosing(va);
        if let Some(a) = enclosing(self.functions@, va) {
            lemma_reaches(a, va);
            assert(self.function_goes_by(a, self.functions@[a]@.export_name()));
        }
        if self.functions@.contains_key(va) {
            assert(self.function_goes_by(va, self.functions@[va]@.export_name()));
            assert(reaches(va, 0, va));
        }
        self.lemma_section_relative(va);
    }

    /// What a slot of the global offset table resolves to is what it holds, and a slot that
    /// does not resolve holds nothing known.
    pub proof fn law_slots_denote_what_they_hold(&self, slot: u64)
        ensures
            match self.spec_resolve_got_slot(slot) {
                Some(r) => self.slot_holds(r, slot),
                None => forall|r: DataResolutionView| !#[trigger] self.slot_holds(r, slot),
            },
    {
        if self.got_local@.contains_key(slot) {
            self.law_pointers_denote_their_address(self.got_local@[slot]);
        }
    }

    /// The ranges of the tables of an image are those of the sections after which they are
    /// called, and the global offset table holds both of its sections.
    pub proof fn law_ranges_are_those_of_the_sections(
        &self,
        binary: Binary,
        fs: Map<u64, FunctionRefView>,
        vs: Map<u64, VariableRefView>,
        relocs: Seq<DynRelocView>,
    )
        requires
            self.is_built(binary, fs, vs, relocs),
        ensures
            is_range_of(binary, ".plt"@, self.plt_range),
            is_range_of(binary, ".rodata"@, self.rodata_range),
            is_range_of(binary, ".data"@, self.data_range),
            is_range_of(binary, ".data.rel.ro"@, self.data_rel_ro_range),
            is_range_of(binary, ".data.rel.ro.local"@, self.data_rel_ro_local_range),
            is_range_of(binary, ".bss"@, self.bss_range),
            forall|r: Option<Range<u64>>, va: u64| #[trigger]
                range_contains(r, va) && (is_range_of(binary, ".got"@, r) || is_range_of(
                    binary,
                    ".got.plt"@,
                    r,
                )) ==> range_contains(self.got_range, va),
    {
        lemma_section_range(binary, ".plt"@);
        lemma_section_range(binary, ".rodata"@);
        lemma_section_range(binary, ".data"@);
        lemma_section_range(binary, ".data.rel.ro"@);
        lemma_section_range(binary, ".data.rel.ro.local"@);
        lemma_section_range(binary, ".bss"@);
        lemma_section_range(binary, ".got"@);
        lemma_section_range(binary, ".got.plt"@);
        assert(plain(".plt"@) && plain(".rodata"@) && plain(".data"@) && plain(".data.rel.ro"@)
            && plain(".data.rel.ro.local"@) && plain(".bss"@) && plain(".got"@) && plain(
            ".got.plt"@,
        )) by {
            reveal_strlit(".plt");
            reveal_strlit(".rodata");
            reveal_strlit(".data");
            reveal_strlit(".data.rel.ro");
            reveal_strlit(".data.rel.ro.local");
            reveal_strlit(".bss");
            reveal_strlit(".got");
            reveal_strlit(".got.plt");
            reveal_strlit(".debug_");
        }
    }

    /// A function that takes up space encloses its own start, and what a branch
    /// to its start goes to is what a pointer there refers to, unless a datum has
    /// that address.
    pub proof fn law_start_resolves_to_itself(&self, addr: u64)
        requires
            self.functions@.contains_key(addr),
            self.functions@[addr].size > 0,
        ensures
            enclosing(self.functions@, addr) == Some(addr),
            !self.variables@.contains_key(addr) ==> self.spec_resolve_data(addr) == Some(
                DataResolutionView {
                    symbol: self.functions@[addr]@.export_name(),
                    addend: 0,
                    source: DataSource::Function,
                },
            ),
    {
        assert(crate::ordered::is_floor(self.functions@.dom(), addr, addr));
        crate::ordered::lemma_floor_is(self.functions@.dom(), addr, addr);
    }
}

/// An offset from the start of a section.
pub open spec fn section_resolution(symbol: Seq<char>, addend: i64) -> DataResolutionView {
    DataResolutionView { symbol, addend, source: DataSource::SectionRelative }
}

fn offset_into(range: &Option<Range<u64>>, addr: u64, name: &str) -> (r: Option<DataResolution>)
    ensures
        match r {
            Some(d) => range_contains(*range, addr) && d@ == section_resolution(
                name@,
                range_offset(*range, addr),
            ),
            None => !range_contains(*range, addr),
        },
{
    match offset_in(range, addr, name) {
        Some((symbol, addend)) => Some(
            DataResolution { symbol, addend, source: DataSource::SectionRelative },
        ),
        None => None,
    }
}

} // verus!
