//! The grouping of the functions of a database into objects: output file name to
//! the symbols that go into it, each with its address, size and linkage.
use vstd::prelude::*;

use crate::naming::{
    ended, is_plain, keys_fit, lemma_ended, lemma_one_more, lemma_stem_is_plain, one_each,
    own_name, own_names,
};
use crate::table::NamedTable;
use crate::text::{hex, joined, spec_symbol_file, symbol_file};

verus! {

/// Linkage of a symbol.
#[derive(Debug, Clone, Copy, PartialEq, Eq, Structural)]
pub enum Scope {
    /// External linkage (visible everywhere).
    Global,
    /// Internal linkage (local to the file).
    Static,
}

impl Scope {
    /// The linkage of a symbol that is public or not.
    pub open spec fn spec_from_public(public: bool) -> Scope {
        if public {
            Scope::Global
        } else {
            Scope::Static
        }
    }

    /// The linkage of a symbol that is public or not.
    pub fn from_public(public: bool) -> (s: Self)
        ensures
            s == Scope::spec_from_public(public),
    {
        if public {
            Scope::Global
        } else {
            Scope::Static
        }
    }

    /// Tests for external linkage.
    pub fn is_global(self) -> (b: bool)
        ensures
            b == (self == Scope::Global),
            b == (self == Scope::spec_from_public(true)),
    {
        matches!(self, Scope::Global)
    }
}

/// What a symbol of an output object stands for.
#[derive(Debug, Clone, Copy, PartialEq, Eq, Structural)]
pub struct SymbolDef {
    /// Virtual address.
    pub address: u64,
    /// Size in bytes of the function or datum.
    pub size: u64,
    pub scope: Scope,
}

/// A function of the database.
#[derive(Debug)]
pub struct IdaFunction {
    pub name: String,
    pub start: u64,
    pub size: u64,
    /// Visible to other files.
    pub public: bool,
}

/// What the database knows of an image.
#[derive(Debug)]
pub struct IdaModel {
    pub functions: Vec<IdaFunction>,
}

/// Output file name to the symbols that go into it.
pub type IdaproJson = NamedTable<NamedTable<SymbolDef>>;

/// A grouping as a map from file names to maps from symbol names.
pub open spec fn groups(json: IdaproJson) -> Map<Seq<char>, Map<Seq<char>, SymbolDef>> {
    json@.map_values(|t: NamedTable<SymbolDef>| t@)
}

/// Every table of a grouping is well formed.
pub open spec fn groups_wf(json: IdaproJson) -> bool {
    &&& json.wf()
    &&& forall|i: int| 0 <= i < json.entries@.len() ==> (#[trigger] json.entries@[i]).1.wf()
}

/// What a function stands for.
pub open spec fn definition(f: IdaFunction) -> SymbolDef {
    SymbolDef { address: f.start, size: f.size, scope: Scope::spec_from_public(f.public) }
}

/// Stems and numbers of the functions, among the first `n`, that take up space.
pub open spec fn sized_keys(functions: Seq<IdaFunction>, n: int) -> Seq<(Seq<char>, u64)>
    decreases n,
{
    if n <= 0 {
        Seq::empty()
    } else if functions[n - 1].size == 0 {
        sized_keys(functions, n - 1)
    } else {
        sized_keys(functions, n - 1).push(
            (spec_symbol_file(functions[n - 1].name@), (n - 1) as u64),
        )
    }
}

/// The symbols of the functions, among the first `n`, that take up space, each by
/// itself.
pub open spec fn single_symbols(functions: Seq<IdaFunction>, n: int) -> Seq<
    Map<Seq<char>, SymbolDef>,
>
    decreases n,
{
    if n <= 0 {
        Seq::empty()
    } else if functions[n - 1].size == 0 {
        single_symbols(functions, n - 1)
    } else {
        let f = functions[n - 1];
        single_symbols(functions, n - 1).push(map![f.name@ => definition(f)])
    }
}

/// The default files of functions, with the extension `ext`. A function whose file
/// another one has gets its number into the name of its own.
pub open spec fn default_files(functions: Seq<IdaFunction>, ext: Seq<char>) -> Seq<Seq<char>> {
    ended(own_names(sized_keys(functions, functions.len() as int)), "."@ + ext)
}

proof fn lemma_sized_keys(functions: Seq<IdaFunction>, n: int)
    requires
        0 <= n <= functions.len() <= u64::MAX,
    ensures
        keys_fit(sized_keys(functions, n)),
        forall|i: int|
            0 <= i < sized_keys(functions, n).len() ==> (#[trigger] sized_keys(functions, n)[i]).1
                < n,
    decreases n,
{
    if n > 0 {
        lemma_sized_keys(functions, n - 1);
        lemma_stem_is_plain(functions[n - 1].name@);
        let keys = sized_keys(functions, n);
        let before = sized_keys(functions, n - 1);
        assert forall|i: int| 0 <= i < keys.len() implies is_plain((#[trigger] keys[i]).0)
            && keys[i].1 < n by {
            if i < before.len() {
                assert(keys[i] == before[i]);
            }
        }
        assert forall|i: int, j: int| 0 <= i < j < keys.len() implies (#[trigger] keys[i]).1 != (
        #[trigger] keys[j]).1 by {
            assert(keys[i] == before[i]);
            if j < before.len() {
                assert(keys[j] == before[j]);
            }
        }
    }
}

fn single_table(name: String, def: SymbolDef) -> (t: NamedTable<SymbolDef>)
    ensures
        t.wf(),
        t@ == map![name@ => def],
{
    let mut t: NamedTable<SymbolDef> = NamedTable::new();
    let ghost key = name@;
    t.set(name, def);
    assert(t@ =~= map![key => def]);
    t
}

/// Groups the functions of a database by default: a file for each function that takes
/// up space, with the extension `ext`, and in it that function alone.
pub fn generate(model: &IdaModel, ext: &str) -> (json: IdaproJson)
    ensures
        groups_wf(json),
        one_each(
            groups(json),
            default_files(model.functions@, ext@),
            single_symbols(model.functions@, model.functions@.len() as int),
        ),
        forall|file: Seq<char>| #[trigger]
            groups(json).contains_key(file) ==> exists|name: Seq<char>, def: SymbolDef|
                groups(json)[file] == map![name => def],
{
    let ghost functions = model.functions@;
    let end = joined(".", ext);
    let mut json: IdaproJson = NamedTable::new();
    assert(groups(json) =~= Map::empty());
    let mut i: usize = 0;
    while i < model.functions.len()
        invariant
            i <= model.functions@.len(),
            functions == model.functions@,
            end@ == "."@ + ext@,
            groups_wf(json),
            one_each(
                groups(json),
                ended(own_names(sized_keys(functions, i as int)), end@),
                single_symbols(functions, i as int),
            ),
        decreases model.functions@.len() - i,
    {
        let f = &model.functions[i];
        if f.size != 0 {
            let ghost keys = sized_keys(functions, i + 1);
            let ghost names = own_names(sized_keys(functions, i as int));
            let ghost before = json;
            proof {
                assert(model.functions@.len() == model.functions.len());
                lemma_sized_keys(functions, i + 1);
                assert(keys.drop_last() =~= sized_keys(functions, i as int));
                lemma_ended(names, end@);
            }
            let stem = symbol_file(f.name.as_str());
            let mut file = joined(stem.as_str(), end.as_str());
            let taken = json.position(file.as_str()).is_some();
            proof {
                assert(groups(json).contains_key(stem@ + end@) <==> json@.contains_key(
                    stem@ + end@,
                ));
                assert(taken <==> names.contains(stem@));
            }
            if taken {
                let mut name = stem;
                name.push('@');
                let name = joined(name.as_str(), hex(i as u64).as_str());
                file = joined(name.as_str(), end.as_str());
            }
            assert(file@ == own_name(names, spec_symbol_file(f.name@), i as u64) + end@);
            let def = SymbolDef {
                address: f.start,
                size: f.size,
                scope: Scope::from_public(f.public),
            };
            let ghost key = file@;
            let table = single_table(f.name.clone(), def);
            let ghost symbols = table@;
            json.set(file, table);
            proof {
                assert(groups(json) =~= groups(before).insert(key, symbols));
                lemma_one_more(
                    groups(before),
                    keys,
                    end@,
                    single_symbols(functions, i as int),
                    symbols,
                );
                assert forall|k: int| 0 <= k < json.entries@.len() implies (
                #[trigger] json.entries@[k]).1.wf() by {
                    if before.entries@.contains(json.entries@[k]) {
                        let j = choose|j: int|
                            0 <= j < before.entries@.len() && before.entries@[j]
                                == json.entries@[k];
                        assert(before.entries@[j].1.wf());
                    }
                }
            }
        }
        i = i + 1;
    }
    proof {
        let files = default_files(functions, ext@);
        let n = functions.len() as int;
        assert forall|file: Seq<char>| #[trigger] groups(json).contains_key(
            file,
        ) implies exists|name: Seq<char>, def: SymbolDef|
            groups(json)[file] == map![name => def] by {
            assert(files.contains(file));
            let k = choose|k: int| 0 <= k < files.len() && files[k] == file;
            assert(groups(json)[files[k]] == single_symbols(functions, n)[k]);
            lemma_single_symbols(functions, n, k);
        }
    }
    json
}

proof fn lemma_single_symbols(functions: Seq<IdaFunction>, n: int, k: int)
    requires
        0 <= n <= functions.len(),
        0 <= k < single_symbols(functions, n).len(),
    ensures
        exists|name: Seq<char>, def: SymbolDef|
            single_symbols(functions, n)[k] == map![name => def],
    decreases n,
{
    if n > 0 {
        let before = single_symbols(functions, n - 1);
        if k < before.len() {
            lemma_single_symbols(functions, n - 1, k);
            assert(single_symbols(functions, n)[k] == before[k]);
        } else {
            let f = functions[n - 1];
            assert(single_symbols(functions, n)[k] == map![f.name@ => definition(f)]);
        }
    }
}

proof fn lemma_single_count(functions: Seq<IdaFunction>, n: int)
    ensures
        single_symbols(functions, n).len() == sized_keys(functions, n).len(),
    decreases n,
{
    if n > 0 {
        lemma_single_count(functions, n - 1);
    }
}

/// Every function that takes up space stands for itself, alone in a file of its own.
pub proof fn law_every_function_is_grouped(
    m: Map<Seq<char>, Map<Seq<char>, SymbolDef>>,
    functions: Seq<IdaFunction>,
    ext: Seq<char>,
    i: int,
)
    requires
        0 <= i < functions.len(),
        functions[i].size != 0,
        one_each(
            m,
            default_files(functions, ext),
            single_symbols(functions, functions.len() as int),
        ),
    ensures
        ({
            let k = sized_keys(functions, i).len() as int;
            let file = default_files(functions, ext)[k];
            &&& 0 <= k < default_files(functions, ext).len()
            &&& m.contains_key(file)
            &&& m[file] == map![functions[i].name@ => definition(functions[i])]
        }),
{
    lemma_single_count(functions, functions.len() as int);
    lemma_single_count(functions, i);
    lemma_single_at(functions, functions.len() as int, i);
    let files = default_files(functions, ext);
    assert(files.contains(files[sized_keys(functions, i).len() as int]));
}

proof fn lemma_single_at(functions: Seq<IdaFunction>, n: int, i: int)
    requires
        0 <= i < n <= functions.len(),
        functions[i].size != 0,
    ensures
        single_symbols(functions, i).len() < single_symbols(functions, n).len(),
        single_symbols(functions, n)[single_symbols(functions, i).len() as int]
            == map![functions[i].name@ => definition(functions[i])],
    decreases n,
{
    if i < n - 1 {
        lemma_single_at(functions, n - 1, i);
    }
}

} // verus!
