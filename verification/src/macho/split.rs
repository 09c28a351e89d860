//! Splitting a Mach-O image: which units become objects, what they are called, and
//! what is reported of them.
use vstd::prelude::*;

use super::cu::{
    code_ranges, ranges_of, total_size, DebugInfoSource, FunctionView, MachoCompilationUnit,
    MachoCuIndex, MachoFunction, UnitView,
};
use super::emit::{no_stats, object_name, spec_object_name, CuOutcome, EmitStats};
use super::symtab_json::{lookup_view, SymtabInfoView, SymtabLookup};
use crate::listing::{listing_views, Listing, ListingView};
use crate::ordered::{
    by_address, lemma_stable_sorted, lemma_stable_sorted_contains, sort_by_address, stable_sorted,
};
use crate::text::{lemma_numbered_names_differ, owned, text_list};

verus! {

broadcast use vstd::hash_map::group_hash_map_axioms;

/// True when an image is split by its debugging information: it has any, and no
/// grouping overrides it.
pub fn splits_by_debug_info(grouped: bool, source: DebugInfoSource) -> (b: bool)
    ensures
        b == (!grouped && source != DebugInfoSource::Symtab),
{
    !grouped && matches!(source, DebugInfoSource::Dwarf | DebugInfoSource::Stabs)
}

/// A unit that becomes an object, by its place in the index, and the name of the
/// object's file.
#[derive(Debug)]
pub struct PlannedUnit {
    pub unit: usize,
    pub file: String,
}

/// Plans with file names as text.
pub open spec fn plan_views(v: Seq<PlannedUnit>) -> Seq<(usize, Seq<char>)> {
    v.map_values(|p: PlannedUnit| (p.unit, p.file@))
}

/// The plan for the first `n` units: those with code become objects.
pub open spec fn planned(units: Seq<MachoCompilationUnit>, n: int) -> Seq<(usize, Seq<char>)>
    decreases n,
{
    if n <= 0 {
        Seq::empty()
    } else if units[n - 1].spec_has_code() {
        planned(units, n - 1).push(
            ((n - 1) as usize, spec_object_name(units[n - 1].id as nat, units[n - 1].name@)),
        )
    } else {
        planned(units, n - 1)
    }
}

/// Plans which units become objects, and under which file names.
pub fn split_plan(index: &MachoCuIndex) -> (plan: Vec<PlannedUnit>)
    ensures
        plan_views(plan@) == planned(index.units@, index.units@.len() as int),
{
    let mut plan: Vec<PlannedUnit> = Vec::new();
    assert(plan_views(plan@) =~= Seq::empty());
    let mut i: usize = 0;
    while i < index.units.len()
        invariant
            i <= index.units@.len(),
            plan_views(plan@) == planned(index.units@, i as int),
        decreases index.units@.len() - i,
    {
        let u = &index.units[i];
        if u.has_code() {
            let file = object_name(u.id, u.name.as_str());
            let ghost before = plan@;
            let ghost view = (i, file@);
            plan.push(PlannedUnit { unit: i, file });
            assert(plan_views(plan@) =~= plan_views(before).push(view));
        }
        i = i + 1;
    }
    plan
}

/// Units with different numbers never share an object file.
pub proof fn law_object_names_differ(a: nat, b: nat, x: Seq<char>, y: Seq<char>)
    requires
        a != b,
    ensures
        spec_object_name(a, x) != spec_object_name(b, y),
{
    if spec_object_name(a, x) == spec_object_name(b, y) {
        lemma_numbered_names_differ(
            a,
            b,
            4,
            super::emit::spec_sanitized_stem(x),
            super::emit::spec_sanitized_stem(y),
            ".o"@,
        );
    }
}

/// The units in a plan are units with code, in order.
proof fn lemma_planned(units: Seq<MachoCompilationUnit>, n: int)
    requires
        0 <= n <= units.len() <= usize::MAX,
    ensures
        forall|i: int|
            0 <= i < planned(units, n).len() ==> {
                let p = #[trigger] planned(units, n)[i];
                p.0 < n && units[p.0 as int].spec_has_code() && p.1 == spec_object_name(
                    units[p.0 as int].id as nat,
                    units[p.0 as int].name@,
                )
            },
        forall|i: int, j: int|
            0 <= i < j < planned(units, n).len() ==> (#[trigger] planned(units, n)[i]).0 < (
            #[trigger] planned(units, n)[j]).0,
        forall|u: int|
            0 <= u < n && (#[trigger] units[u]).spec_has_code() ==> planned(units, n).contains(
                (u as usize, spec_object_name(units[u].id as nat, units[u].name@)),
            ),
    decreases n,
{
    if n > 0 {
        lemma_planned(units, n - 1);
        let before = planned(units, n - 1);
        let s = planned(units, n);
        let last = ((n - 1) as usize, spec_object_name(units[n - 1].id as nat, units[n - 1].name@));
        assert forall|i: int| 0 <= i < s.len() implies {
            let p = #[trigger] s[i];
            p.0 < n && units[p.0 as int].spec_has_code() && p.1 == spec_object_name(
                units[p.0 as int].id as nat,
                units[p.0 as int].name@,
            )
        } by {
            if i < before.len() {
                assert(s[i] == before[i]);
            }
        }
        assert forall|i: int, j: int| 0 <= i < j < s.len() implies (#[trigger] s[i]).0 < (
        #[trigger] s[j]).0 by {
            assert(s[i] == before[i]);
            if j < before.len() {
                assert(s[j] == before[j]);
            }
        }
        assert forall|u: int| 0 <= u < n && (#[trigger] units[u]).spec_has_code() implies s.contains(
            (u as usize, spec_object_name(units[u].id as nat, units[u].name@)),
        ) by {
            let x = (u as usize, spec_object_name(units[u].id as nat, units[u].name@));
            if u == n - 1 {
                assert(s.last() == last);
                assert(s[s.len() - 1] == x);
            } else {
                assert(before.contains(x));
                let k = choose|k: int| 0 <= k < before.len() && before[k] == x;
                assert(s[k] == x);
            }
        }
    }
}

/// Every unit with code is planned once, no other is, and where the units have
/// different numbers no two objects share a file.
pub proof fn law_every_unit_with_code_is_planned(units: Seq<MachoCompilationUnit>)
    requires
        units.len() <= usize::MAX,
    ensures
        ({
            let plan = planned(units, units.len() as int);
            &&& forall|u: int|
                0 <= u < units.len() && (#[trigger] units[u]).spec_has_code() ==> plan.contains(
                    (u as usize, spec_object_name(units[u].id as nat, units[u].name@)),
                )
            &&& forall|i: int|
                0 <= i < plan.len() ==> (#[trigger] plan[i]).0 < units.len()
                    && units[plan[i].0 as int].spec_has_code()
            &&& forall|i: int, j: int|
                0 <= i < j < plan.len() ==> (#[trigger] plan[i]).0 < (#[trigger] plan[j]).0
            &&& (forall|a: int, b: int|
                0 <= a < b < units.len() ==> (#[trigger] units[a]).id != (#[trigger] units[b]).id)
                ==> (forall|i: int, j: int|
                0 <= i < j < plan.len() ==> (#[trigger] plan[i]).1 != (#[trigger] plan[j]).1)
        }),
{
    let n = units.len() as int;
    let plan = planned(units, n);
    lemma_planned(units, n);
    if forall|a: int, b: int|
        0 <= a < b < units.len() ==> (#[trigger] units[a]).id != (#[trigger] units[b]).id {
        assert forall|i: int, j: int| 0 <= i < j < plan.len() implies (#[trigger] plan[i]).1 != (
        #[trigger] plan[j]).1 by {
            let a = plan[i].0 as int;
            let b = plan[j].0 as int;
            assert(units[a].id != units[b].id);
            law_object_names_differ(
                units[a].id as nat,
                units[b].id as nat,
                units[a].name@,
                units[b].name@,
            );
        }
    }
}

/// The sums of what went into two objects.
pub open spec fn summed(a: EmitStats, b: EmitStats) -> EmitStats {
    EmitStats {
        text_bytes: a.text_bytes.wrapping_add(b.text_bytes),
        local_symbols: a.local_symbols.wrapping_add(b.local_symbols),
        undef_symbols: a.undef_symbols.wrapping_add(b.undef_symbols),
        relocations: a.relocations.wrapping_add(b.relocations),
        unresolved_calls: a.unresolved_calls.wrapping_add(b.unresolved_calls),
        instructions: a.instructions.wrapping_add(b.instructions),
    }
}

/// Sums and failures of the first `n` outcomes.
pub open spec fn spec_total(outcomes: Seq<CuOutcome>, n: int) -> (EmitStats, nat)
    decreases n,
{
    if n <= 0 {
        (no_stats(), 0)
    } else {
        let before = spec_total(outcomes, n - 1);
        match outcomes[n - 1].result {
            Ok(s) => (summed(before.0, s), before.1),
            Err(_) => (before.0, before.1 + 1),
        }
    }
}

/// Adds up what went into objects, and counts the units that became none.
pub fn total(outcomes: &Vec<CuOutcome>) -> (r: (EmitStats, usize))
    ensures
        r.0 == spec_total(outcomes@, outcomes@.len() as int).0,
        r.1 == spec_total(outcomes@, outcomes@.len() as int).1,
{
    let mut sum = EmitStats::default();
    let mut failures: usize = 0;
    let mut i: usize = 0;
    while i < outcomes.len()
        invariant
            i <= outcomes@.len(),
            failures <= i,
            sum == spec_total(outcomes@, i as int).0,
            failures == spec_total(outcomes@, i as int).1,
        decreases outcomes@.len() - i,
    {
        match &outcomes[i].result {
            Ok(s) => {
                sum.text_bytes = sum.text_bytes.wrapping_add(s.text_bytes);
                sum.local_symbols = sum.local_symbols.wrapping_add(s.local_symbols);
                sum.undef_symbols = sum.undef_symbols.wrapping_add(s.undef_symbols);
                sum.relocations = sum.relocations.wrapping_add(s.relocations);
                sum.unresolved_calls = sum.unresolved_calls.wrapping_add(s.unresolved_calls);
                sum.instructions = sum.instructions.wrapping_add(s.instructions);
            },
            Err(_) => {
                failures = failures + 1;
            },
        }
        i = i + 1;
    }
    (sum, failures)
}

/// The list of units.
pub open spec fn unit_listings(units: Seq<MachoCompilationUnit>) -> Seq<ListingView> {
    units.map_values(
        |u: MachoCompilationUnit|
            ListingView {
                bytes: total_size(u.functions@),
                functions: u.functions@.len() as usize,
                name: u.name@,
            },
    )
}

/// Lists the units of an image.
pub fn listings(index: &MachoCuIndex) -> (r: Vec<Listing>)
    ensures
        listing_views(r@) == unit_listings(index.units@),
{
    let ghost goal = unit_listings(index.units@);
    let mut r: Vec<Listing> = Vec::new();
    assert(listing_views(r@) =~= goal.subrange(0, 0));
    let mut i: usize = 0;
    while i < index.units.len()
        invariant
            i <= index.units@.len(),
            goal == unit_listings(index.units@),
            goal.len() == index.units@.len(),
            listing_views(r@) == goal.subrange(0, i as int),
        decreases index.units@.len() - i,
    {
        let u = &index.units[i];
        let row = Listing {
            bytes: u.text_size(),
            functions: u.functions.len(),
            name: owned(u.name.as_str()),
        };
        let ghost before = r@;
        let ghost view = row@;
        assert(goal[i as int] == view);
        r.push(row);
        assert(listing_views(r@) =~= listing_views(before).push(view));
        assert(goal.subrange(0, i + 1) =~= goal.subrange(0, i as int).push(view));
        i = i + 1;
    }
    assert(goal.subrange(0, goal.len() as int) =~= goal);
    r
}

/// Addresses and places of those among the first `n` functions that take up space.
pub open spec fn code_places(functions: Seq<MachoFunction>, n: int) -> Seq<(u64, usize)>
    decreases n,
{
    if n <= 0 {
        Seq::empty()
    } else if functions[n - 1].size > 0 {
        code_places(functions, n - 1).push((functions[n - 1].addr, (n - 1) as usize))
    } else {
        code_places(functions, n - 1)
    }
}

/// The functions of a unit that take up space, by address.
pub open spec fn manifest_functions(functions: Seq<MachoFunction>) -> Seq<FunctionView> {
    stable_sorted(code_places(functions, functions.len() as int), by_address()).map_values(
        |p: (u64, usize)| functions[p.1 as int]@,
    )
}

proof fn lemma_code_places(functions: Seq<MachoFunction>, n: int)
    requires
        0 <= n <= functions.len() <= usize::MAX,
    ensures
        forall|i: int|
            0 <= i < code_places(functions, n).len() ==> (#[trigger] code_places(functions, n)[i]).1
                < n,
    decreases n,
{
    if n > 0 {
        lemma_code_places(functions, n - 1);
        let before = code_places(functions, n - 1);
        assert forall|i: int| 0 <= i < code_places(functions, n).len() implies (
        #[trigger] code_places(functions, n)[i]).1 < n by {
            if i < before.len() {
                assert(code_places(functions, n)[i] == before[i]);
            }
        }
    }
}

/// Lists the functions of a unit that take up space, by address.
pub fn functions_for_manifest(cu: &MachoCompilationUnit) -> (r: Vec<MachoFunction>)
    ensures
        r@.map_values(|f: MachoFunction| f@) == manifest_functions(cu.functions@),
{
    let mut keyed: Vec<(u64, usize)> = Vec::new();
    let mut i: usize = 0;
    while i < cu.functions.len()
        invariant
            i <= cu.functions@.len(),
            keyed@ == code_places(cu.functions@, i as int),
        decreases cu.functions@.len() - i,
    {
        if cu.functions[i].size > 0 {
            keyed.push((cu.functions[i].addr, i));
        }
        i = i + 1;
    }
    let ghost unsorted = keyed@;
    sort_by_address(&mut keyed);
    proof {
        assert(cu.functions@.len() == cu.functions.len());
        lemma_code_places(cu.functions@, cu.functions@.len() as int);
        assert forall|k: int| 0 <= k < keyed@.len() implies (#[trigger] keyed@[k]).1
            < cu.functions@.len() by {
            lemma_stable_sorted_contains(unsorted, by_address(), keyed@[k]);
            assert(keyed@.contains(keyed@[k]));
        }
    }
    let ghost goal = manifest_functions(cu.functions@);
    let ghost f = |f: MachoFunction| f@;
    let mut r: Vec<MachoFunction> = Vec::new();
    assert(r@.map_values(f) =~= goal.subrange(0, 0));
    let mut k: usize = 0;
    while k < keyed.len()
        invariant
            k <= keyed@.len(),
            f == (|f: MachoFunction| f@),
            goal == keyed@.map_values(|p: (u64, usize)| cu.functions@[p.1 as int]@),
            forall|j: int| 0 <= j < keyed@.len() ==> (#[trigger] keyed@[j]).1 < cu.functions@.len(),
            r@.map_values(f) == goal.subrange(0, k as int),
        decreases keyed@.len() - k,
    {
        let at: usize = keyed[k].1;
        let function = cu.functions[at].clone();
        let ghost before = r@;
        let ghost view = function@;
        assert(goal[k as int] == view);
        r.push(function);
        assert(r@.map_values(f) =~= before.map_values(f).push(view));
        assert(goal.subrange(0, k + 1) =~= goal.subrange(0, k as int).push(view));
        k = k + 1;
    }
    assert(goal.subrange(0, goal.len() as int) =~= goal);
    r
}

/// Addresses and places of those among the first `n` names that the symbol table
/// knows.
pub open spec fn known_places(
    names: Seq<Seq<char>>,
    infos: Map<Seq<char>, SymtabInfoView>,
    n: int,
) -> Seq<(u64, usize)>
    decreases n,
{
    if n <= 0 {
        Seq::empty()
    } else if infos.contains_key(names[n - 1]) {
        known_places(names, infos, n - 1).push((infos[names[n - 1]].addr, (n - 1) as usize))
    } else {
        known_places(names, infos, n - 1)
    }
}

/// The names that the symbol table knows, by address.
pub open spec fn known_names(names: Seq<Seq<char>>, infos: Map<Seq<char>, SymtabInfoView>) -> Seq<
    Seq<char>,
> {
    stable_sorted(known_places(names, infos, names.len() as int), by_address()).map_values(
        |p: (u64, usize)| names[p.1 as int],
    )
}

proof fn lemma_known_places(names: Seq<Seq<char>>, infos: Map<Seq<char>, SymtabInfoView>, n: int)
    requires
        0 <= n <= names.len() <= usize::MAX,
    ensures
        forall|i: int|
            0 <= i < known_places(names, infos, n).len() ==> {
                let p = #[trigger] known_places(names, infos, n)[i];
                p.1 < n && infos.contains_key(names[p.1 as int]) && infos[names[p.1 as int]].addr
                    == p.0
            },
    decreases n,
{
    if n > 0 {
        lemma_known_places(names, infos, n - 1);
        let before = known_places(names, infos, n - 1);
        assert forall|i: int| 0 <= i < known_places(names, infos, n).len() implies {
            let p = #[trigger] known_places(names, infos, n)[i];
            p.1 < n && infos.contains_key(names[p.1 as int]) && infos[names[p.1 as int]].addr == p.0
        } by {
            if i < before.len() {
                assert(known_places(names, infos, n)[i] == before[i]);
            }
        }
    }
}

/// Lists the names that the symbol table knows, by address.
pub fn symbols_for_manifest(names: &Vec<String>, lookup: &SymtabLookup) -> (r: Vec<String>)
    ensures
        text_list(r@) == known_names(text_list(names@), lookup_view(lookup@)),
{
    let ghost views = text_list(names@);
    let ghost infos = lookup_view(lookup@);
    let mut keyed: Vec<(u64, usize)> = Vec::new();
    let mut i: usize = 0;
    while i < names.len()
        invariant
            i <= names@.len(),
            views == text_list(names@),
            infos == lookup_view(lookup@),
            keyed@ == known_places(views, infos, i as int),
        decreases names@.len() - i,
    {
        assert(views[i as int] == names@[i as int]@);
        if let Some(info) = lookup.get(names[i].as_str()) {
            keyed.push((info.addr, i));
        }
        i = i + 1;
    }
    let ghost unsorted = keyed@;
    sort_by_address(&mut keyed);
    proof {
        assert(names@.len() == names.len());
        lemma_known_places(views, infos, views.len() as int);
        assert forall|k: int| 0 <= k < keyed@.len() implies (#[trigger] keyed@[k]).1
            < names@.len() by {
            lemma_stable_sorted_contains(unsorted, by_address(), keyed@[k]);
            assert(keyed@.contains(keyed@[k]));
        }
    }
    let ghost goal = known_names(views, infos);
    let mut r: Vec<String> = Vec::new();
    assert(text_list(r@) =~= goal.subrange(0, 0));
    let mut k: usize = 0;
    while k < keyed.len()
        invariant
            k <= keyed@.len(),
            views == text_list(names@),
            goal == keyed@.map_values(|p: (u64, usize)| views[p.1 as int]),
            forall|j: int| 0 <= j < keyed@.len() ==> (#[trigger] keyed@[j]).1 < names@.len(),
            text_list(r@) == goal.subrange(0, k as int),
        decreases keyed@.len() - k,
    {
        let at: usize = keyed[k].1;
        let name = owned(names[at].as_str());
        let ghost before = r@;
        let ghost view = name@;
        assert(views[at as int] == names@[at as int]@);
        assert(goal[k as int] == view);
        r.push(name);
        assert(text_list(r@) =~= text_list(before).push(view));
        assert(goal.subrange(0, k + 1) =~= goal.subrange(0, k as int).push(view));
        k = k + 1;
    }
    assert(goal.subrange(0, goal.len() as int) =~= goal);
    r
}

/// A function that a grouping names.
pub open spec fn grouped_function(name: Seq<char>, info: SymtabInfoView) -> FunctionView {
    FunctionView {
        name,
        linkage_name: None,
        addr: info.addr,
        size: info.size,
        external: info.external,
    }
}

/// The functions of a file of a grouping.
pub open spec fn grouped_functions(
    names: Seq<Seq<char>>,
    infos: Map<Seq<char>, SymtabInfoView>,
) -> Seq<FunctionView> {
    known_names(names, infos).map_values(|n: Seq<char>| grouped_function(n, infos[n]))
}

/// The unit for a file of a grouping and the symbols in it: the functions that the
/// symbol table knows, by address.
pub fn grouped_unit(
    file: &str,
    symbols: &Vec<String>,
    lookup: &SymtabLookup,
    id: usize,
) -> (u: MachoCompilationUnit)
    ensures
        ({
            let functions = grouped_functions(text_list(symbols@), lookup_view(lookup@));
            u@ == (UnitView {
                id: id as nat,
                name: file@,
                comp_dir: None,
                oso_path: None,
                ranges: code_ranges(functions, functions.len() as int),
                functions,
                variables: Seq::empty(),
            })
        }),
{
    let ghost infos = lookup_view(lookup@);
    let ghost known = known_names(text_list(symbols@), infos);
    let names = symbols_for_manifest(symbols, lookup);
    proof {
        assert(symbols@.len() == symbols.len());
        lemma_known_names(text_list(symbols@), infos);
    }
    let ghost goal = grouped_functions(text_list(symbols@), infos);
    let ghost f = |f: MachoFunction| f@;
    let mut functions: Vec<MachoFunction> = Vec::new();
    assert(functions@.map_values(f) =~= goal.subrange(0, 0));
    let mut i: usize = 0;
    while i < names.len()
        invariant
            i <= names@.len(),
            f == (|f: MachoFunction| f@),
            infos == lookup_view(lookup@),
            known == text_list(names@),
            goal == known.map_values(|n: Seq<char>| grouped_function(n, infos[n])),
            forall|k: int| 0 <= k < known.len() ==> infos.contains_key(#[trigger] known[k]),
            functions@.map_values(f) == goal.subrange(0, i as int),
        decreases names@.len() - i,
    {
        assert(known[i as int] == names@[i as int]@);
        if let Some(info) = lookup.get(names[i].as_str()) {
            let function = MachoFunction {
                name: owned(names[i].as_str()),
                linkage_name: None,
                addr: info.addr,
                size: info.size,
                external: info.external,
            };
            let ghost before = functions@;
            let ghost view = function@;
            assert(goal[i as int] == view);
            functions.push(function);
            assert(functions@.map_values(f) =~= before.map_values(f).push(view));
            assert(goal.subrange(0, i + 1) =~= goal.subrange(0, i as int).push(view));
        }
        i = i + 1;
    }
    assert(goal.subrange(0, goal.len() as int) =~= goal);
    let ranges = ranges_of(&functions);
    let u = MachoCompilationUnit {
        id,
        name: owned(file),
        comp_dir: None,
        oso_path: None,
        ranges,
        functions,
        variables: Vec::new(),
    };
    assert(u@.variables =~= Seq::empty());
    u
}

/// What `known_names` gives, the symbol table knows.
proof fn lemma_known_names(names: Seq<Seq<char>>, infos: Map<Seq<char>, SymtabInfoView>)
    requires
        names.len() <= usize::MAX,
    ensures
        forall|k: int|
            0 <= k < known_names(names, infos).len() ==> infos.contains_key(
                #[trigger] known_names(names, infos)[k],
            ),
{
    let n = names.len() as int;
    let found = known_places(names, infos, n);
    let sorted = stable_sorted(found, by_address());
    lemma_known_places(names, infos, n);
    lemma_stable_sorted(found, by_address());
    assert forall|k: int| 0 <= k < known_names(names, infos).len() implies infos.contains_key(
        #[trigger] known_names(names, infos)[k],
    ) by {
        let x = sorted[k];
        lemma_stable_sorted_contains(found, by_address(), x);
        assert(sorted.contains(x));
        let j = choose|j: int| 0 <= j < found.len() && found[j] == x;
        assert(found[j] == x);
    }
}

} // verus!
