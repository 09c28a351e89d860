//! Splitting an ELF image: which units become objects, what they are called, and
//! what is reported of them.
use vstd::prelude::*;

use super::code::{accumulated, no_stats, EmitStats};
use super::cu::{CompilationUnit, CuIndex};
use super::inspect::{coverage, range_bytes};
use crate::listing::{listing_views, Listing, ListingView};
use crate::text::{
    decimal4, digits, file_stem, joined, lemma_numbered_names_differ, owned, safe_file_name,
    spec_file_stem, spec_safe_file_name, zero_padded,
};

verus! {

/// What one compilation unit came to.
#[derive(Debug)]
pub struct CuOutcome {
    pub cu_name: String,
    pub file: String,
    /// What went into the object, or why there is none.
    pub result: Result<EmitStats, String>,
}

/// The final component of a unit's path without its extension, made safe for a file
/// name.
pub fn sanitize_cu_name(name: &str) -> (r: String)
    ensures
        r@ == spec_safe_file_name(spec_file_stem(name@)),
{
    let stem = file_stem(name);
    safe_file_name(stem.as_str())
}

/// Name of the object file of a unit: its own, or else its number and the stem of
/// its name.
pub open spec fn object_file(cu: CompilationUnit) -> Seq<char> {
    match cu.file_name {
        Some(f) => f@,
        None => zero_padded(digits(cu.id as nat, 10), 4) + "_"@ + spec_safe_file_name(
            spec_file_stem(cu.name@),
        ) + ".o"@,
    }
}

/// Names the object file of a unit.
pub fn name_object(cu: &CompilationUnit) -> (r: String)
    ensures
        r@ == object_file(*cu),
{
    match &cu.file_name {
        Some(f) => owned(f.as_str()),
        None => {
            let number = decimal4(cu.id as u64);
            let stem = sanitize_cu_name(cu.name.as_str());
            let a = joined(number.as_str(), "_");
            let b = joined(a.as_str(), stem.as_str());
            joined(b.as_str(), ".o")
        },
    }
}

/// A unit that becomes an object, by its place in the index, and the name of the
/// object's file.
#[derive(Debug)]
pub struct PlannedUnit {
    pub unit: usize,
    pub file: String,
}

/// Plans with file names as text.
pub open spec fn plan_views(v: Seq<PlannedUnit>) -> Seq<(usize, Seq<char>)> {
    v.map_values(|p: PlannedUnit| (p.unit, p.file@))
}

/// The plan for the first `n` units: those with code become objects.
pub open spec fn planned(units: Seq<CompilationUnit>, n: int) -> Seq<(usize, Seq<char>)>
    decreases n,
{
    if n <= 0 {
        Seq::empty()
    } else if units[n - 1].spec_has_code() {
        planned(units, n - 1).push(
            ((n - 1) as usize, object_file(units[n - 1])),
        )
    } else {
        planned(units, n - 1)
    }
}

/// Plans which units become objects, and under which file names.
pub fn split_plan(index: &CuIndex) -> (plan: Vec<PlannedUnit>)
    ensures
        plan_views(plan@) == planned(index.units@, index.units@.len() as int),
{
    let mut plan: Vec<PlannedUnit> = Vec::new();
    assert(plan_views(plan@) =~= Seq::empty());
    let mut i: usize = 0;
    while i < index.units.len()
        invariant
            i <= index.units@.len(),
            plan_views(plan@) == planned(index.units@, i as int),
        decreases index.units@.len() - i,
    {
        let u = &index.units[i];
        if u.has_code() {
            let file = name_object(u);
            let ghost before = plan@;
            let ghost view = (i, file@);
            plan.push(PlannedUnit { unit: i, file });
            assert(plan_views(plan@) =~= plan_views(before).push(view));
        }
        i = i + 1;
    }
    plan
}

/// Units with different numbers and no file names of their own never share an
/// object file.
pub proof fn law_object_names_differ(a: CompilationUnit, b: CompilationUnit)
    requires
        a.id != b.id,
        a.file_name is None,
        b.file_name is None,
    ensures
        object_file(a) != object_file(b),
{
    if object_file(a) == object_file(b) {
        lemma_numbered_names_differ(
            a.id as nat,
            b.id as nat,
            4,
            spec_safe_file_name(spec_file_stem(a.name@)),
            spec_safe_file_name(spec_file_stem(b.name@)),
            ".o"@,
        );
    }
}

/// The units in a plan are units with code, in order.
proof fn lemma_planned(units: Seq<CompilationUnit>, n: int)
    requires
        0 <= n <= units.len() <= usize::MAX,
    ensures
        forall|i: int|
            0 <= i < planned(units, n).len() ==> {
                let p = #[trigger] planned(units, n)[i];
                p.0 < n && units[p.0 as int].spec_has_code() && p.1 == object_file(
                    units[p.0 as int],
                )
            },
        forall|i: int, j: int|
            0 <= i < j < planned(units, n).len() ==> (#[trigger] planned(units, n)[i]).0 < (
            #[trigger] planned(units, n)[j]).0,
        forall|u: int|
            0 <= u < n && (#[trigger] units[u]).spec_has_code() ==> planned(units, n).contains(
                (u as usize, object_file(units[u])),
            ),
    decreases n,
{
    if n > 0 {
        lemma_planned(units, n - 1);
        let before = planned(units, n - 1);
        let s = planned(units, n);
        let last = ((n - 1) as usize, object_file(units[n - 1]));
        assert forall|i: int| 0 <= i < s.len() implies {
            let p = #[trigger] s[i];
            p.0 < n && units[p.0 as int].spec_has_code() && p.1 == object_file(
                units[p.0 as int],
            )
        } by {
            if i < before.len() {
                assert(s[i] == before[i]);
            }
        }
        assert forall|i: int, j: int| 0 <= i < j < s.len() implies (#[trigger] s[i]).0 < (
        #[trigger] s[j]).0 by {
            assert(s[i] == before[i]);
            if j < before.len() {
                assert(s[j] == before[j]);
            }
        }
        assert forall|u: int| 0 <= u < n && (#[trigger] units[u]).spec_has_code() implies s.contains(
            (u as usize, object_file(units[u])),
        ) by {
            let x = (u as usize, object_file(units[u]));
            if u == n - 1 {
                assert(s.last() == last);
                assert(s[s.len() - 1] == x);
            } else {
                assert(before.contains(x));
                let k = choose|k: int| 0 <= k < before.len() && before[k] == x;
                assert(s[k] == x);
            }
        }
    }
}

/// Every unit with code is planned once, no other is, and where the units have
/// different numbers and no file names of their own, no two objects share a file.
pub proof fn law_every_unit_with_code_is_planned(units: Seq<CompilationUnit>)
    requires
        units.len() <= usize::MAX,
    ensures
        ({
            let plan = planned(units, units.len() as int);
            &&& forall|u: int|
                0 <= u < units.len() && (#[trigger] units[u]).spec_has_code() ==> plan.contains(
                    (u as usize, object_file(units[u])),
                )
            &&& forall|i: int|
                0 <= i < plan.len() ==> (#[trigger] plan[i]).0 < units.len()
                    && units[plan[i].0 as int].spec_has_code()
            &&& forall|i: int, j: int|
                0 <= i < j < plan.len() ==> (#[trigger] plan[i]).0 < (#[trigger] plan[j]).0
            &&& (forall|a: int, b: int|
                0 <= a < b < units.len() ==> (#[trigger] units[a]).id != (#[trigger] units[b]).id)
                && (forall|a: int| 0 <= a < units.len() ==> (#[trigger] units[a]).file_name is None)
                ==> (forall|i: int, j: int|
                0 <= i < j < plan.len() ==> (#[trigger] plan[i]).1 != (#[trigger] plan[j]).1)
        }),
{
    let n = units.len() as int;
    let plan = planned(units, n);
    lemma_planned(units, n);
    if (forall|a: int, b: int|
        0 <= a < b < units.len() ==> (#[trigger] units[a]).id != (#[trigger] units[b]).id) && (
    forall|a: int| 0 <= a < units.len() ==> (#[trigger] units[a]).file_name is None) {
        assert forall|i: int, j: int| 0 <= i < j < plan.len() implies (#[trigger] plan[i]).1 != (
        #[trigger] plan[j]).1 by {
            let a = plan[i].0 as int;
            let b = plan[j].0 as int;
            assert(units[a].id != units[b].id);
            law_object_names_differ(units[a], units[b]);
        }
    }
}

/// Sums and failures of the first `n` outcomes.
pub open spec fn spec_total(outcomes: Seq<CuOutcome>, n: int) -> (EmitStats, nat)
    decreases n,
{
    if n <= 0 {
        (no_stats(), 0)
    } else {
        let before = spec_total(outcomes, n - 1);
        match outcomes[n - 1].result {
            Ok(s) => (accumulated(before.0, s), before.1),
            Err(_) => (before.0, before.1 + 1),
        }
    }
}

/// Adds up what went into objects, and counts the units that became none.
pub fn total(outcomes: &Vec<CuOutcome>) -> (r: (EmitStats, usize))
    ensures
        r.0 == spec_total(outcomes@, outcomes@.len() as int).0,
        r.1 == spec_total(outcomes@, outcomes@.len() as int).1,
{
    let mut sum = EmitStats::default();
    let mut failures: usize = 0;
    let mut i: usize = 0;
    while i < outcomes.len()
        invariant
            i <= outcomes@.len(),
            failures <= i,
            sum == spec_total(outcomes@, i as int).0,
            failures == spec_total(outcomes@, i as int).1,
        decreases outcomes@.len() - i,
    {
        match &outcomes[i].result {
            Ok(s) => {
                sum.accumulate(s);
            },
            Err(_) => {
                failures = failures + 1;
            },
        }
        i = i + 1;
    }
    (sum, failures)
}

/// The list of units.
pub open spec fn unit_listings(units: Seq<CompilationUnit>) -> Seq<ListingView> {
    units.map_values(
        |u: CompilationUnit|
            ListingView {
                bytes: range_bytes(u.ranges@, u.ranges@.len() as int),
                functions: u.functions@.len() as usize,
                name: u.name@,
            },
    )
}

/// Lists the units of an image.
pub fn listings(index: &CuIndex) -> (r: Vec<Listing>)
    ensures
        listing_views(r@) == unit_listings(index.units@),
{
    let ghost goal = unit_listings(index.units@);
    let mut r: Vec<Listing> = Vec::new();
    assert(listing_views(r@) =~= goal.subrange(0, 0));
    let mut i: usize = 0;
    while i < index.units.len()
        invariant
            i <= index.units@.len(),
            goal == unit_listings(index.units@),
            goal.len() == index.units@.len(),
            listing_views(r@) == goal.subrange(0, i as int),
        decreases index.units@.len() - i,
    {
        let u = &index.units[i];
        let row = Listing {
            bytes: coverage(&u.ranges),
            functions: u.functions.len(),
            name: owned(u.name.as_str()),
        };
        let ghost before = r@;
        let ghost view = row@;
        assert(goal[i as int] == view);
        r.push(row);
        assert(listing_views(r@) =~= listing_views(before).push(view));
        assert(goal.subrange(0, i + 1) =~= goal.subrange(0, i as int).push(view));
        i = i + 1;
    }
    assert(goal.subrange(0, goal.len() as int) =~= goal);
    r
}

} // verus!
