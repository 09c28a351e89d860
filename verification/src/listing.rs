//! Lists of compilation units by the code in them.
use vstd::prelude::*;

use crate::ordered::{
    ascending, by_address, lemma_stable_sorted, lemma_stable_sorted_contains, sort_by_address,
    stable_sorted,
};
use crate::text::{contains_text, has_substring, owned};

verus! {

/// A unit in a list.
#[derive(Debug)]
pub struct Listing {
    /// Bytes of code.
    pub bytes: u64,
    pub functions: usize,
    pub name: String,
}

/// A unit in a list, with its name as text.
pub ghost struct ListingView {
    pub bytes: u64,
    pub functions: usize,
    pub name: Seq<char>,
}

impl View for Listing {
    type V = ListingView;

    open spec fn view(&self) -> ListingView {
        ListingView { bytes: self.bytes, functions: self.functions, name: self.name@ }
    }
}

/// Units in a list, with their names as text.
pub open spec fn listing_views(v: Seq<Listing>) -> Seq<ListingView> {
    v.map_values(|r: Listing| r@)
}

/// Size and place of those among the first `n` rows that have `needle` in their
/// name.
pub open spec fn matching(rows: Seq<ListingView>, needle: Seq<char>, n: int) -> Seq<(u64, usize)>
    decreases n,
{
    if n <= 0 {
        Seq::empty()
    } else if has_substring(rows[n - 1].name, needle) {
        matching(rows, needle, n - 1).push((rows[n - 1].bytes, (n - 1) as usize))
    } else {
        matching(rows, needle, n - 1)
    }
}

/// Sizes and places of the rows with `needle` in their name, the smallest first;
/// rows of one size keep their order.
pub open spec fn ranked(rows: Seq<ListingView>, needle: Seq<char>) -> Seq<(u64, usize)> {
    stable_sorted(matching(rows, needle, rows.len() as int), by_address())
}

/// The `limit` smallest rows with `needle` in their name.
pub open spec fn smallest(rows: Seq<ListingView>, needle: Seq<char>, limit: nat) -> Seq<ListingView> {
    let all = ranked(rows, needle);
    let n = if limit < all.len() {
        limit
    } else {
        all.len()
    };
    Seq::new(n, |i: int| rows[all[i].1 as int])
}

/// Matching rows are rows, with their sizes and with `needle` in their names.
proof fn lemma_matching(rows: Seq<ListingView>, needle: Seq<char>, n: int)
    requires
        0 <= n <= rows.len() <= usize::MAX,
    ensures
        forall|i: int|
            0 <= i < matching(rows, needle, n).len() ==> {
                let m = #[trigger] matching(rows, needle, n)[i];
                m.1 < n && m.0 == rows[m.1 as int].bytes && has_substring(
                    rows[m.1 as int].name,
                    needle,
                )
            },
    decreases n,
{
    if n > 0 {
        lemma_matching(rows, needle, n - 1);
        let before = matching(rows, needle, n - 1);
        assert forall|i: int| 0 <= i < matching(rows, needle, n).len() implies {
            let m = #[trigger] matching(rows, needle, n)[i];
            m.1 < n && m.0 == rows[m.1 as int].bytes && has_substring(
                rows[m.1 as int].name,
                needle,
            )
        } by {
            if i < before.len() {
                assert(matching(rows, needle, n)[i] == before[i]);
            }
        }
    }
}

/// What ranking gives are rows, with their sizes and with `needle` in their names.
proof fn lemma_ranked(rows: Seq<ListingView>, needle: Seq<char>)
    requires
        rows.len() <= usize::MAX,
    ensures
        forall|i: int|
            0 <= i < ranked(rows, needle).len() ==> {
                let m = #[trigger] ranked(rows, needle)[i];
                m.1 < rows.len() && m.0 == rows[m.1 as int].bytes && has_substring(
                    rows[m.1 as int].name,
                    needle,
                )
            },
        ascending(ranked(rows, needle), by_address()),
{
    let n = rows.len() as int;
    let found = matching(rows, needle, n);
    lemma_matching(rows, needle, n);
    lemma_stable_sorted(found, by_address());
    assert forall|i: int| 0 <= i < ranked(rows, needle).len() implies {
        let m = #[trigger] ranked(rows, needle)[i];
        m.1 < rows.len() && m.0 == rows[m.1 as int].bytes && has_substring(
            rows[m.1 as int].name,
            needle,
        )
    } by {
        let x = ranked(rows, needle)[i];
        lemma_stable_sorted_contains(found, by_address(), x);
        assert(ranked(rows, needle).contains(x));
        let k = choose|k: int| 0 <= k < found.len() && found[k] == x;
        assert(found[k] == x);
    }
}

/// A list has no more rows than asked for, all with the text asked for in their
/// names, and none behind a bigger one.
pub proof fn law_lists_are_sorted(rows: Seq<ListingView>, needle: Seq<char>, limit: nat)
    requires
        rows.len() <= usize::MAX,
    ensures
        smallest(rows, needle, limit).len() <= limit,
        forall|i: int|
            0 <= i < smallest(rows, needle, limit).len() ==> has_substring(
                (#[trigger] smallest(rows, needle, limit)[i]).name,
                needle,
            ),
        forall|i: int, j: int|
            0 <= i < j < smallest(rows, needle, limit).len() ==> (#[trigger] smallest(
                rows,
                needle,
                limit,
            )[i]).bytes <= (#[trigger] smallest(rows, needle, limit)[j]).bytes,
{
    lemma_ranked(rows, needle);
    let all = ranked(rows, needle);
    let s = smallest(rows, needle, limit);
    assert forall|i: int| 0 <= i < s.len() implies has_substring((#[trigger] s[i]).name, needle) by {
        assert(s[i] == rows[all[i].1 as int]);
    }
    assert forall|i: int, j: int| 0 <= i < j < s.len() implies (#[trigger] s[i]).bytes <= (
    #[trigger] s[j]).bytes by {
        assert(s[i] == rows[all[i].1 as int]);
        assert(s[j] == rows[all[j].1 as int]);
        assert(by_address()(all[i], all[j]));
    }
}

/// Lists the `limit` smallest rows with `needle` in their name, the smallest first.
pub fn list_units(rows: &Vec<Listing>, needle: &str, limit: usize) -> (r: Vec<Listing>)
    ensures
        listing_views(r@) == smallest(listing_views(rows@), needle@, limit as nat),
{
    let ghost views = listing_views(rows@);
    let mut keyed: Vec<(u64, usize)> = Vec::new();
    let mut i: usize = 0;
    while i < rows.len()
        invariant
            i <= rows@.len(),
            views == listing_views(rows@),
            keyed@ == matching(views, needle@, i as int),
        decreases rows@.len() - i,
    {
        assert(views[i as int] == rows@[i as int]@);
        if contains_text(rows[i].name.as_str(), needle) {
            keyed.push((rows[i].bytes, i));
        }
        i = i + 1;
    }
    sort_by_address(&mut keyed);
    proof {
        assert(rows@.len() == rows.len());
        lemma_ranked(views, needle@);
    }
    let n: usize = if limit < keyed.len() {
        limit
    } else {
        keyed.len()
    };
    let ghost goal = smallest(views, needle@, limit as nat);
    let mut r: Vec<Listing> = Vec::new();
    assert(listing_views(r@) =~= goal.subrange(0, 0));
    let mut k: usize = 0;
    while k < n
        invariant
            k <= n <= keyed@.len(),
            views == listing_views(rows@),
            keyed@ == ranked(views, needle@),
            goal == smallest(views, needle@, limit as nat),
            goal.len() == n,
            forall|j: int| 0 <= j < keyed@.len() ==> (#[trigger] keyed@[j]).1 < rows@.len(),
            listing_views(r@) == goal.subrange(0, k as int),
        decreases n - k,
    {
        let at: usize = keyed[k].1;
        let row = Listing {
            bytes: rows[at].bytes,
            functions: rows[at].functions,
            name: owned(rows[at].name.as_str()),
        };
        let ghost before = r@;
        let ghost view = row@;
        assert(views[at as int] == rows@[at as int]@);
        assert(goal[k as int] == view);
        r.push(row);
        assert(listing_views(r@) =~= listing_views(before).push(view));
        assert(goal.subrange(0, k + 1) =~= goal.subrange(0, k as int).push(view));
        k = k + 1;
    }
    assert(goal.subrange(0, goal.len() as int) =~= goal);
    r
}

} // verus!
