//! Ordered collections: stable sorting, and lookups by the nearest key.
use std::collections::BTreeMap;
use vstd::prelude::*;

verus! {

/// `s`, sorted, with `x` put behind every element that is not above it.
pub open spec fn insert_sorted<T>(s: Seq<T>, x: T, leq: spec_fn(T, T) -> bool) -> Seq<T>
    decreases s.len(),
{
    if s.len() == 0 || leq(s.last(), x) {
        s.push(x)
    } else {
        insert_sorted(s.drop_last(), x, leq).push(s.last())
    }
}

/// `s` sorted by `leq`; equal elements keep their order.
pub open spec fn stable_sorted<T>(s: Seq<T>, leq: spec_fn(T, T) -> bool) -> Seq<T>
    decreases s.len(),
{
    if s.len() == 0 {
        s
    } else {
        insert_sorted(stable_sorted(s.drop_last(), leq), s.last(), leq)
    }
}

/// Any two elements compare, and comparisons chain.
pub open spec fn total_preorder<T>(leq: spec_fn(T, T) -> bool) -> bool {
    &&& forall|a: T, b: T| #[trigger] leq(a, b) || leq(b, a)
    &&& forall|a: T, b: T, c: T| #[trigger] leq(a, b) && #[trigger] leq(b, c) ==> leq(a, c)
}

/// Every element is `leq` all that follow it.
pub open spec fn ascending<T>(s: Seq<T>, leq: spec_fn(T, T) -> bool) -> bool {
    forall|i: int, j: int| 0 <= i < j < s.len() ==> leq(#[trigger] s[i], #[trigger] s[j])
}

proof fn lemma_insert_sorted<T>(s: Seq<T>, x: T, leq: spec_fn(T, T) -> bool)
    requires
        total_preorder(leq),
        ascending(s, leq),
    ensures
        ascending(insert_sorted(s, x, leq), leq),
        insert_sorted(s, x, leq).to_multiset() == s.to_multiset().insert(x),
        insert_sorted(s, x, leq).len() == s.len() + 1,
    decreases s.len(),
{
    broadcast use vstd::seq_lib::group_to_multiset_ensures;

    let r = insert_sorted(s, x, leq);
    if s.len() == 0 || leq(s.last(), x) {
        assert forall|i: int, j: int| 0 <= i < j < r.len() implies leq(
            #[trigger] r[i],
            #[trigger] r[j],
        ) by {
            if j == s.len() && i < s.len() - 1 {
                assert(leq(s[i], s[s.len() - 1]));
            }
        }
    } else {
        let t = s.drop_last();
        let last = s.last();
        lemma_insert_sorted(t, x, leq);
        let u = insert_sorted(t, x, leq);
        assert(t.push(last) =~= s);
        assert(u.to_multiset().insert(last) =~= s.to_multiset().insert(x));
        assert forall|i: int| 0 <= i < u.len() implies leq(#[trigger] u[i], last) by {
            assert(u.to_multiset().count(u[i]) > 0) by {
                assert(u.contains(u[i]));
            }
            if u[i] != x {
                assert(t.to_multiset().count(u[i]) > 0);
                assert(t.contains(u[i]));
                let k = choose|k: int| 0 <= k < t.len() && t[k] == u[i];
                assert(leq(s[k], s[s.len() - 1]));
            } else {
                assert(leq(last, x) || leq(x, last));
            }
        }
    }
}

/// Sorting yields an ascending rearrangement.
pub proof fn lemma_stable_sorted<T>(s: Seq<T>, leq: spec_fn(T, T) -> bool)
    requires
        total_preorder(leq),
    ensures
        ascending(stable_sorted(s, leq), leq),
        stable_sorted(s, leq).to_multiset() == s.to_multiset(),
        stable_sorted(s, leq).len() == s.len(),
    decreases s.len(),
{
    broadcast use vstd::seq_lib::group_to_multiset_ensures;

    if s.len() > 0 {
        lemma_stable_sorted(s.drop_last(), leq);
        lemma_insert_sorted(stable_sorted(s.drop_last(), leq), s.last(), leq);
        assert(s.drop_last().push(s.last()) =~= s);
    }
}

/// The elements of a sorted sequence are those of the sequence.
pub proof fn lemma_stable_sorted_contains<T>(s: Seq<T>, leq: spec_fn(T, T) -> bool, x: T)
    requires
        total_preorder(leq),
    ensures
        stable_sorted(s, leq).contains(x) <==> s.contains(x),
{
    broadcast use vstd::seq_lib::group_to_multiset_ensures;

    lemma_stable_sorted(s, leq);
    assert(stable_sorted(s, leq).contains(x) <==> stable_sorted(s, leq).to_multiset().count(x) > 0);
    assert(s.contains(x) <==> s.to_multiset().count(x) > 0);
}

/// Sorting commutes with a map that keeps the order.
pub proof fn lemma_sorted_map<T, U>(
    s: Seq<T>,
    f: spec_fn(T) -> U,
    leq: spec_fn(T, T) -> bool,
    leq_image: spec_fn(U, U) -> bool,
)
    requires
        forall|a: T, b: T| #[trigger] leq(a, b) == leq_image(f(a), f(b)),
    ensures
        stable_sorted(s, leq).map_values(f) == stable_sorted(s.map_values(f), leq_image),
    decreases s.len(),
{
    if s.len() > 0 {
        lemma_sorted_map(s.drop_last(), f, leq, leq_image);
        lemma_inserted_map(stable_sorted(s.drop_last(), leq), s.last(), f, leq, leq_image);
        assert(s.map_values(f).drop_last() =~= s.drop_last().map_values(f));
    } else {
        assert(s.map_values(f) =~= Seq::empty());
    }
}

proof fn lemma_inserted_map<T, U>(
    s: Seq<T>,
    x: T,
    f: spec_fn(T) -> U,
    leq: spec_fn(T, T) -> bool,
    leq_image: spec_fn(U, U) -> bool,
)
    requires
        forall|a: T, b: T| #[trigger] leq(a, b) == leq_image(f(a), f(b)),
    ensures
        insert_sorted(s, x, leq).map_values(f) == insert_sorted(s.map_values(f), f(x), leq_image),
    decreases s.len(),
{
    if s.len() == 0 || leq(s.last(), x) {
        assert(s.push(x).map_values(f) =~= s.map_values(f).push(f(x)));
    } else {
        lemma_inserted_map(s.drop_last(), x, f, leq, leq_image);
        assert(s.map_values(f).drop_last() =~= s.drop_last().map_values(f));
        let t = insert_sorted(s.drop_last(), x, leq);
        assert(t.push(s.last()).map_values(f) =~= t.map_values(f).push(f(s.last())));
    }
}

/// Orders pairs of an address and a position by the address.
pub open spec fn by_address() -> spec_fn((u64, usize), (u64, usize)) -> bool {
    |a: (u64, usize), b: (u64, usize)| a.0 <= b.0
}

/// `slice::sort_by_key` with the address as its key: a stable sort.
#[verifier::external_body]
pub(crate) fn sort_by_address(v: &mut Vec<(u64, usize)>)
    ensures
        final(v)@ == stable_sorted(old(v)@, by_address()),
{
    v.sort_by_key(|e| e.0);
}

/// The first `n` elements of `s`, without those that have the address of the one
/// before.
pub open spec fn distinct(s: Seq<(u64, usize)>, n: int) -> Seq<(u64, usize)>
    decreases n,
{
    if n <= 0 {
        Seq::empty()
    } else {
        let before = distinct(s, n - 1);
        if before.len() > 0 && before.last().0 == s[n - 1].0 {
            before
        } else {
            before.push(s[n - 1])
        }
    }
}

/// `distinct` of ascending addresses is strictly ascending, and takes its
/// elements from the sequence.
pub proof fn lemma_distinct(s: Seq<(u64, usize)>, n: int)
    requires
        0 <= n <= s.len(),
        ascending(s, by_address()),
    ensures
        distinct(s, n).len() <= n,
        n > 0 ==> distinct(s, n).len() > 0 && distinct(s, n).last().0 == s[n - 1].0,
        forall|i: int, j: int|
            0 <= i < j < distinct(s, n).len() ==> (#[trigger] distinct(s, n)[i]).0 < (
            #[trigger] distinct(s, n)[j]).0,
        forall|i: int| 0 <= i < distinct(s, n).len() ==> s.contains(#[trigger] distinct(s, n)[i]),
    decreases n,
{
    if n > 0 {
        lemma_distinct(s, n - 1);
        let before = distinct(s, n - 1);
        if n > 1 {
            assert(by_address()(s[n - 2], s[n - 1]));
        }
        assert(s.contains(s[n - 1]));
        let r = distinct(s, n);
        assert forall|i: int, j: int| 0 <= i < j < r.len() implies (#[trigger] r[i]).0 < (
        #[trigger] r[j]).0 by {
            if j < before.len() {
                assert(before[i].0 < before[j].0);
            } else if i < before.len() - 1 {
                assert(before[i].0 < before[before.len() - 1].0);
            }
        }
    }
}

/// Later elements have a greater address, or the same and a greater number.
pub open spec fn number_order(s: Seq<(u64, usize)>) -> bool {
    forall|i: int, j: int|
        0 <= i < j < s.len() ==> (#[trigger] s[i]).0 < (#[trigger] s[j]).0 || (s[i].0 == s[j].0
            && s[i].1 < s[j].1)
}

proof fn lemma_insert_number(s: Seq<(u64, usize)>, x: (u64, usize))
    requires
        number_order(s),
        forall|i: int| 0 <= i < s.len() ==> (#[trigger] s[i]).1 < x.1,
    ensures
        number_order(insert_sorted(s, x, by_address())),
        forall|i: int|
            0 <= i < insert_sorted(s, x, by_address()).len() ==> (#[trigger] insert_sorted(
                s,
                x,
                by_address(),
            )[i]) == x || s.contains(insert_sorted(s, x, by_address())[i]),
    decreases s.len(),
{
    let r = insert_sorted(s, x, by_address());
    if s.len() > 0 && !by_address()(s.last(), x) {
        let rest = s.drop_last();
        lemma_insert_number(rest, x);
        let inner = insert_sorted(rest, x, by_address());
        assert forall|i: int| 0 <= i < inner.len() implies (#[trigger] inner[i]).0 < s.last().0 || (
        inner[i].0 == s.last().0 && inner[i].1 < s.last().1) by {
            if inner[i] != x {
                let k = choose|k: int| 0 <= k < rest.len() && rest[k] == inner[i];
                assert(s[k] == inner[i]);
                assert(s[s.len() - 1] == s.last());
            }
        }
        assert forall|i: int| 0 <= i < r.len() implies (#[trigger] r[i]) == x || s.contains(r[i]) by {
            if i < inner.len() && inner[i] != x {
                let k = choose|k: int| 0 <= k < rest.len() && rest[k] == inner[i];
                assert(s[k] == r[i]);
            } else if i == inner.len() {
                assert(s[s.len() - 1] == r[i]);
            }
        }
    } else {
        assert forall|i: int, j: int| 0 <= i < j < r.len() implies (#[trigger] r[i]).0 < (
        #[trigger] r[j]).0 || (r[i].0 == r[j].0 && r[i].1 < r[j].1) by {
            if j == s.len() {
                assert(s[s.len() - 1] == s.last());
            }
        }
        assert forall|i: int| 0 <= i < r.len() implies (#[trigger] r[i]) == x || s.contains(r[i]) by {
            if i < s.len() {
                assert(s[i] == r[i]);
            }
        }
    }
}

/// A stable sort by address keeps ascending numbers ascending where addresses are
/// equal.
pub proof fn lemma_stable_sorted_numbers(s: Seq<(u64, usize)>)
    requires
        forall|i: int, j: int| 0 <= i < j < s.len() ==> (#[trigger] s[i]).1 < (#[trigger] s[j]).1,
    ensures
        number_order(stable_sorted(s, by_address())),
    decreases s.len(),
{
    if s.len() > 0 {
        let rest = s.drop_last();
        lemma_stable_sorted_numbers(rest);
        let sorted = stable_sorted(rest, by_address());
        assert(total_preorder(by_address()));
        assert forall|i: int| 0 <= i < sorted.len() implies (#[trigger] sorted[i]).1
            < s.last().1 by {
            assert(sorted.contains(sorted[i]));
            lemma_stable_sorted_contains(rest, by_address(), sorted[i]);
            let k = choose|k: int| 0 <= k < rest.len() && rest[k] == sorted[i];
            assert(s[k] == sorted[i] && s[s.len() - 1] == s.last());
        }
        lemma_insert_number(sorted, s.last());
    }
}

/// `distinct` keeps the least number of each address.
pub proof fn lemma_distinct_is_first(s: Seq<(u64, usize)>, n: int, i: int)
    requires
        0 <= i < n <= s.len(),
        ascending(s, by_address()),
        number_order(s),
    ensures
        exists|k: int|
            0 <= k < distinct(s, n).len() && (#[trigger] distinct(s, n)[k]).0 == s[i].0 && distinct(
                s,
                n,
            )[k].1 <= s[i].1,
    decreases n,
{
    let before = distinct(s, n - 1);
    let after = distinct(s, n);
    if i < n - 1 {
        lemma_distinct_is_first(s, n - 1, i);
        let k = choose|k: int|
            0 <= k < before.len() && (#[trigger] before[k]).0 == s[i].0 && before[k].1 <= s[i].1;
        assert(after[k] == before[k]);
    } else {
        lemma_distinct(s, n - 1);
        if before.len() > 0 && before.last().0 == s[n - 1].0 {
            assert(n > 1);
            lemma_distinct_is_first(s, n - 1, n - 2);
            let k = choose|k: int|
                0 <= k < before.len() && (#[trigger] before[k]).0 == s[n - 2].0 && before[k].1
                    <= s[n - 2].1;
            assert(s[n - 2].1 < s[n - 1].1);
            assert(after[k] == before[k]);
        } else {
            assert(after[before.len() as int] == s[n - 1]);
        }
    }
}

/// The elements of `s`, without those that have the address of the one before.
pub fn without_repeats(s: &Vec<(u64, usize)>) -> (r: Vec<(u64, usize)>)
    ensures
        r@ == distinct(s@, s@.len() as int),
{
    let mut r: Vec<(u64, usize)> = Vec::new();
    let mut k: usize = 0;
    while k < s.len()
        invariant
            k <= s@.len(),
            r@ == distinct(s@, k as int),
        decreases s@.len() - k,
    {
        let e = s[k];
        if !(r.len() > 0 && r[r.len() - 1].0 == e.0) {
            r.push(e);
        }
        k = k + 1;
    }
    r
}

/// True when `a` is the greatest key that is not above `k`.
pub open spec fn is_floor(keys: Set<u64>, k: u64, a: u64) -> bool {
    &&& keys.contains(a)
    &&& a <= k
    &&& forall|b: u64| #[trigger] keys.contains(b) && b <= k ==> b <= a
}

/// The greatest key that is not above `k`, if there is one.
pub open spec fn floor(keys: Set<u64>, k: u64) -> Option<u64> {
    if exists|a: u64| is_floor(keys, k, a) {
        Some(choose|a: u64| is_floor(keys, k, a))
    } else {
        None
    }
}

/// `floor` is the one key that `is_floor` holds of.
pub proof fn lemma_floor_is(keys: Set<u64>, k: u64, a: u64)
    requires
        is_floor(keys, k, a),
    ensures
        floor(keys, k) == Some(a),
{
    let c = choose|c: u64| is_floor(keys, k, c);
    assert(is_floor(keys, k, c));
}

/// True when what starts at `a` and has `size` bytes holds `va`, or starts there, and
/// nothing else starts between the two.
pub open spec fn covers(starts: Set<u64>, a: u64, size: int, va: u64) -> bool {
    &&& starts.contains(a)
    &&& a == va || a <= va < a + size
    &&& forall|b: u64| #[trigger] starts.contains(b) ==> !(a < b <= va)
}

/// What covers an address starts at the greatest key that is not above it.
pub proof fn lemma_covers(starts: Set<u64>, va: u64)
    ensures
        forall|a: u64, size: int| #[trigger]
            covers(starts, a, size, va) ==> floor(starts, va) == Some(a),
        match floor(starts, va) {
            Some(a) => starts.contains(a) && a <= va && forall|b: u64| #[trigger]
                starts.contains(b) ==> !(a < b <= va),
            None => forall|b: u64| #[trigger] starts.contains(b) ==> b > va,
        },
{
    assert forall|a: u64, size: int| #[trigger] covers(starts, a, size, va) implies floor(
        starts,
        va,
    ) == Some(a) by {
        assert(is_floor(starts, va, a));
        lemma_floor_is(starts, va, a);
    }
    match floor(starts, va) {
        Some(a) => {
            assert(is_floor(starts, va, a));
        },
        None => {
            lemma_floor_exists(starts, va);
        },
    }
}

/// `BTreeMap::range(..=k)` walks the entries with keys up to `k` in ascending
/// order, so its `next_back` is the entry with the greatest of them.
#[verifier::external_body]
fn last_entry_up_to<V>(m: &BTreeMap<u64, V>, k: u64) -> (r: Option<(u64, &V)>)
    ensures
        match r {
            Some((a, v)) => is_floor(m@.dom(), k, a) && *v == m@[a],
            None => forall|b: u64| #[trigger] m@.dom().contains(b) ==> b > k,
        },
{
    m.range(..=k).next_back().map(|(a, v)| (*a, v))
}

/// The entry with the greatest key that is not above `k`.
pub fn floor_entry<V>(m: &BTreeMap<u64, V>, k: u64) -> (r: Option<(u64, &V)>)
    ensures
        match r {
            Some((a, v)) => floor(m@.dom(), k) == Some(a) && a <= k && m@.dom().contains(a) && *v
                == m@[a],
            None => floor(m@.dom(), k) is None,
        },
{
    let r = last_entry_up_to(m, k);
    proof {
        match r {
            Some((a, v)) => {
                lemma_floor_is(m@.dom(), k, a);
            },
            None => {},
        }
    }
    r
}

/// The keys from `lo` to `hi`, both included, in ascending order.
pub open spec fn keys_between(keys: Set<u64>, lo: u64, hi: u64) -> Seq<u64>
    decreases hi,
{
    match floor(keys, hi) {
        None => Seq::empty(),
        Some(a) => if a < lo || a > hi {
            Seq::empty()
        } else if a == 0 {
            seq![a]
        } else {
            keys_between(keys, lo, (a - 1) as u64).push(a)
        },
    }
}

/// `keys_between` is strictly ascending and holds exactly the keys in its range.
pub proof fn lemma_keys_between(keys: Set<u64>, lo: u64, hi: u64)
    ensures
        forall|k: u64| #[trigger]
            keys_between(keys, lo, hi).contains(k) <==> keys.contains(k) && lo <= k <= hi,
        forall|i: int, j: int|
            0 <= i < j < keys_between(keys, lo, hi).len() ==> #[trigger] keys_between(
                keys,
                lo,
                hi,
            )[i] < #[trigger] keys_between(keys, lo, hi)[j],
    decreases hi,
{
    let s = keys_between(keys, lo, hi);
    match floor(keys, hi) {
        None => {
            lemma_floor_exists(keys, hi);
        },
        Some(a) => {
            assert(is_floor(keys, hi, a));
            if a >= lo {
                if a == 0 {
                    assert forall|k: u64| #[trigger] s.contains(k) <==> keys.contains(k) && lo <= k
                        <= hi by {
                        assert(s[0] == 0);
                    }
                } else {
                    let p = (a - 1) as u64;
                    lemma_keys_between(keys, lo, p);
                    let t = keys_between(keys, lo, p);
                    assert forall|k: u64| #[trigger] s.contains(k) <==> keys.contains(k) && lo <= k
                        <= hi by {
                        if s.contains(k) {
                            let i = choose|i: int| 0 <= i < s.len() && s[i] == k;
                            if i < t.len() {
                                assert(t[i] == k);
                                assert(t.contains(k));
                            }
                        }
                        if keys.contains(k) && lo <= k <= hi {
                            if k == a {
                                assert(s[s.len() - 1] == k);
                            } else {
                                assert(t.contains(k));
                                let i = choose|i: int| 0 <= i < t.len() && t[i] == k;
                                assert(s[i] == k);
                            }
                        }
                    }
                    assert forall|i: int, j: int| 0 <= i < j < s.len() implies #[trigger] s[i]
                        < #[trigger] s[j] by {
                        if j == t.len() {
                            assert(t.contains(t[i]));
                        } else {
                            assert(t[i] < t[j]);
                        }
                    }
                }
            }
        },
    }
}

/// Where no key has the floor property, none lies at or below `k`.
pub proof fn lemma_floor_exists(keys: Set<u64>, k: u64)
    requires
        floor(keys, k) is None,
    ensures
        forall|b: u64| #[trigger] keys.contains(b) ==> b > k,
{
    assert forall|b: u64| #[trigger] keys.contains(b) implies b > k by {
        if b <= k {
            lemma_floor_from(keys, k, b);
        }
    }
}

/// From a key at or below `k` upwards there is a greatest one.
proof fn lemma_floor_from(keys: Set<u64>, k: u64, b: u64)
    requires
        keys.contains(b),
        b <= k,
    ensures
        exists|a: u64| is_floor(keys, k, a),
    decreases k - b,
{
    if exists|c: u64| #[trigger] keys.contains(c) && b < c <= k {
        let c = choose|c: u64| #[trigger] keys.contains(c) && b < c <= k;
        lemma_floor_from(keys, k, c);
    } else {
        assert(is_floor(keys, k, b));
    }
}

/// The keys from `lo` to `hi`, both included, in ascending order.
pub fn keys_in_range<V>(m: &BTreeMap<u64, V>, lo: u64, hi: u64) -> (r: Vec<u64>)
    ensures
        r@ == keys_between(m@.dom(), lo, hi),
{
    let mut down: Vec<u64> = Vec::new();
    let mut top: u64 = hi;
    let mut more: bool = true;
    while more
        invariant
            more ==> keys_between(m@.dom(), lo, hi) == keys_between(m@.dom(), lo, top)
                + down@.reverse(),
            !more ==> keys_between(m@.dom(), lo, hi) == down@.reverse(),
        decreases (if more { top + 1 } else { 0 }),
    {
        match floor_entry(m, top) {
            None => {
                assert(Seq::<u64>::empty() + down@.reverse() =~= down@.reverse());
                more = false;
            },
            Some((a, _)) => {
                if a < lo {
                    assert(Seq::<u64>::empty() + down@.reverse() =~= down@.reverse());
                    more = false;
                } else {
                    let ghost before = down@;
                    let ghost rest = if a == 0 {
                        Seq::<u64>::empty()
                    } else {
                        keys_between(m@.dom(), lo, (a - 1) as u64)
                    };
                    down.push(a);
                    assert(rest.push(a) + before.reverse() =~= rest + down@.reverse());
                    if a == 0 {
                        assert(rest.push(a) =~= seq![a]);
                        assert(rest + down@.reverse() =~= down@.reverse());
                        more = false;
                    } else {
                        top = a - 1;
                    }
                }
            },
        }
        assert(Seq::<u64>::empty() + down@.reverse() =~= down@.reverse());
    }
    let mut r: Vec<u64> = Vec::new();
    let mut i: usize = down.len();
    while i > 0
        invariant
            i <= down@.len(),
            r@ == down@.reverse().subrange(0, down@.len() - i),
        decreases i,
    {
        i = i - 1;
        r.push(down[i]);
        assert(r@ =~= down@.reverse().subrange(0, down@.len() - i));
    }
    assert(r@ =~= down@.reverse());
    r
}

} // verus!
