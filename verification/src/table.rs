//! Tables of values under names, in the order of the names.
use vstd::prelude::*;

use crate::text::{comes_before, lemma_text_lt, text_lt};

verus! {

/// Values under names. Each name stands once, and the names ascend.
pub struct NamedTable<V> {
    pub entries: Vec<(String, V)>,
}

/// True when `name` stands at `i`.
pub open spec fn stands_at<V>(entries: Seq<(String, V)>, name: Seq<char>, i: int) -> bool {
    0 <= i < entries.len() && entries[i].0@ == name
}

impl<V> View for NamedTable<V> {
    type V = Map<Seq<char>, V>;

    open spec fn view(&self) -> Map<Seq<char>, V> {
        Map::new(
            |name: Seq<char>| exists|i: int| stands_at(self.entries@, name, i),
            |name: Seq<char>| self.entries@[choose|i: int| stands_at(self.entries@, name, i)].1,
        )
    }
}

impl<V> NamedTable<V> {
    /// The names ascend, so that each stands once.
    pub open spec fn wf(&self) -> bool {
        forall|i: int, j: int|
            0 <= i < j < self.entries@.len() ==> text_lt(
                (#[trigger] self.entries@[i]).0@,
                (#[trigger] self.entries@[j]).0@,
            )
    }

    /// What stands at `i` is what the table has under that name.
    pub proof fn lemma_stands(&self, i: int)
        requires
            self.wf(),
            0 <= i < self.entries@.len(),
        ensures
            self@.contains_key(self.entries@[i].0@),
            self@[self.entries@[i].0@] == self.entries@[i].1,
    {
        let name = self.entries@[i].0@;
        assert(stands_at(self.entries@, name, i));
        let k = choose|k: int| stands_at(self.entries@, name, k);
        if k != i {
            lemma_text_lt(self.entries@[k].0@, self.entries@[i].0@);
        }
    }

    /// The entries are what the table holds, each name once and in order.
    pub proof fn law_entries_are_in_order(&self)
        requires
            self.wf(),
        ensures
            forall|i: int|
                0 <= i < self.entries@.len() ==> self@.contains_key(
                    (#[trigger] self.entries@[i]).0@,
                ) && self@[self.entries@[i].0@] == self.entries@[i].1,
            forall|i: int, j: int|
                0 <= i < j < self.entries@.len() ==> text_lt(
                    (#[trigger] self.entries@[i]).0@,
                    (#[trigger] self.entries@[j]).0@,
                ),
            forall|name: Seq<char>| #[trigger]
                self@.contains_key(name) ==> exists|i: int| stands_at(self.entries@, name, i),
    {
        assert forall|i: int| 0 <= i < self.entries@.len() implies self@.contains_key(
            (#[trigger] self.entries@[i]).0@,
        ) && self@[self.entries@[i].0@] == self.entries@[i].1 by {
            self.lemma_stands(i);
        }
    }

    /// A table without names.
    pub fn new() -> (t: NamedTable<V>)
        ensures
            t.wf(),
            t@ == Map::<Seq<char>, V>::empty(),
            t.entries@.len() == 0,
    {
        let t = NamedTable { entries: Vec::new() };
        assert(t@ =~= Map::<Seq<char>, V>::empty());
        t
    }

    /// Number of names that come before `name`.
    fn rank(&self, name: &str) -> (n: usize)
        requires
            self.wf(),
        ensures
            n <= self.entries@.len(),
            forall|i: int| 0 <= i < n ==> text_lt((#[trigger] self.entries@[i]).0@, name@),
            forall|i: int|
                n <= i < self.entries@.len() ==> !text_lt(
                    (#[trigger] self.entries@[i]).0@,
                    name@,
                ),
    {
        let mut lo: usize = 0;
        let mut hi: usize = self.entries.len();
        while lo < hi
            invariant
                self.wf(),
                lo <= hi <= self.entries@.len(),
                forall|i: int| 0 <= i < lo ==> text_lt((#[trigger] self.entries@[i]).0@, name@),
                forall|i: int|
                    hi <= i < self.entries@.len() ==> !text_lt(
                        (#[trigger] self.entries@[i]).0@,
                        name@,
                    ),
            decreases hi - lo,
        {
            let mid: usize = lo + (hi - lo) / 2;
            let ghost at = self.entries@[mid as int].0@;
            if comes_before(self.entries[mid].0.as_str(), name) {
                proof {
                    assert forall|i: int| 0 <= i < mid + 1 implies text_lt(
                        (#[trigger] self.entries@[i]).0@,
                        name@,
                    ) by {
                        if i < mid {
                            crate::text::lemma_text_lt_chain(self.entries@[i].0@, at, name@);
                        }
                    }
                }
                lo = mid + 1;
            } else {
                proof {
                    assert forall|i: int| mid <= i < self.entries@.len() implies !text_lt(
                        (#[trigger] self.entries@[i]).0@,
                        name@,
                    ) by {
                        if i > mid && text_lt(self.entries@[i].0@, name@) {
                            crate::text::lemma_text_lt_chain(at, self.entries@[i].0@, name@);
                        }
                    }
                }
                hi = mid;
            }
        }
        lo
    }

    /// Where a name stands.
    pub fn position(&self, name: &str) -> (r: Option<usize>)
        requires
            self.wf(),
        ensures
            match r {
                Some(i) => stands_at(self.entries@, name@, i as int) && self@.contains_key(name@)
                    && self@[name@] == self.entries@[i as int].1,
                None => !self@.contains_key(name@),
            },
    {
        let n = self.rank(name);
        if n < self.entries.len() && !comes_before(name, self.entries[n].0.as_str()) {
            proof {
                lemma_text_lt(self.entries@[n as int].0@, name@);
                self.lemma_stands(n as int);
            }
            return Some(n);
        }
        proof {
            assert forall|i: int| !stands_at(self.entries@, name@, i) by {
                if stands_at(self.entries@, name@, i) {
                    lemma_text_lt(name@, name@);
                    if i > n {
                        assert(text_lt(self.entries@[n as int].0@, self.entries@[i].0@));
                    }
                }
            }
        }
        None
    }

    /// Puts a value under a name.
    pub fn set(&mut self, name: String, value: V)
        requires
            old(self).wf(),
        ensures
            final(self).wf(),
            final(self)@ == old(self)@.insert(name@, value),
            forall|i: int|
                0 <= i < final(self).entries@.len() ==> (#[trigger] final(self).entries@[i]).1
                    == value || old(self).entries@.contains(final(self).entries@[i]),
    {
        let ghost key = name@;
        let ghost before = *self;
        match self.position(name.as_str()) {
            Some(i) => {
                self.entries[i].1 = value;
                proof {
                    lemma_set(before, *self, key, value, i as int);
                    assert forall|k: int| 0 <= k < self.entries@.len() implies (
                    #[trigger] self.entries@[k]).1 == value || before.entries@.contains(
                        self.entries@[k],
                    ) by {
                        if k != i {
                            assert(before.entries@[k] == self.entries@[k]);
                        }
                    }
                }
            },
            None => {
                let n = self.rank(name.as_str());
                proof {
                    assert forall|i: int| n <= i < before.entries@.len() implies text_lt(
                        key,
                        (#[trigger] before.entries@[i]).0@,
                    ) by {
                        lemma_text_lt(key, before.entries@[i].0@);
                        assert(!stands_at(before.entries@, key, i));
                    }
                }
                self.entries.insert(n, (name, value));
                proof {
                    let entries = self.entries@;
                    assert(entries =~= before.entries@.insert(n as int, (name, value)));
                    assert forall|i: int, j: int| 0 <= i < j < entries.len() implies text_lt(
                        (#[trigger] entries[i]).0@,
                        (#[trigger] entries[j]).0@,
                    ) by {
                        if i != n && j != n {
                            let a = if i < n {
                                i
                            } else {
                                i - 1
                            };
                            let b = if j < n {
                                j
                            } else {
                                j - 1
                            };
                            assert(before.entries@[a] == entries[i]);
                            assert(before.entries@[b] == entries[j]);
                        } else if i == n {
                            assert(before.entries@[j - 1] == entries[j]);
                        } else {
                            assert(before.entries@[i] == entries[i]);
                        }
                    }
                    lemma_inserted(before, *self, key, value, n as int);
                    assert forall|k: int| 0 <= k < entries.len() implies (
                    #[trigger] entries[k]).1 == value || before.entries@.contains(
                        entries[k],
                    ) by {
                        if k < n {
                            assert(before.entries@[k] == entries[k]);
                        } else if k > n {
                            assert(before.entries@[k - 1] == entries[k]);
                        }
                    }
                }
            },
        }
    }
}

proof fn lemma_set<V>(
    a: NamedTable<V>,
    b: NamedTable<V>,
    name: Seq<char>,
    value: V,
    i: int,
)
    requires
        a.wf(),
        stands_at(a.entries@, name, i),
        b.entries@.len() == a.entries@.len(),
        b.entries@[i].1 == value,
        forall|k: int|
            0 <= k < a.entries@.len() ==> (#[trigger] b.entries@[k]).0@ == a.entries@[k].0@,
        forall|k: int|
            0 <= k < a.entries@.len() && k != i ==> (#[trigger] b.entries@[k]) == a.entries@[k],
    ensures
        b.wf(),
        b@ == a@.insert(name, value),
{
    assert forall|j: int, k: int| 0 <= j < k < b.entries@.len() implies text_lt(
        (#[trigger] b.entries@[j]).0@,
        (#[trigger] b.entries@[k]).0@,
    ) by {
        assert(text_lt(a.entries@[j].0@, a.entries@[k].0@));
    }
    lemma_same_names(a, b, name, value);
}

proof fn lemma_inserted<V>(
    a: NamedTable<V>,
    b: NamedTable<V>,
    name: Seq<char>,
    value: V,
    n: int,
)
    requires
        a.wf(),
        b.wf(),
        0 <= n <= a.entries@.len(),
        b.entries@.len() == a.entries@.len() + 1,
        stands_at(b.entries@, name, n),
        b.entries@[n].1 == value,
        forall|k: int| 0 <= k < n ==> (#[trigger] b.entries@[k]) == a.entries@[k],
        forall|k: int| n <= k < a.entries@.len() ==> b.entries@[k + 1] == #[trigger] a.entries@[k],
    ensures
        b@ == a@.insert(name, value),
{
    assert forall|x: Seq<char>| #[trigger] b@.contains_key(x) implies a@.insert(
        name,
        value,
    ).contains_key(x) && a@.insert(name, value)[x] == b@[x] by {
        let i = choose|i: int| stands_at(b.entries@, x, i);
        b.lemma_stands(i);
        if i < n {
            a.lemma_stands(i);
            lemma_text_lt(b.entries@[i].0@, b.entries@[n].0@);
        } else if i > n {
            assert(b.entries@[i] == a.entries@[i - 1]) by {
                assert(b.entries@[(i - 1) + 1] == a.entries@[i - 1]);
            }
            a.lemma_stands(i - 1);
            lemma_text_lt(b.entries@[n].0@, b.entries@[i].0@);
        }
    }
    assert forall|x: Seq<char>| #[trigger] a@.insert(name, value).contains_key(
        x,
    ) implies b@.contains_key(x) by {
        if x == name {
            b.lemma_stands(n);
        } else {
            let i = choose|i: int| stands_at(a.entries@, x, i);
            if i < n {
                assert(b.entries@[i] == a.entries@[i]);
                b.lemma_stands(i);
            } else {
                assert(b.entries@[i + 1] == a.entries@[i]);
                b.lemma_stands(i + 1);
            }
        }
    }
    assert(b@ =~= a@.insert(name, value));
}

proof fn lemma_same_names<V>(a: NamedTable<V>, b: NamedTable<V>, name: Seq<char>, value: V)
    requires
        a.wf(),
        b.wf(),
        a@.contains_key(name),
        a.entries@.len() == b.entries@.len(),
        forall|k: int|
            0 <= k < a.entries@.len() ==> (#[trigger] b.entries@[k]).0@ == a.entries@[k].0@,
        forall|k: int|
            0 <= k < a.entries@.len() ==> (#[trigger] b.entries@[k]).1 == if a.entries@[k].0@
                == name {
                value
            } else {
                a.entries@[k].1
            },
    ensures
        b@ == a@.insert(name, value),
{
    assert forall|x: Seq<char>| #[trigger] b@.contains_key(x) implies a@.insert(
        name,
        value,
    ).contains_key(x) && a@.insert(name, value)[x] == b@[x] by {
        let i = choose|i: int| stands_at(b.entries@, x, i);
        b.lemma_stands(i);
        assert(b.entries@[i].0@ == a.entries@[i].0@);
        a.lemma_stands(i);
    }
    assert forall|x: Seq<char>| #[trigger] a@.insert(name, value).contains_key(
        x,
    ) implies b@.contains_key(x) by {
        let i = choose|i: int| stands_at(a.entries@, x, i);
        assert(b.entries@[i].0@ == a.entries@[i].0@);
        b.lemma_stands(i);
    }
    assert(b@ =~= a@.insert(name, value));
}

} // verus!
