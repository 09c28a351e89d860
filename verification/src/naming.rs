//! Names for files that hold one thing each.
use vstd::prelude::*;

use crate::text::{digits, lemma_digits_distinct, object_file_char, spec_symbol_file};

verus! {

/// True when `@` does not stand in `s`.
pub open spec fn is_plain(s: Seq<char>) -> bool {
    forall|i: int| 0 <= i < s.len() ==> #[trigger] s[i] != '@'
}

/// A stem with a number behind it.
pub open spec fn numbered(stem: Seq<char>, number: u64) -> Seq<char> {
    stem.push('@') + digits(number as nat, 16)
}

/// The name for a stem behind the names in `before`: the stem itself, or, where that
/// is taken, the stem with its number.
pub open spec fn own_name(before: Seq<Seq<char>>, stem: Seq<char>, number: u64) -> Seq<char> {
    if before.contains(stem) {
        numbered(stem, number)
    } else {
        stem
    }
}

/// The names for stems with numbers, in order.
pub open spec fn own_names(keys: Seq<(Seq<char>, u64)>) -> Seq<Seq<char>>
    decreases keys.len(),
{
    if keys.len() == 0 {
        Seq::empty()
    } else {
        let before = own_names(keys.drop_last());
        before.push(own_name(before, keys.last().0, keys.last().1))
    }
}

/// Names with `end` behind each.
pub open spec fn ended(names: Seq<Seq<char>>, end: Seq<char>) -> Seq<Seq<char>> {
    names.map_values(|n: Seq<char>| n + end)
}

/// True when `m` has just these files, all different, and each of them its value.
pub open spec fn one_each<V>(m: Map<Seq<char>, V>, files: Seq<Seq<char>>, values: Seq<V>) -> bool {
    &&& files.len() == values.len()
    &&& files.no_duplicates()
    &&& forall|file: Seq<char>| #[trigger] m.contains_key(file) <==> files.contains(file)
    &&& forall|i: int| 0 <= i < files.len() ==> m[#[trigger] files[i]] == values[i]
}

/// True when the stems are plain and no two numbers are the same.
pub open spec fn keys_fit(keys: Seq<(Seq<char>, u64)>) -> bool {
    &&& forall|i: int| 0 <= i < keys.len() ==> is_plain((#[trigger] keys[i]).0)
    &&& forall|i: int, j: int|
        0 <= i < j < keys.len() ==> (#[trigger] keys[i]).1 != (#[trigger] keys[j]).1
}

/// Stems for symbols are plain.
pub proof fn lemma_stem_is_plain(name: Seq<char>)
    ensures
        is_plain(spec_symbol_file(name)),
{
    reveal_strlit("unknown");
    let safe = name.map_values(|c: char| object_file_char(c));
    assert forall|i: int| 0 <= i < safe.len() implies #[trigger] safe[i] != '@' by {
        assert(safe[i] == object_file_char(name[i]));
    }
    let start = crate::text::lead_end(safe, 0);
    crate::text::lemma_lead_end(safe, 0);
    let rest = safe.subrange(start, safe.len() as int);
    crate::text::lemma_fitting_chars(rest, 0, 0, 200);
    let cut = crate::text::byte_prefix(rest, 200);
    assert forall|i: int| 0 <= i < cut.len() implies #[trigger] cut[i] != '@' by {
        assert(cut[i] == safe[start + i]);
    }
}

/// A plain name is no numbered one, and numbered names have different numbers or are
/// the same.
proof fn lemma_numbered(a: Seq<char>, m: u64, b: Seq<char>, n: u64)
    requires
        is_plain(a),
        is_plain(b),
    ensures
        numbered(a, m) != b,
        numbered(a, m) == numbered(b, n) ==> m == n,
{
    let x = numbered(a, m);
    let y = numbered(b, n);
    assert(x[a.len() as int] == '@');
    assert(y[b.len() as int] == '@');
    if x == b {
        assert(b[a.len() as int] == '@');
    }
    if x == y {
        if a.len() < b.len() {
            assert(y[a.len() as int] == b[a.len() as int]);
        } else if b.len() < a.len() {
            assert(x[b.len() as int] == a[b.len() as int]);
        }
        assert(digits(m as nat, 16) =~= x.subrange(a.len() as int + 1, x.len() as int));
        assert(digits(n as nat, 16) =~= y.subrange(b.len() as int + 1, y.len() as int));
        lemma_digits_distinct(m as nat, n as nat, 16);
    }
}

/// Each name is its stem, or its stem with its number.
proof fn lemma_own_names(keys: Seq<(Seq<char>, u64)>)
    ensures
        own_names(keys).len() == keys.len(),
        forall|i: int|
            0 <= i < keys.len() ==> (#[trigger] own_names(keys)[i]) == keys[i].0 || own_names(
                keys,
            )[i] == numbered(keys[i].0, keys[i].1),
    decreases keys.len(),
{
    if keys.len() > 0 {
        lemma_own_names(keys.drop_last());
        assert forall|i: int| 0 <= i < keys.len() implies (#[trigger] own_names(keys)[i])
            == keys[i].0 || own_names(keys)[i] == numbered(keys[i].0, keys[i].1) by {
            if i < keys.len() - 1 {
                assert(own_names(keys)[i] == own_names(keys.drop_last())[i]);
                assert(keys.drop_last()[i] == keys[i]);
            }
        }
    }
}

/// There is a name for every stem, and no two names are the same.
pub proof fn law_names_are_own(keys: Seq<(Seq<char>, u64)>)
    requires
        keys_fit(keys),
    ensures
        own_names(keys).len() == keys.len(),
        own_names(keys).no_duplicates(),
    decreases keys.len(),
{
    lemma_own_names(keys);
    if keys.len() > 0 {
        let rest = keys.drop_last();
        assert forall|i: int| 0 <= i < rest.len() implies is_plain((#[trigger] rest[i]).0) by {
            assert(rest[i] == keys[i]);
        }
        assert forall|i: int, j: int| 0 <= i < j < rest.len() implies (#[trigger] rest[i]).1 != (
        #[trigger] rest[j]).1 by {
            assert(rest[i] == keys[i] && rest[j] == keys[j]);
        }
        law_names_are_own(rest);
        lemma_own_names(rest);
        let before = own_names(rest);
        let last = own_names(keys).last();
        let key = keys[keys.len() - 1];
        assert forall|i: int| 0 <= i < before.len() implies (#[trigger] before[i]) != last by {
            assert(rest[i] == keys[i]);
            if before.contains(key.0) {
                lemma_numbered(key.0, key.1, keys[i].0, keys[i].1);
            } else {
                assert(before.contains(before[i]));
            }
        }
        assert(own_names(keys) =~= before.push(last));
    }
}

/// Names stay different with the same text behind each.
pub proof fn lemma_ended(names: Seq<Seq<char>>, end: Seq<char>)
    ensures
        forall|n: Seq<char>| #[trigger]
            ended(names, end).contains(n + end) <==> names.contains(n),
        names.no_duplicates() ==> ended(names, end).no_duplicates(),
{
    let files = ended(names, end);
    assert forall|n: Seq<char>| #[trigger] files.contains(n + end) <==> names.contains(n) by {
        if files.contains(n + end) {
            let i = choose|i: int| 0 <= i < files.len() && files[i] == n + end;
            assert(files[i] == names[i] + end);
            lemma_stripped(n, names[i], end);
            assert(names.contains(names[i]));
        }
        if names.contains(n) {
            let i = choose|i: int| 0 <= i < names.len() && names[i] == n;
            assert(files[i] == n + end);
        }
    }
    if names.no_duplicates() {
        assert forall|i: int, j: int| 0 <= i < files.len() && 0 <= j < files.len() && i
            != j implies files[i] != files[j] by {
            if files[i] == files[j] {
                lemma_stripped(names[i], names[j], end);
            }
        }
    }
}

proof fn lemma_stripped(a: Seq<char>, b: Seq<char>, end: Seq<char>)
    requires
        a + end == b + end,
    ensures
        a == b,
{
    assert((a + end).len() == (b + end).len());
    assert(a =~= (a + end).subrange(0, a.len() as int));
    assert(b =~= (b + end).subrange(0, b.len() as int));
}

/// One file more, under the name for its stem, leaves each file with its value.
pub proof fn lemma_one_more<V>(
    m: Map<Seq<char>, V>,
    keys: Seq<(Seq<char>, u64)>,
    end: Seq<char>,
    values: Seq<V>,
    value: V,
)
    requires
        keys.len() > 0,
        keys_fit(keys),
        one_each(m, ended(own_names(keys.drop_last()), end), values),
    ensures
        one_each(
            m.insert(
                own_name(own_names(keys.drop_last()), keys.last().0, keys.last().1) + end,
                value,
            ),
            ended(own_names(keys), end),
            values.push(value),
        ),
{
    let before = own_names(keys.drop_last());
    let name = own_name(before, keys.last().0, keys.last().1);
    law_names_are_own(keys);
    lemma_ended(own_names(keys), end);
    lemma_ended(before, end);
    let old_files = ended(before, end);
    let files = ended(own_names(keys), end);
    assert(files =~= old_files.push(name + end));
    let next = m.insert(name + end, value);
    assert forall|file: Seq<char>| #[trigger] next.contains_key(file) <==> files.contains(
        file,
    ) by {
        if files.contains(file) {
            let i = choose|i: int| 0 <= i < files.len() && files[i] == file;
            if i < old_files.len() {
                assert(old_files[i] == file);
                assert(old_files.contains(file));
            }
        }
        if next.contains_key(file) {
            if file == name + end {
                assert(files[files.len() - 1] == file);
            } else {
                let i = choose|i: int| 0 <= i < old_files.len() && old_files[i] == file;
                assert(old_files.contains(file));
                assert(files[i] == file);
            }
        }
    }
    assert forall|i: int| 0 <= i < files.len() implies next[#[trigger] files[i]]
        == values.push(value)[i] by {
        if i < old_files.len() {
            assert(files[i] == old_files[i]);
            assert(files[i] != files[files.len() - 1]);
        }
    }
}

} // verus!
