use std::collections::BTreeMap;

use delink::listing::{list_units, Listing};
use delink::ordered::{floor_entry, keys_in_range, without_repeats};
use delink::table::NamedTable;

#[test]
fn the_nearest_key_below_is_found() {
    let m = BTreeMap::from([(10u64, "a"), (20, "b")]);
    assert_eq!(floor_entry(&m, 9), None);
    assert_eq!(floor_entry(&m, 10), Some((10, &"a")));
    assert_eq!(floor_entry(&m, 19), Some((10, &"a")));
    assert_eq!(floor_entry(&m, u64::MAX), Some((20, &"b")));
}

#[test]
fn keys_of_a_range_ascend() {
    let m = BTreeMap::from([(0u64, ()), (5, ()), (7, ()), (u64::MAX, ())]);
    assert_eq!(keys_in_range(&m, 0, u64::MAX), vec![0, 5, 7, u64::MAX]);
    assert_eq!(keys_in_range(&m, 1, 7), vec![5, 7]);
    assert_eq!(keys_in_range(&m, 8, 9), Vec::<u64>::new());
}

#[test]
fn repeated_addresses_go() {
    let v = vec![(1u64, 0usize), (1, 1), (2, 2), (1, 3)];
    assert_eq!(without_repeats(&v), vec![(1, 0), (2, 2), (1, 3)]);
}

fn row(bytes: u64, functions: usize, name: &str) -> Listing {
    Listing {
        bytes,
        functions,
        name: name.to_string(),
    }
}

#[test]
fn lists_are_filtered_sorted_and_cut() {
    let rows = vec![
        row(30, 1, "a.cpp"),
        row(10, 2, "b.cpp"),
        row(10, 3, "c.cpp"),
        row(5, 4, "d.rs"),
    ];
    let names: Vec<String> = list_units(&rows, ".cpp", 2)
        .into_iter()
        .map(|r| r.name)
        .collect();
    assert_eq!(names, vec!["b.cpp", "c.cpp"]);
    let all = list_units(&rows, "", 20);
    let bytes: Vec<u64> = all.iter().map(|r| r.bytes).collect();
    assert_eq!(bytes, vec![5, 10, 10, 30]);
    assert_eq!(all[3].functions, 1);
}

#[test]
fn tables_keep_one_value_per_name() {
    let mut t: NamedTable<u32> = NamedTable::new();
    t.set("a".to_string(), 1);
    t.set("b".to_string(), 2);
    t.set("a".to_string(), 3);
    assert_eq!(t.entries.len(), 2);
    assert_eq!(t.position("a"), Some(0));
    assert_eq!(t.entries[0].1, 3);
    assert_eq!(t.position("c"), None);
}

#[test]
fn tables_are_in_the_order_of_their_names() {
    let mut t: NamedTable<u32> = NamedTable::new();
    for (i, name) in ["m", "z", "", "ma", "\u{e9}", "M"].iter().enumerate() {
        t.set(name.to_string(), i as u32);
    }
    let names: Vec<&str> = t.entries.iter().map(|e| e.0.as_str()).collect();
    assert_eq!(names, vec!["", "M", "m", "ma", "z", "\u{e9}"]);
    assert_eq!(t.position("ma"), Some(3));
    assert_eq!(t.entries[3].1, 3);
}
