use delink::elf::symtab::{
    collect_text_functions, find_orphan_regions, is_padding, FileGroup, StaticSymbol, SymtabIndex,
    ORPHAN_PREFIX, STB_LOCAL, STT_FUNC, UNATTRIBUTED,
};

fn sym(name: &str, value: u64, size: u64, sym_type: u8) -> StaticSymbol {
    StaticSymbol {
        name: name.to_string(),
        value,
        size,
        sym_type,
        bind: STB_LOCAL,
        shndx: 1,
    }
}

#[test]
fn zero_sized_functions_get_a_size_from_the_next_symbol() {
    let syms = vec![
        sym("a", 0x100, 0x40, STT_FUNC),
        sym("asm_helper", 0x140, 0, STT_FUNC),
        sym("b", 0x180, 0x20, STT_FUNC),
    ];
    let fns = collect_text_functions(&syms, Some(1), 0x200);
    let sizes: Vec<(u64, u64)> = fns.iter().map(|f| (f.value, f.size)).collect();
    assert_eq!(sizes, vec![(0x100, 0x40), (0x140, 0x40), (0x180, 0x20)]);
}

#[test]
fn the_last_zero_sized_function_runs_to_the_end_of_text() {
    let syms = vec![sym("tail", 0x100, 0, STT_FUNC)];
    let fns = collect_text_functions(&syms, Some(1), 0x180);
    assert_eq!(fns.len(), 1);
    assert_eq!(fns[0].size, 0x80);
}

/// Aliases at one address collapse to a single entry, and the one that
/// carries a size wins so its extent isn't lost.
#[test]
fn aliases_collapse_preferring_the_sized_symbol() {
    let syms = vec![
        sym("alias", 0x100, 0, STT_FUNC),
        sym("real", 0x100, 0x40, STT_FUNC),
    ];
    let fns = collect_text_functions(&syms, Some(1), 0x200);
    assert_eq!(fns.len(), 1);
    assert_eq!(fns[0].name, "real");
    assert_eq!(fns[0].size, 0x40);
}

/// A secondary entry point inside another function must not be emitted as
/// its own function — that would duplicate the bytes.
#[test]
fn interior_entry_points_fold_into_the_enclosing_function() {
    let syms = vec![
        sym("outer", 0x100, 0x80, STT_FUNC),
        sym("inner_entry", 0x120, 0x60, STT_FUNC),
        sym("next", 0x180, 0x10, STT_FUNC),
    ];
    let fns = collect_text_functions(&syms, Some(1), 0x200);
    let names: Vec<&str> = fns.iter().map(|f| f.name.as_str()).collect();
    assert_eq!(names, vec!["outer", "next"]);
    let total: u64 = fns.iter().map(|f| f.size).sum();
    assert_eq!(total, 0x90, "bytes must be covered exactly once");
}

#[test]
fn symbols_outside_text_are_ignored() {
    let mut elsewhere = sym("data_thing", 0x100, 4, STT_FUNC);
    elsewhere.shndx = 9;
    let fns = collect_text_functions(&[elsewhere], Some(1), 0x200);
    assert!(fns.is_empty());
}

#[test]
fn uncovered_code_becomes_an_orphan_but_padding_does_not() {
    let named = vec![sym("a", 0x1000, 8, STT_FUNC), sym("b", 0x1020, 8, STT_FUNC)];
    let mut text = Vec::new();
    text.extend_from_slice(&[0u8; 8]); // a
    text.extend_from_slice(&0xe52d_e004u32.to_le_bytes()); // real code
    text.extend_from_slice(&0xe1a0_0000u32.to_le_bytes()); // still the gap
    text.extend_from_slice(&[0u8; 8]); // padding before b
    text.extend_from_slice(&[0u8; 8]); // b
    text.extend_from_slice(&[0u8; 8]); // trailing padding

    let orphans = find_orphan_regions(&named, 0x1000, &text, 0x1030);
    assert_eq!(orphans.len(), 1, "only the run holding real code counts");
    assert_eq!(orphans[0].value, 0x1008);
    assert_eq!(orphans[0].size, 0x18);
    assert!(orphans[0].name.starts_with(ORPHAN_PREFIX));
}

#[test]
fn padding_recognizes_zero_and_both_nop_encodings() {
    assert!(is_padding(&[0u8; 8]));
    assert!(is_padding(&0xe1a0_0000u32.to_le_bytes()));
    assert!(is_padding(&0xe320_f000u32.to_le_bytes()));
    assert!(!is_padding(&0xe52d_e004u32.to_le_bytes()));
    // A trailing partial word is not padding: it is unexplained data.
    assert!(!is_padding(&[0u8; 3]));
}

#[test]
fn functions_go_to_the_first_group_of_the_nearest_anchor() {
    let group = |file: &str, anchor: Option<u64>| FileGroup {
        file: file.to_string(),
        anchor,
        locals: vec![],
    };
    let index = SymtabIndex {
        symbols: vec![
            sym("early", 0x80, 0x10, STT_FUNC),
            sym("a", 0x100, 0x40, STT_FUNC),
            sym("b", 0x200, 0x40, STT_FUNC),
            sym("c", 0x300, 0x40, STT_FUNC),
            sym("d", 0x400, 0x40, STT_FUNC),
        ],
        groups: vec![
            group("late.c", Some(0x200)),
            group("first.c", Some(0x100)),
            group("second.c", Some(0x200)),
            group("data.c", None),
            group("first.c", Some(0x380)),
        ],
        text_shndx: Some(1),
        text_end: 0x440,
        orphans: vec![],
    };
    let files: Vec<Option<String>> = index.attribute_functions().into_iter().map(|e| e.1).collect();
    let name = |s: &str| Some(s.to_string());
    assert_eq!(
        files,
        vec![None, name("first.c"), name("late.c"), name("late.c"), name("first.c")]
    );
    let units: Vec<(String, Vec<String>)> = index
        .to_cu_index()
        .units
        .into_iter()
        .map(|u| (u.name, u.functions.into_iter().map(|f| f.name).collect()))
        .collect();
    let unit = |name: &str, functions: &[&str]| {
        (name.to_string(), functions.iter().map(|f| f.to_string()).collect::<Vec<String>>())
    };
    assert_eq!(
        units,
        vec![
            unit(UNATTRIBUTED, &["early"]),
            unit("first.c", &["a", "d"]),
            unit("late.c", &["b", "c"]),
        ]
    );
}
