use std::collections::BTreeMap;

use delink::elf::symbols::{
    arm_expand_imm12, arm_plt_entry_got_slot, disambiguate_names, FunctionRef, VariableRef,
};

/// The classic 12-byte AAELF PLT entry, taken verbatim from a gold-linked
/// Android `.so`:
///
/// ```text
///   1576fc: add ip, pc, #0x100000
///   157700: add ip, ip, #168, 20
///   157704: ldr pc, [ip, #0x64c]!
/// ```
///
/// which dispatches through the `.got` slot at 0x2ffd50.
#[test]
fn arm_plt_entry_decodes_to_its_got_slot() {
    let mut bytes = Vec::new();
    for word in [0xe28f_c601u32, 0xe28c_caa8, 0xe5bc_f64c] {
        bytes.extend_from_slice(&word.to_le_bytes());
    }
    assert_eq!(arm_plt_entry_got_slot(&bytes, 0x1576fc), Some(0x2ffd50));
}

#[test]
fn non_plt_bytes_decode_to_nothing() {
    let bytes = [0u8; 12];
    assert_eq!(arm_plt_entry_got_slot(&bytes, 0x1000), None);
}

#[test]
fn modified_immediates_rotate_by_twice_the_field() {
    assert_eq!(arm_expand_imm12(0x001), 1);
    // 0x601: value 0x01 rotated right by 12 -> 0x0010_0000.
    assert_eq!(arm_expand_imm12(0x601), 0x0010_0000);
    // 0xaa8: value 0xa8 rotated right by 20 -> 0x000a_8000.
    assert_eq!(arm_expand_imm12(0xaa8), 0x000a_8000);
}

fn func(name: &str) -> FunctionRef {
    FunctionRef {
        cu_id: 0,
        name: name.to_string(),
        linkage_name: None,
        size: 4,
        external: false,
    }
}

fn var(name: &str) -> VariableRef {
    VariableRef {
        cu_id: 0,
        name: name.to_string(),
        linkage_name: None,
        external: false,
    }
}

/// `static` definitions from different translation units share names. Once
/// split apart they are referenced across objects by name, so every
/// colliding definition has to be renamed — including across the function
/// and variable namespaces.
#[test]
fn colliding_names_are_renamed_by_address() {
    let mut functions = BTreeMap::from([(0x100, func("shared")), (0x200, func("unique"))]);
    let mut variables = BTreeMap::from([(0x300, var("shared")), (0x400, var("counter"))]);

    disambiguate_names(&mut functions, &mut variables);

    assert_eq!(functions[&0x100].export_name(), "shared.100");
    assert_eq!(variables[&0x300].export_name(), "shared.300");
    assert_eq!(functions[&0x200].export_name(), "unique");
    assert_eq!(variables[&0x400].export_name(), "counter");
}

#[test]
fn unique_names_are_left_alone() {
    let mut functions = BTreeMap::from([(0x100, func("a")), (0x200, func("b"))]);
    let mut variables = BTreeMap::from([(0x300, var("c"))]);
    disambiguate_names(&mut functions, &mut variables);
    assert!(functions.values().all(|f| f.linkage_name.is_none()));
    assert!(variables.values().all(|v| v.linkage_name.is_none()));
}

#[test]
fn renaming_is_driven_by_the_exported_name() {
    // Two functions whose `name` differs but whose linkage name collides.
    let mut a = func("one");
    a.linkage_name = Some("_Zmangled".into());
    let mut b = func("two");
    b.linkage_name = Some("_Zmangled".into());
    let mut functions = BTreeMap::from([(0x10, a), (0x20, b)]);
    let mut variables = BTreeMap::new();
    disambiguate_names(&mut functions, &mut variables);
    assert_eq!(functions[&0x10].export_name(), "_Zmangled.10");
    assert_eq!(functions[&0x20].export_name(), "_Zmangled.20");
}

#[test]
fn a_function_and_a_datum_at_one_address_keep_different_names() {
    let mut functions = BTreeMap::from([(0x10, func("f")), (0x20, func("f"))]);
    let mut variables = BTreeMap::from([(0x10, var("v")), (0x30, var("v"))]);
    disambiguate_names(&mut functions, &mut variables);
    assert_eq!(functions[&0x10].export_name(), "f.10");
    assert_eq!(functions[&0x20].export_name(), "f.20");
    assert_eq!(variables[&0x10].export_name(), "v.10");
    assert_eq!(variables[&0x30].export_name(), "v.30");
}
