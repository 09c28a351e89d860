use std::collections::{BTreeMap, HashMap};

use delink::macho::cu::{MachoFunction, MachoVariable};
use delink::macho::symbols::MachoGlobalSymbols;
use delink::pe::cu::{PeFunction, PeVariable};
use delink::pe::image::PeSection;
use delink::pe::symbols::PeGlobalSymbols;
use delink::{x86, x86_64};

fn macho_symbols() -> MachoGlobalSymbols {
    let f = |name: &str, addr: u64, size: u64| MachoFunction {
        name: name.to_string(),
        linkage_name: None,
        addr,
        size,
        external: true,
    };
    MachoGlobalSymbols {
        functions: BTreeMap::from([
            (0x1000, f("here", 0x1000, 0x40)),
            (0x2000, f("there", 0x2000, 0x10)),
        ]),
        variables: BTreeMap::from([(
            0x5000,
            MachoVariable {
                name: "v".to_string(),
                linkage_name: None,
                addr: 0x5000,
                external: true,
            },
        )]),
        stubs: HashMap::from([(0x3000, "puts".to_string())]),
        text_range: Some(0x1000..0x3000),
        data_range: Some(0x5000..0x6000),
        const_range: None,
        bss_range: None,
        cstring_range: None,
    }
}

fn branch(opcode: &[u8], at: u64, to: u64) -> Vec<u8> {
    let mut v = opcode.to_vec();
    let next = at + opcode.len() as u64 + 4;
    v.extend_from_slice(&(to.wrapping_sub(next) as u32).to_le_bytes());
    v
}

#[test]
fn branches_out_of_a_function_become_relocations() {
    let mut code = branch(&[0xe8], 0x1000, 0x2000);
    code.extend(branch(&[0xe9], 0x1005, 0x2004));
    code.extend(branch(&[0x0f, 0x84], 0x100a, 0x3000));
    code.extend(branch(&[0xe8], 0x1010, 0x1000));
    code.extend(branch(&[0xe8], 0x1015, 0x9000));
    code.push(0xc3);
    let out = x86::recover(&code, 0x1000, code.len() as u64, &macho_symbols());
    let relocs: Vec<(u64, &str, i64)> = out
        .relocs
        .iter()
        .map(|r| (r.offset, r.target.as_str(), r.addend))
        .collect();
    assert_eq!(
        relocs,
        vec![(1, "there", 0), (6, "there", 4), (12, "puts", 0)]
    );
    assert_eq!(out.relocs[1].pc, 0x1005);
    assert_eq!(out.relocs[0].kind, x86::RelocKind::Rel32);
    assert_eq!(out.diag.instructions, 6);
    assert_eq!(out.diag.calls_resolved, 3);
    assert_eq!(out.diag.calls_unresolved, 1);
    assert_eq!(out.diag.rip_refs_unresolved, 0);
}

fn pe_symbols() -> PeGlobalSymbols {
    let sections = vec![
        PeSection {
            name: ".text".to_string(),
            rva: 0x1000,
            va: 0x14000_1000,
            virtual_size: 0x1000,
            data: vec![0; 0x1000],
            characteristics: 0x6000_0020,
        },
        PeSection {
            name: ".data".to_string(),
            rva: 0x2000,
            va: 0x14000_2000,
            virtual_size: 0x1000,
            data: vec![0; 0x1000],
            characteristics: 0xc000_0040,
        },
    ];
    PeGlobalSymbols::build(
        BTreeMap::from([(
            0x14000_1100,
            PeFunction {
                name: "callee".to_string(),
                va: 0x14000_1100,
                size: 0x20,
                is_public: true,
            },
        )]),
        BTreeMap::from([(
            0x14000_2010,
            PeVariable {
                name: "counter".to_string(),
                va: 0x14000_2010,
                is_public: true,
            },
        )]),
        HashMap::from([(0x14000_2200, "__imp_exit".to_string())]),
        &sections,
    )
}

#[test]
fn operands_relative_to_the_next_instruction_become_relocations() {
    let base = 0x14000_1000u64;
    let mut code = branch(&[0xe8], base, base + 0x100);
    // lea rax, [rip + counter]
    code.extend(branch(&[0x48, 0x8d, 0x05], base + 5, 0x14000_2010));
    // call [rip + slot of exit]
    code.extend(branch(&[0xff, 0x15], base + 12, 0x14000_2200));
    // mov rax, [rip + offset into .data]
    code.extend(branch(&[0x48, 0x8b, 0x05], base + 18, 0x14000_2300));
    // lea rax, [rip + nothing]
    code.extend(branch(&[0x48, 0x8d, 0x05], base + 25, 0x15000_0000));
    let out = x86_64::recover(&code, base, code.len() as u64, &pe_symbols());
    let relocs: Vec<(u64, &str, i64)> = out
        .relocs
        .iter()
        .map(|r| (r.offset, r.target.as_str(), r.addend))
        .collect();
    assert_eq!(
        relocs,
        vec![
            (1, "callee", 0),
            (8, "counter", 0),
            (14, "__imp_exit", 0),
            (21, "__delink_pe_data_start", 0x300),
        ]
    );
    assert_eq!(out.diag.calls_resolved, 1);
    assert_eq!(out.diag.rip_refs_resolved, 3);
    assert_eq!(out.diag.rip_refs_unresolved, 1);
}

#[test]
fn bytes_that_are_no_instruction_are_counted() {
    // 0x06 does not exist in 64-bit code.
    let out = x86_64::recover(&[0x06, 0xc3], 0x14000_1000, 2, &pe_symbols());
    assert_eq!(out.diag.decode_failures, 1);
    assert_eq!(out.relocs.len(), 0);
}

#[test]
fn addresses_resolve_to_names_and_offsets() {
    let m = macho_symbols();
    assert_eq!(m.resolve_code(0x2008), Some(("there".to_string(), 8)));
    assert_eq!(m.resolve_code(0x2010), None);
    assert_eq!(m.resolve_data(0x5000), Some(("v".to_string(), 0)));
    assert_eq!(
        m.resolve_data(0x5010),
        Some(("__delink_macho_data_start".to_string(), 0x10))
    );
    assert!(m.in_text(0x2fff) && !m.in_text(0x3000));
    let p = pe_symbols();
    assert_eq!(p.resolve_code(0x14000_1104), Some(("callee".to_string(), 4)));
    assert_eq!(
        p.resolve_data(0x14000_2200),
        Some(("__imp_exit".to_string(), 0))
    );
    assert!(p.in_text(0x14000_1fff) && !p.in_text(0x14000_2000));
}

#[test]
fn fields_in_front_of_an_immediate_are_found() {
    let base = 0x14000_1000u64;
    let operand = |next: u64| (0x14000_2010u64.wrapping_sub(next) as u32).to_le_bytes();
    // mov dword ptr [rip + counter], 7
    let mut code = vec![0xc7, 0x05];
    code.extend(operand(base + 10));
    code.extend([7, 0, 0, 0]);
    // cmp byte ptr [rip + counter], 1
    code.extend([0x80, 0x3d]);
    code.extend(operand(base + 17));
    code.push(1);
    let out = x86_64::recover(&code, base, code.len() as u64, &pe_symbols());
    let relocs: Vec<(u64, u64, &str)> = out
        .relocs
        .iter()
        .map(|r| (r.offset, r.pc, r.target.as_str()))
        .collect();
    assert_eq!(
        relocs,
        vec![(2, base, "counter"), (12, base + 10, "counter")]
    );
}

#[test]
fn functions_end_behind_their_last_byte() {
    assert!(x86::is_inside(0x1000, 0x10, 0x1000) && x86::is_inside(0x1000, 0x10, 0x100f));
    assert!(!x86::is_inside(0x1000, 0x10, 0xfff) && !x86::is_inside(0x1000, 0x10, 0x1010));
    assert!(x86_64::is_inside(u64::MAX - 1, 0x10, u64::MAX));
    assert!(!x86_64::is_inside(0x1000, 0, 0x1000));
}
