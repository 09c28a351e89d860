use std::collections::BTreeMap;

use object::{Object, ObjectSection, ObjectSymbol, RelocationFlags, RelocationTarget};

use delink::arch::{Arch, ElfClass};
use delink::arm::addend::RelocKind;
use delink::arm::decode::Disassembler;
use delink::arm::recover::{recover, CodeImage, RecoverError};
use delink::arm::runs::find_pool_words;
use delink::elf::binary::{Binary, ElfError, RawHeader};
use delink::elf::code::{Aarch64Recovery, Aarch64Reloc, Aarch64RelocKind, EmitError, EmitStats};
use delink::elf::cu::{CompilationUnit, CuIndex, Function, Variable};
use delink::elf::dynrel::read_all_dyn_relocs;
use delink::elf::emit::{emit_cu, find_cu, live_functions, sanitize_section_suffix, EmitOptions};
use delink::elf::inspect::{format_text, inspect, object_reloc_name, reloc_name};
use delink::elf::shared::{
    classify_dyn_reloc, emit_shared_data, sign_extend31, DwarfScan, DynClass, SharedDataOptions,
};
use delink::elf::split::{listings, name_object, sanitize_cu_name, split_plan, total, CuOutcome};
use delink::elf::symbols::{DataSource, GlobalSymbols};
use delink::elf::symtab::SymtabIndex;
use delink::image::ImageSection;

fn section(index: usize, name: &str, addr: u64, data: Vec<u8>) -> ImageSection {
    ImageSection {
        index,
        name: Some(name.to_string()),
        segment: None,
        addr,
        size: data.len() as u64,
        data: Some(data),
        macho_flags: None,
        kind: "Data".to_string(),
    }
}

fn words(w: &[u32]) -> Vec<u8> {
    w.iter().flat_map(|x| x.to_le_bytes()).collect()
}

/// A call, a load of the address of a datum through a pool word, and the pool.
fn arm_code() -> Vec<u8> {
    words(&[
        0xeb00_03fe, // 1000: bl 2000
        0xe59f_3008, // 1004: ldr r3, [pc, #8]
        0xe08f_3003, // 1008: add r3, pc, r3
        0xe1a0_0000, // 100c: nop
        0xe12f_ff1e, // 1010: bx lr
        0x0000_3ff0, // 1014: 5000 - 1010
    ])
}

fn arm_text() -> Vec<u8> {
    let mut text = arm_code();
    text.resize(0x1010, 0);
    text[0x1000..0x1004].copy_from_slice(&0xe12f_ff1eu32.to_le_bytes());
    text
}

fn function(name: &str, addr: u64, size: u64) -> Function {
    Function {
        name: name.to_string(),
        linkage_name: None,
        addr,
        size,
        external: true,
    }
}

fn unit(id: usize, name: &str, functions: Vec<Function>, variables: Vec<Variable>) -> CompilationUnit {
    CompilationUnit {
        id,
        name: name.to_string(),
        comp_dir: None,
        producer: None,
        language: None,
        ranges: functions.iter().map(|f| f.addr..f.addr + f.size).collect(),
        functions,
        variables,
        debug_info_range: 0..0,
        debug_abbrev_range: 0..0,
        debug_line_range: None,
        file_name: None,
    }
}

fn arm_units() -> CuIndex {
    CuIndex {
        units: vec![
            unit(
                0,
                "src/main.c",
                vec![function("main", 0x1000, 0x18)],
                vec![Variable {
                    name: "v".to_string(),
                    linkage_name: None,
                    addr: 0x5000,
                    external: false,
                }],
            ),
            unit(1, "src/callee.c", vec![function("callee", 0x2000, 4)], vec![]),
        ],
    }
}

fn arm_binary(mut more: Vec<ImageSection>) -> Binary {
    let mut sections = vec![section(1, ".text", 0x1000, arm_text())];
    sections.append(&mut more);
    Binary {
        sections,
        arch: Arch::Arm,
        class: ElfClass::Elf32,
    }
}

fn data_section() -> ImageSection {
    section(2, ".data", 0x5000, words(&[7, 0x1000, 0x5000]))
}

fn no_scan() -> DwarfScan {
    DwarfScan {
        relocs: vec![],
        pairs: 0,
    }
}

/// An ELF32 file for ARM with the sections given by name, type, address and bytes.
fn elf32(e_type: u16, machine: u16, sections: &[(&str, u32, u32, &[u8])]) -> Vec<u8> {
    let mut names = vec![0u8];
    let mut offsets = Vec::new();
    for (name, ..) in sections {
        offsets.push(names.len() as u32);
        names.extend_from_slice(name.as_bytes());
        names.push(0);
    }
    let own = names.len() as u32;
    names.extend_from_slice(b".shstrtab\0");
    let mut body = Vec::new();
    let mut headers = vec![0u8; 40];
    for (i, (_, kind, addr, data)) in sections.iter().enumerate() {
        let at = 52 + body.len() as u32;
        body.extend_from_slice(data);
        for w in [offsets[i], *kind, 2, *addr, at, data.len() as u32, 0, 0, 4, 0] {
            headers.extend_from_slice(&w.to_le_bytes());
        }
    }
    let at = 52 + body.len() as u32;
    body.extend_from_slice(&names);
    for w in [own, 3, 0, 0, at, names.len() as u32, 0, 0, 1, 0] {
        headers.extend_from_slice(&w.to_le_bytes());
    }
    let mut file = vec![0x7f, b'E', b'L', b'F', 1, 1, 1, 0, 0, 0, 0, 0, 0, 0, 0, 0];
    file.extend_from_slice(&e_type.to_le_bytes());
    file.extend_from_slice(&machine.to_le_bytes());
    for w in [1u32, 0, 0, 52 + body.len() as u32, 0] {
        file.extend_from_slice(&w.to_le_bytes());
    }
    for h in [52u16, 0, 0, 40, sections.len() as u16 + 2, sections.len() as u16 + 1] {
        file.extend_from_slice(&h.to_le_bytes());
    }
    file.extend_from_slice(&body);
    file.extend_from_slice(&headers);
    file
}

#[test]
fn shared_objects_are_loaded() {
    let file = elf32(3, 0x28, &[(".text", 1, 0x1000, &[1, 2, 3, 4]), (".data", 1, 0x5000, &[5, 6, 7, 8])]);
    let b = Binary::load(&file).unwrap();
    assert_eq!((b.arch, b.class), (Arch::Arm, ElfClass::Elf32));
    assert_eq!(b.section_data(".data"), Some(&[5u8, 6, 7, 8][..]));
    assert_eq!(b.section(".text").unwrap().addr, 0x1000);
    assert_eq!(b.section_data(".rodata"), None);
    assert_eq!(b.read_word_at(0x5000), Some(0x0807_0605));
    assert_eq!(b.read_word_at(0x5004), None);
    assert_eq!(b.section_data_at(0x1002), Some((0x1000, &[1u8, 2, 3, 4][..])));
    assert!(!b.has_dwarf());
}

#[test]
fn other_files_are_refused() {
    let good = elf32(3, 0x28, &[]);
    let load = |file: &[u8]| Binary::load(file).err();
    assert_eq!(load(b"MZ"), Some(ElfError::NotElf));
    let mut file = good.clone();
    file[4] = 9;
    assert_eq!(load(&file), Some(ElfError::UnknownClass(9)));
    assert_eq!(ElfError::UnknownClass(9).message(), "unknown EI_CLASS 9");
    file[4] = 1;
    file[5] = 2;
    assert_eq!(load(&file), Some(ElfError::BigEndian));
    assert_eq!(load(&elf32(1, 0x28, &[])), Some(ElfError::NotShared(1)));
    assert_eq!(load(&elf32(3, 0x3e, &[])), Some(ElfError::UnsupportedMachine(0x3e)));
    assert_eq!(
        load(&elf32(3, 0xb7, &[])),
        Some(ElfError::Mismatch(Arch::Aarch64, ElfClass::Elf32))
    );
    assert_eq!(
        ElfError::Mismatch(Arch::Aarch64, ElfClass::Elf32).message(),
        "aarch64 in an elf32 container"
    );
    assert_eq!(load(&good[..40]), Some(ElfError::Unparsable));
    assert_eq!(RawHeader::parse(&good).unwrap().e_machine, 0x28);
}

#[test]
fn arm_calls_and_pool_words_are_recovered() {
    let binary = arm_binary(vec![data_section()]);
    let symbols = GlobalSymbols::build(&binary, &arm_units()).unwrap();
    let text = arm_text();
    let image = CodeImage {
        base: 0x1000,
        bytes: &text,
    };
    let out = recover(0x1000, 0x18, &image, &symbols).unwrap();
    let relocs: Vec<(u64, RelocKind, &str, i64)> = out
        .relocs
        .iter()
        .map(|r| (r.offset, r.kind, r.target.as_str(), r.addend))
        .collect();
    assert_eq!(
        relocs,
        vec![
            (0, RelocKind::Call, "callee", -8),
            (0x14, RelocKind::Rel32, "v", 4),
        ]
    );
    assert_eq!(out.diag.bl_resolved, 1);
    assert_eq!(out.diag.pool_loads, 1);
    assert_eq!(out.diag.pool_relocated, 1);
    assert_eq!(out.diag.instructions, 5);
}

#[test]
fn functions_outside_the_image_are_not_recovered() {
    let binary = arm_binary(vec![]);
    let symbols = GlobalSymbols::build(&binary, &arm_units()).unwrap();
    let text = arm_code();
    let image = CodeImage {
        base: 0x1000,
        bytes: &text,
    };
    assert_eq!(recover(0xff0, 8, &image, &symbols).err(), Some(RecoverError::BeforeImage));
    assert_eq!(recover(0x1000, 0x1c, &image, &symbols).err(), Some(RecoverError::PastImage));
}

#[test]
fn pool_words_are_found_by_the_loads() {
    let d = Disassembler::new().unwrap();
    let pools: Vec<u64> = find_pool_words(&d, &arm_code(), 0x1000).into_iter().collect();
    assert_eq!(pools, vec![0x1014]);
    let insns = d.disassemble(&arm_code()[..20], 0x1000).unwrap();
    assert_eq!(insns.len(), 5);
    assert_eq!(insns[1].mnemonic.as_deref(), Some("ldr"));
    assert_eq!(insns[1].address, 0x1004);
    assert_eq!(insns[2].operands.as_ref().unwrap().len(), 3);
}

#[test]
fn arm_units_become_objects() {
    let binary = arm_binary(vec![data_section()]);
    let units = arm_units();
    let symbols = GlobalSymbols::build(&binary, &units).unwrap();
    let opts = EmitOptions {
        cu: find_cu(&units.units, "main.c").unwrap(),
        symbols: &symbols,
        comdat: false,
        dwarf: false,
        per_function_sections: false,
        promote_locals: false,
    };
    let (file, stats) = emit_cu(&binary, &opts, &vec![], &vec![], &vec![]).unwrap();
    assert_eq!(stats.text_bytes, 0x18);
    assert_eq!(stats.relocations, 2);
    assert_eq!((stats.local_symbols, stats.undef_symbols), (1, 2));
    let parsed = object::File::parse(&file[..]).unwrap();
    let text = parsed.section_by_name(".text").unwrap();
    let data = text.data().unwrap();
    assert_eq!(&data[..4], &0xebff_fffeu32.to_le_bytes());
    assert_eq!(&data[0x14..0x18], &4u32.to_le_bytes());
    let relocs: Vec<(u64, u32, String)> = text
        .relocations()
        .map(|(offset, r)| {
            let RelocationFlags::Elf { r_type } = r.flags() else {
                panic!("not ELF");
            };
            let RelocationTarget::Symbol(s) = r.target() else {
                panic!("no symbol");
            };
            let name = parsed.symbol_by_index(s).unwrap().name().unwrap().to_string();
            (offset, r_type, name)
        })
        .collect();
    assert_eq!(
        relocs,
        vec![(0, 28, "callee".to_string()), (0x14, 3, "v".to_string())]
    );
    let main = parsed.symbol_by_name("main").unwrap();
    assert_eq!((main.address(), main.size()), (0, 0x18));
}

#[test]
fn per_function_sections_are_named_after_their_functions() {
    let binary = arm_binary(vec![data_section()]);
    let units = arm_units();
    let symbols = GlobalSymbols::build(&binary, &units).unwrap();
    let opts = EmitOptions {
        cu: &units.units[1],
        symbols: &symbols,
        comdat: true,
        dwarf: false,
        per_function_sections: true,
        promote_locals: false,
    };
    let (file, _) = emit_cu(&binary, &opts, &vec![], &vec![], &vec![]).unwrap();
    let parsed = object::File::parse(&file[..]).unwrap();
    assert!(parsed.section_by_name(".text.callee").is_some());
    assert!(parsed.symbol_by_name("callee").unwrap().is_weak());
    assert_eq!(parsed.comdats().count(), 1);
    assert_eq!(sanitize_section_suffix("a b$.@\u{e9}"), "a_b$.@_");
    assert_eq!(sanitize_section_suffix(""), "x");
}

#[test]
fn units_without_code_do_not_become_objects() {
    let binary = arm_binary(vec![]);
    let units = arm_units();
    let symbols = GlobalSymbols::build(&binary, &units).unwrap();
    let emit = |binary: &Binary, cu: &CompilationUnit| {
        let opts = EmitOptions {
            cu,
            symbols: &symbols,
            comdat: false,
            dwarf: false,
            per_function_sections: false,
            promote_locals: false,
        };
        emit_cu(binary, &opts, &vec![], &vec![], &vec![]).err()
    };
    assert_eq!(emit(&binary, &unit(9, "x", vec![], vec![])), Some(EmitError::NoFunctions));
    let outside = unit(9, "x", vec![function("f", 0x9000, 4)], vec![]);
    assert_eq!(emit(&binary, &outside), Some(EmitError::NoLiveFunctions));
    let bare = Binary {
        sections: vec![],
        arch: Arch::Arm,
        class: ElfClass::Elf32,
    };
    assert_eq!(emit(&bare, &units.units[0]), Some(EmitError::NoText));
    let mut unreadable = arm_binary(vec![]);
    unreadable.sections[0].data = None;
    assert_eq!(emit(&unreadable, &units.units[0]), Some(EmitError::UnreadableSection));
    let mut short = arm_binary(vec![]);
    short.sections[0].data = Some(vec![0; 8]);
    assert_eq!(emit(&short, &units.units[0]), Some(EmitError::Truncated));
    let named = unit(0, "n", vec![function("a\0b", 0x2008, 4)], vec![]);
    assert!(matches!(emit(&binary, &named), Some(EmitError::Write(_))));
}

#[test]
fn functions_are_laid_out_by_address() {
    let binary = arm_binary(vec![]);
    let cu = unit(
        0,
        "x",
        vec![function("b", 0x2000, 4), function("none", 0x1100, 0), function("a", 0x1000, 0x18)],
        vec![],
    );
    assert_eq!(live_functions(&binary, &cu).unwrap(), vec![(0x1000, 2), (0x2000, 0)]);
}

#[test]
fn aarch64_objects_carry_explicit_addends() {
    let binary = Binary {
        sections: vec![section(1, ".text", 0x1000, words(&[0x9400_0000, 0xd65f_03c0]))],
        arch: Arch::Aarch64,
        class: ElfClass::Elf64,
    };
    let units = CuIndex {
        units: vec![unit(0, "a.c", vec![function("main", 0x1000, 8)], vec![])],
    };
    let symbols = GlobalSymbols::build(&binary, &units).unwrap();
    let opts = EmitOptions {
        cu: &units.units[0],
        symbols: &symbols,
        comdat: false,
        dwarf: false,
        per_function_sections: false,
        promote_locals: false,
    };
    let recovery = Aarch64Recovery {
        relocs: vec![Aarch64Reloc {
            offset: 0,
            kind: Aarch64RelocKind::Call26,
            target: "far".to_string(),
            addend: 16,
        }],
        instructions: 2,
        decode_failures: 0,
        bl_unresolved: 0,
        adrp_seen: 0,
        adrp_paired: 0,
        adrp_unresolved: 0,
    };
    assert_eq!(
        emit_cu(&binary, &opts, &vec![], &vec![], &vec![]).err(),
        Some(EmitError::NoRecovery)
    );
    let (file, stats) = emit_cu(&binary, &opts, &vec![recovery], &vec![], &vec![]).unwrap();
    assert_eq!(stats.instructions, 2);
    let parsed = object::File::parse(&file[..]).unwrap();
    let text = parsed.section_by_name(".text").unwrap();
    let relocs: Vec<_> = text.relocations().collect();
    assert_eq!(relocs.len(), 1);
    assert_eq!(relocs[0].1.addend(), 16);
    assert_eq!(relocs[0].1.flags(), RelocationFlags::Elf { r_type: 283 });
}

fn dynamic_sections() -> Vec<ImageSection> {
    // One RELATIVE for the pointer to main, one for the pointer to v, one ABS32 for
    // a symbol of another image, and one of an unknown type.
    let rel = words(&[
        0x5004, 23, 0x5008, 23, 0x5000, (1 << 8) | 2, 0x5000, 99,
    ]);
    let mut dynsym = vec![0u8; 16];
    dynsym.extend_from_slice(&words(&[1, 0, 0, 0]));
    vec![
        data_section(),
        section(3, ".rel.dyn", 0x300, rel),
        section(4, ".dynsym", 0x400, dynsym),
        section(5, ".dynstr", 0x500, b"\0other\0".to_vec()),
    ]
}

#[test]
fn dynamic_relocations_are_read() {
    let binary = arm_binary(dynamic_sections());
    let relocs = read_all_dyn_relocs(&binary).unwrap();
    let rows: Vec<(u64, u32, i64, &str)> = relocs
        .iter()
        .map(|r| (r.r_offset, r.r_type, r.r_addend, r.sym_name.as_str()))
        .collect();
    assert_eq!(
        rows,
        vec![
            (0x5004, 23, 0x1000, ""),
            (0x5008, 23, 0x5000, ""),
            (0x5000, 2, 7, "other"),
            (0x5000, 99, 7, ""),
        ]
    );
}

#[test]
fn shared_data_is_relocated_by_name() {
    let mut sections = dynamic_sections();
    let mut bss = section(6, ".bss", 0x6000, vec![]);
    bss.size = 0x40;
    sections.push(bss);
    let binary = arm_binary(sections);
    let symbols = GlobalSymbols::build(&binary, &arm_units()).unwrap();
    let (file, stats) = emit_shared_data(
        &binary,
        &symbols,
        SharedDataOptions { dwarf: false },
        &no_scan(),
        &no_scan(),
    )
    .unwrap();
    assert_eq!(stats.data_bytes, 12);
    assert_eq!(stats.bss_bytes, 0x40);
    assert_eq!(stats.translated_relatives, 2);
    assert_eq!(stats.translated_abs64, 1);
    assert_eq!(stats.skipped_relocs, 1);
    let parsed = object::File::parse(&file[..]).unwrap();
    let data = parsed.section_by_name(".data").unwrap();
    assert_eq!(data.data().unwrap(), &words(&[7, 0, 0])[..]);
    let targets: Vec<(u64, String)> = data
        .relocations()
        .map(|(offset, r)| {
            let RelocationTarget::Symbol(s) = r.target() else {
                panic!("no symbol");
            };
            (offset, parsed.symbol_by_index(s).unwrap().name().unwrap().to_string())
        })
        .collect();
    assert_eq!(
        targets,
        vec![
            (4, "main".to_string()),
            (8, "v".to_string()),
            (0, "other".to_string()),
        ]
    );
    assert!(parsed.symbol_by_name("v").is_some());
    assert!(parsed.symbol_by_name("__delink_data_start").is_some());
    assert!(parsed.symbol_by_name("__delink_bss_start").is_some());
}

#[test]
fn unwind_tables_are_relocated_by_name() {
    // main at 1000, with an entry; callee at 2000, which cannot be unwound.
    let exidx = 0x3000u64;
    let prel31 = |place: u64, target: u64| (target.wrapping_sub(place) as u32) & 0x7fff_ffff;
    let index = words(&[
        prel31(exidx, 0x1000),
        prel31(exidx + 4, 0x3104),
        prel31(exidx + 8, 0x2000),
        1,
    ]);
    let binary = arm_binary(vec![
        section(2, ".ARM.exidx", exidx, index),
        section(3, ".ARM.extab", 0x3100, vec![0xaa; 8]),
    ]);
    let symbols = GlobalSymbols::build(&binary, &arm_units()).unwrap();
    let (file, stats) = emit_shared_data(
        &binary,
        &symbols,
        SharedDataOptions { dwarf: false },
        &no_scan(),
        &no_scan(),
    )
    .unwrap();
    assert_eq!(stats.arm_exidx_bytes, 16);
    assert_eq!(stats.arm_extab_bytes, 8);
    assert_eq!(stats.exidx_relocs, 3);
    let parsed = object::File::parse(&file[..]).unwrap();
    let index = parsed.section_by_name(".ARM.exidx").unwrap();
    assert_eq!(index.data().unwrap(), &words(&[0, 4, 0, 1])[..]);
    let offsets: Vec<u64> = index.relocations().map(|(o, _)| o).collect();
    assert_eq!(offsets, vec![0, 4, 8]);
    assert_eq!(sign_extend31(0x7fff_ffff), -1);
    assert_eq!(sign_extend31(0x3fff_ffff), 0x3fff_ffff);
    assert_eq!(sign_extend31(0xc000_0000), -0x4000_0000);
}

#[test]
fn frame_descriptions_are_relocated_by_name() {
    let vaddr = 0x8000u64;
    // A common entry of 8 bytes, then a description of 12 for the function at 1000.
    let mut frame = words(&[4, 0, 8, 12]);
    frame.extend_from_slice(&(0x1000u32.wrapping_sub(vaddr as u32 + 16)).to_le_bytes());
    let frame_len = frame.len();
    assert_eq!(frame_len, 20);
    let binary = Binary {
        sections: vec![
            section(1, ".text", 0x1000, vec![0; 8]),
            section(2, ".eh_frame", vaddr, frame),
        ],
        arch: Arch::Aarch64,
        class: ElfClass::Elf64,
    };
    let units = CuIndex {
        units: vec![unit(0, "a.c", vec![function("main", 0x1000, 8)], vec![])],
    };
    let symbols = GlobalSymbols::build(&binary, &units).unwrap();
    let (file, stats) = emit_shared_data(
        &binary,
        &symbols,
        SharedDataOptions { dwarf: true },
        &no_scan(),
        &no_scan(),
    )
    .unwrap();
    assert_eq!((stats.eh_frame_bytes, stats.fde_relocs), (20, 1));
    let parsed = object::File::parse(&file[..]).unwrap();
    let section = parsed.section_by_name(".eh_frame").unwrap();
    let relocs: Vec<u64> = section.relocations().map(|(o, _)| o).collect();
    assert_eq!(relocs, vec![16]);
}

#[test]
fn unreadable_data_sections_are_an_error() {
    let mut sections = vec![data_section()];
    sections[0].data = None;
    let binary = arm_binary(sections);
    let symbols = GlobalSymbols::build(&binary, &arm_units()).unwrap();
    let r = emit_shared_data(
        &binary,
        &symbols,
        SharedDataOptions { dwarf: false },
        &no_scan(),
        &no_scan(),
    );
    assert_eq!(r.err(), Some(EmitError::UnreadableSection));
}

#[test]
fn fields_past_the_data_are_an_error() {
    let mut sections = dynamic_sections();
    // The last pointer begins in the section and ends behind it.
    sections[1] = section(3, ".rel.dyn", 0x300, words(&[0x500a, (1 << 8) | 2]));
    let binary = arm_binary(sections);
    let symbols = GlobalSymbols::build(&binary, &arm_units()).unwrap();
    let r = emit_shared_data(
        &binary,
        &symbols,
        SharedDataOptions { dwarf: false },
        &no_scan(),
        &no_scan(),
    );
    assert_eq!(r.err(), Some(EmitError::FieldOutOfRange));
}

#[test]
fn dynamic_relocations_are_told_apart() {
    assert_eq!(classify_dyn_reloc(Arch::Arm, 23), DynClass::Relative);
    assert_eq!(classify_dyn_reloc(Arch::Arm, 38), DynClass::Abs);
    assert_eq!(classify_dyn_reloc(Arch::Arm, 22), DynClass::JumpSlot);
    assert_eq!(classify_dyn_reloc(Arch::Aarch64, 1027), DynClass::Relative);
    assert_eq!(classify_dyn_reloc(Arch::Aarch64, 1025), DynClass::GlobDat);
    assert_eq!(classify_dyn_reloc(Arch::Aarch64, 23), DynClass::Other);
}

#[test]
fn addresses_resolve_to_functions_data_and_sections() {
    let binary = arm_binary(vec![data_section()]);
    let symbols = GlobalSymbols::build(&binary, &arm_units()).unwrap();
    let at = |addr: u64| symbols.resolve_data(addr).map(|d| (d.symbol, d.addend, d.source));
    assert_eq!(at(0x1000), Some(("main".to_string(), 0, DataSource::Function)));
    assert_eq!(at(0x5000), Some(("v".to_string(), 0, DataSource::Variable)));
    assert_eq!(
        at(0x5004),
        Some(("__delink_data_start".to_string(), 4, DataSource::SectionRelative))
    );
    assert_eq!(at(0x9000).is_none(), true);
    assert_eq!(symbols.resolve_into(0x1010).map(|(f, o)| (f.export_name().to_string(), o)), Some(("main".to_string(), 0x10)));
    assert_eq!(symbols.classify_section(0x5000), ".data");
    assert_eq!(symbols.classify_section(0x9000), "?");
}

/// A symbol table entry: name, value, size, type and binding, section.
fn symbol(name: u32, value: u32, size: u32, info: u8, shndx: u16) -> Vec<u8> {
    let mut v = words(&[name, value, size]);
    v.push(info);
    v.push(0);
    v.extend_from_slice(&shndx.to_le_bytes());
    v
}

fn symtab_binary() -> Binary {
    let strings = b"\0a.c\0helper\0shared\0counter\0".to_vec();
    let mut table = vec![0u8; 16];
    table.extend(symbol(1, 0, 0, 4, 0xfff1)); // file a.c
    table.extend(symbol(5, 0x1000, 8, 2, 1)); // local function helper
    table.extend(symbol(19, 0x5000, 4, 1, 2)); // local datum counter
    table.extend(symbol(12, 0x1008, 0, 0x12, 1)); // global function shared, no size
    let mut text = vec![0u8; 0x10];
    text.extend(words(&[0xe12f_ff1e, 0]));
    Binary {
        sections: vec![
            section(1, ".text", 0x1000, text),
            section(2, ".data", 0x5000, vec![0; 4]),
            section(3, ".symtab", 0, table),
            section(4, ".strtab", 0, strings),
        ],
        arch: Arch::Arm,
        class: ElfClass::Elf32,
    }
}

#[test]
fn symbol_tables_give_functions_files_and_data() {
    let binary = symtab_binary();
    let index = SymtabIndex::build(&binary).unwrap();
    let rows: Vec<(u64, u64, String)> = index
        .text_functions()
        .into_iter()
        .map(|f| (f.value, f.size, f.name))
        .collect();
    assert_eq!(
        rows,
        vec![
            (0x1000, 8, "helper".to_string()),
            (0x1008, 0x10, "shared".to_string()),
        ]
    );
    assert_eq!(index.text_coverage(), 0x18);
    assert_eq!(index.groups.len(), 1);
    assert_eq!(index.groups[0].anchor, Some(0x1000));
    let files: Vec<Option<String>> = index.attribute_functions().into_iter().map(|(_, f)| f).collect();
    assert_eq!(files, vec![Some("a.c".to_string()), Some("a.c".to_string())]);
    let data: Vec<String> = index.data_objects().into_iter().map(|d| d.name).collect();
    assert_eq!(data, vec!["counter"]);
    let units = index.to_cu_index();
    assert_eq!(units.units.len(), 1);
    assert_eq!(units.units[0].name, "a.c");
    assert_eq!(units.total_functions(), 2);
    assert_eq!(units.total_variables(), 1);
    let symbols = index.build_symbols(&binary, &units).unwrap();
    assert_eq!(symbols.variables[&0x5000].export_name(), "counter");
    let mut broken = symtab_binary();
    broken.sections[2].data = None;
    assert_eq!(SymtabIndex::build(&broken).err(), Some(ElfError::UnreadableSection));
}

#[test]
fn reports_summarise_an_image() {
    let binary = symtab_binary();
    let report = inspect(&binary, &CuIndex { units: vec![] }).unwrap();
    assert_eq!(report.symtab_files, 1);
    assert_eq!(report.symtab_anchored, 1);
    assert_eq!(report.symtab_functions, 2);
    assert!(!report.has_dwarf);
    let text = format_text(&report);
    let lines: Vec<&str> = text.lines().collect();
    assert_eq!(lines[0], "arch: arm (elf32)");
    assert_eq!(lines[1], "dwarf: MISSING");
    assert_eq!(
        lines[2],
        "symtab: 1 STT_FILE units (1 with a .text anchor), 2 sized functions in .text"
    );
    assert_eq!(lines[4], "SECTIONS");
    assert_eq!(
        lines[5],
        format!("  {:<28} {:>16} {:>10}  kind", "name", "addr", "size")
    );
    assert_eq!(
        lines[6],
        format!("  {:<28} {:016x} {:>10}  {}", ".text", 0x1000, 24, "Data")
    );
    assert_eq!(lines[11], "DYNAMIC RELOCATIONS");
    assert_eq!(lines[12], "  (none)");
    assert_eq!(lines[14], "COMPILATION UNITS: 0 (0 functions, 0 variables)");
}

#[test]
fn reports_count_relocations_and_units() {
    let mut sections = dynamic_sections();
    sections.push(section(7, ".debug_info", 0, vec![1]));
    let binary = arm_binary(sections);
    let report = inspect(&binary, &arm_units()).unwrap();
    assert_eq!(
        report.dyn_relocs,
        vec![
            ("R_ARM_ABS32".to_string(), 1),
            ("R_ARM_RELATIVE".to_string(), 2),
            ("R_ARM_99".to_string(), 1),
        ]
    );
    assert_eq!(report.cu_rows.len(), 2);
    assert_eq!(report.cu_rows[0].coverage, 0x18);
    assert_eq!((report.total_functions, report.total_variables), (2, 1));
    let text = format_text(&report);
    assert!(text.contains(&format!(
        "  {:<50} {:>6} {:>6} {:>6} {:>10}\n",
        "src/main.c", 1, 1, 1, 24
    )));
    assert!(text.contains(&format!("  {:<40} {:>8}\n", "R_ARM_RELATIVE", 2)));
}

#[test]
fn relocation_types_have_names() {
    assert_eq!(reloc_name(Arch::Arm, 10), "R_ARM_THM_CALL");
    assert_eq!(reloc_name(Arch::Arm, 200), "R_ARM_200");
    assert_eq!(reloc_name(Arch::Aarch64, 1027), "R_AARCH64_RELATIVE");
    assert_eq!(reloc_name(Arch::Aarch64, 286), "R_AARCH64_286");
    assert_eq!(object_reloc_name(286), "R_AARCH64_LDST64_ABS_LO12_NC");
    assert_eq!(object_reloc_name(1027), "R_AARCH64_1027");
}

#[test]
fn splits_are_planned_by_unit() {
    let mut units = arm_units();
    units.units.push(unit(2, "empty.c", vec![function("none", 0, 0)], vec![]));
    units.units.push(unit(3, "edited.c", vec![function("f", 0x2000, 4)], vec![]));
    units.units[3].file_name = Some("merged.o".to_string());
    let plan = split_plan(&units);
    let rows: Vec<(usize, &str)> = plan.iter().map(|p| (p.unit, p.file.as_str())).collect();
    assert_eq!(
        rows,
        vec![(0, "0000_main.o"), (1, "0001_callee.o"), (3, "merged.o")]
    );
    assert_eq!(sanitize_cu_name("a/b c.x.cpp"), "b_c_x");
    assert_eq!(name_object(&units.units[0]), "0000_main.o");
    let rows = listings(&units);
    assert_eq!((rows[0].bytes, rows[0].functions), (0x18, 1));
}

#[test]
fn outcomes_are_summed() {
    let mut a = EmitStats::default();
    a.text_bytes = 5;
    a.relocations = 2;
    let outcome = |result| CuOutcome {
        cu_name: "u".to_string(),
        file: "f".to_string(),
        result,
    };
    let (sum, failures) = total(&vec![
        outcome(Ok(a)),
        outcome(Err("no code".to_string())),
        outcome(Ok(a)),
    ]);
    assert_eq!((sum.text_bytes, sum.relocations, failures), (10, 4, 1));
}

#[test]
fn maps_keep_functions_with_code() {
    let mut units = arm_units();
    units.units[0].functions.push(function("none", 0x3000, 0));
    let (functions, variables): (BTreeMap<_, _>, BTreeMap<_, _>) = GlobalSymbols::maps_from_cus(&units);
    assert_eq!(functions.keys().copied().collect::<Vec<u64>>(), vec![0x1000, 0x2000]);
    assert_eq!(variables.keys().copied().collect::<Vec<u64>>(), vec![0x5000]);
}
