use gimli::write::{
    Address, AttributeValue, DwarfUnit, EndianVec, Expression, Range, RangeList, Sections,
};
use object::{Object, ObjectSection, ObjectSymbol};

use delink::image::ImageSection;
use delink::macho::cu::{DebugInfoSource, MachoCompilationUnit, MachoFunction};
use delink::macho::dwarf::build_cu_index;
use delink::macho::emit::{
    emit_macho_cu, emit_macho_shared, object_name, sanitize_file_stem, sanitize_symbol_name,
    CuOutcome, EmitError, EmitStats,
};
use delink::macho::image::{MachoArch, MachoError};
use delink::macho::load::load_macho;
use delink::macho::split::{
    functions_for_manifest, grouped_unit, listings, split_plan, splits_by_debug_info,
    symbols_for_manifest, total,
};
use delink::macho::stabs::{build_cu_index_from_stabs, stabs_name};
use delink::macho::stubs::parse_stubs;
use delink::macho::symtab_json::{
    build_lookup, decode_n_desc, decode_n_type, detect_little_endian, generate,
    generate_from_cu_index,
};
use delink::macho::symtab_split::build_cu_index_from_symtab;
use delink::objfile::{Machine, ObjectFormat, ObjectWriter, SymbolKind};

/// An entry of the symbol table: name, type, section, description and value.
type Entry = (&'static str, u8, u8, u16, u32);

fn padded(name: &str) -> Vec<u8> {
    let mut v = name.as_bytes().to_vec();
    v.resize(16, 0);
    v
}

/// A 32-bit image with `__text` at 1000, stubs at 1100 and `__data` at 2000.
fn image(text: &[u8], entries: &[Entry], indirect: &[u32]) -> Vec<u8> {
    let stubs = vec![0xf4u8; 12];
    let data = vec![1u8, 2, 3, 4];
    let header = 28;
    let commands: u32 = 56 + 3 * 68 + 24 + 80;
    let text_off = header + commands;
    let stubs_off = text_off + text.len() as u32;
    let data_off = stubs_off + stubs.len() as u32;
    let syms_off = data_off + data.len() as u32;
    let mut strings = vec![0u8];
    let mut table = Vec::new();
    for (name, kind, sect, desc, value) in entries {
        let strx = if name.is_empty() { 0 } else { strings.len() as u32 };
        if !name.is_empty() {
            strings.extend_from_slice(name.as_bytes());
            strings.push(0);
        }
        table.extend_from_slice(&strx.to_le_bytes());
        table.push(*kind);
        table.push(*sect);
        table.extend_from_slice(&desc.to_le_bytes());
        table.extend_from_slice(&value.to_le_bytes());
    }
    let indirect_off = syms_off + table.len() as u32;
    let strings_off = indirect_off + 4 * indirect.len() as u32;
    let end = strings_off + strings.len() as u32;

    let mut f = Vec::new();
    let put = |f: &mut Vec<u8>, w: &[u32]| {
        for x in w {
            f.extend_from_slice(&x.to_le_bytes());
        }
    };
    put(&mut f, &[0xfeed_face, 7, 3, 2, 3, commands, 0]);
    put(&mut f, &[1, 56 + 3 * 68]);
    f.extend(padded(""));
    put(&mut f, &[0x1000, 0x2000, 0, end, 7, 7, 3, 0]);
    let section = |f: &mut Vec<u8>, name: &str, seg: &str, w: &[u32]| {
        f.extend(padded(name));
        f.extend(padded(seg));
        for x in w {
            f.extend_from_slice(&x.to_le_bytes());
        }
    };
    section(
        &mut f,
        "__text",
        "__TEXT",
        &[0x1000, text.len() as u32, text_off, 4, 0, 0, 0x8000_0400, 0, 0],
    );
    section(&mut f, "__symbol_stub", "__TEXT", &[0x1100, 12, stubs_off, 4, 0, 0, 0x8000_0008, 0, 6]);
    section(&mut f, "__data", "__DATA", &[0x2000, 4, data_off, 4, 0, 0, 0, 0, 0]);
    put(&mut f, &[2, 24, syms_off, entries.len() as u32, strings_off, strings.len() as u32]);
    let mut dysymtab = vec![0u32; 20];
    dysymtab[0] = 11;
    dysymtab[1] = 80;
    dysymtab[14] = indirect_off;
    dysymtab[15] = indirect.len() as u32;
    put(&mut f, &dysymtab);
    assert_eq!(f.len() as u32, text_off);
    f.extend_from_slice(text);
    f.extend(stubs);
    f.extend(data);
    f.extend(table);
    put(&mut f, indirect);
    f.extend(strings);
    f
}

/// `main` calls `helper`, which calls the first stub.
fn code() -> Vec<u8> {
    let mut text = vec![0xe8];
    text.extend_from_slice(&(0x1010i32 - 0x1005).to_le_bytes());
    text.push(0xc3);
    text.resize(16, 0x90);
    text.push(0xe8);
    text.extend_from_slice(&(0x1100i32 - 0x1015).to_le_bytes());
    text.push(0xc3);
    text.resize(32, 0x90);
    text
}

fn plain_entries() -> Vec<Entry> {
    vec![
        ("_main", 0x0f, 1, 0x20, 0x1000),
        ("_helper", 0x0e, 1, 0, 0x1010),
        ("_end", 0x1e, 1, 0, 0x1020),
        ("_counter", 0x0f, 3, 0, 0x2000),
        ("_puts", 0x01, 0, 1, 0),
        ("_exit", 0x01, 0, 1, 0),
    ]
}

fn stab_entries() -> Vec<Entry> {
    vec![
        ("/src/", 0x64, 0, 0, 0x1000),
        ("a.c", 0x64, 0, 0, 0x1000),
        ("/obj/a.o", 0x66, 0, 0, 0),
        ("main:F(0,1)", 0x24, 1, 0, 0x1000),
        ("", 0x24, 0, 0, 6),
        ("helper:f(0,1)", 0x24, 1, 0, 0x1010),
        ("counter:S(0,1)", 0x26, 3, 0, 0x2000),
        ("", 0x64, 0, 0, 0),
        ("_puts", 0x01, 0, 1, 0),
    ]
}

#[test]
fn images_without_debugging_information_are_split_by_symbols() {
    let mut text = code();
    text.resize(0x30, 0x90);
    let file = image(&text, &plain_entries(), &[4, 5]);
    let ctx = load_macho(&file).unwrap();
    assert_eq!(ctx.arch, MachoArch::X86);
    assert!(ctx.little_endian);
    assert_eq!(ctx.cu_index.source, DebugInfoSource::Symtab);
    assert_eq!(ctx.sections.len(), 3);
    assert_eq!(ctx.sections[2].segment, "__DATA");
    assert_eq!(ctx.sections[2].data, vec![1, 2, 3, 4]);
    assert_eq!(ctx.sections[1].flags, 0x8000_0008);
    assert_eq!(ctx.cu_index.units.len(), 1);
    let rows: Vec<(&str, u64, u64)> = ctx.cu_index.units[0]
        .functions
        .iter()
        .map(|f| (f.name.as_str(), f.addr, f.size))
        .collect();
    assert_eq!(
        rows,
        vec![("_main", 0x1000, 0x10), ("_helper", 0x1010, 0x10), ("_end", 0x1020, 0)]
    );
    assert_eq!(ctx.cu_index.units[0].ranges, vec![0x1000..0x1010, 0x1010..0x1020]);
    assert_eq!(ctx.symbols.stubs[&0x1106], "_exit");
    assert!(ctx.text_section().unwrap().contains_addr(0x102f));
    assert_eq!(ctx.section_for_addr(0x2003).unwrap().name, "__data");
    assert_eq!(ctx.sections[2].data_at_addr(0x2001, 2), Some(&[2u8, 3][..]));
    assert_eq!(ctx.sections[2].data_at_addr(0x2003, 2), None);
}

#[test]
fn stabs_describe_units() {
    let file = image(&code(), &stab_entries(), &[8, 8]);
    let index = build_cu_index_from_stabs(&file);
    assert_eq!(index.source, DebugInfoSource::Stabs);
    assert_eq!(index.units.len(), 1);
    let u = &index.units[0];
    assert_eq!(u.name, "a.c");
    assert_eq!(u.comp_dir.as_deref(), Some("/src/"));
    assert_eq!(u.oso_path.as_deref(), Some("/obj/a.o"));
    let rows: Vec<(&str, u64, u64)> = u
        .functions
        .iter()
        .map(|f| (f.name.as_str(), f.addr, f.size))
        .collect();
    assert_eq!(rows, vec![("main", 0x1000, 6), ("helper", 0x1010, 0)]);
    assert_eq!(u.variables[0].name, "counter");
    assert_eq!(load_macho(&file).unwrap().cu_index.source, DebugInfoSource::Stabs);
    assert_eq!(stabs_name("x:F1:2"), "x");
    assert_eq!(stabs_name("plain"), "plain");
}

#[test]
fn other_files_are_no_images() {
    assert_eq!(load_macho(b"nothing").err(), Some(MachoError::Unparsable));
    assert_eq!(build_cu_index_from_symtab(b"nothing").err(), Some(MachoError::Unparsable));
    let mut other = image(&code(), &plain_entries(), &[]);
    other[4] = 99;
    assert_eq!(load_macho(&other).err(), Some(MachoError::UnsupportedArchitecture));
    assert_eq!(build_cu_index_from_stabs(b"nothing").units.len(), 0);
}

#[test]
fn stubs_lead_to_names() {
    let file = image(&code(), &plain_entries(), &[4, 0x8000_0000]);
    let stubs = parse_stubs(&file);
    assert_eq!(stubs.len(), 1);
    assert_eq!(stubs[&0x1100], "_puts");
    assert!(parse_stubs(b"\xce\xfa").is_empty());
}

#[test]
fn symbols_are_grouped_by_file() {
    let file = image(&code(), &plain_entries(), &[]);
    let json = generate(&file);
    let files: Vec<&str> = json.entries.iter().map(|e| e.0.as_str()).collect();
    assert_eq!(files, vec!["end.o", "helper.o", "main.o"]);
    assert_eq!(json.entries[2].1, vec!["_main"]);
    let lookup = build_lookup(&file);
    let main = lookup.get("_main").unwrap();
    assert_eq!((main.addr, main.size, main.n_sect), (0x1000, 0x10, 1));
    assert_eq!(main.n_type, "N_SECT|N_EXT");
    assert_eq!(main.n_desc, vec!["N_NO_DEAD_STRIP"]);
    assert!(main.external && !main.private_external);
    assert!(lookup.get("_end").unwrap().private_external);
    assert!(lookup.get("_counter").is_none());
    assert!(detect_little_endian(&file));
    assert!(!detect_little_endian(&[0xfe, 0xed, 0xfa, 0xce]));
}

#[test]
fn symbols_with_one_safe_name_get_different_files() {
    let entries = vec![
        ("_f", 0x0f, 1, 0, 0x1000),
        ("__f", 0x0f, 1, 0, 0x1008),
        ("a?", 0x0f, 1, 0, 0x1010),
        ("a@", 0x0f, 1, 0, 0x1018),
    ];
    let json = generate(&image(&code(), &entries, &[]));
    let rows: Vec<(&str, &str)> = json
        .entries
        .iter()
        .map(|e| (e.0.as_str(), e.1[0].as_str()))
        .collect();
    assert_eq!(
        rows,
        vec![("a_.o", "a?"), ("a_@1018.o", "a@"), ("f.o", "_f"), ("f@1008.o", "__f")]
    );
    assert!(json.entries.iter().all(|e| e.1.len() == 1));
}

#[test]
fn groupings_make_units() {
    let file = image(&code(), &plain_entries(), &[]);
    let lookup = build_lookup(&file);
    let symbols = vec!["_helper".to_string(), "_gone".to_string(), "_main".to_string()];
    assert_eq!(symbols_for_manifest(&symbols, &lookup), vec!["_main", "_helper"]);
    let u = grouped_unit("both.o", &symbols, &lookup, 7);
    assert_eq!((u.id, u.name.as_str()), (7, "both.o"));
    assert_eq!(u.ranges, vec![0x1000..0x1010, 0x1010..0x1020]);
    assert!(!u.functions[1].external);
}

#[test]
fn symbol_fields_are_spelt_out() {
    assert_eq!(decode_n_type(0x24), "N_STAB(0x24)");
    assert_eq!(decode_n_type(0x00), "N_UNDF");
    assert_eq!(decode_n_type(0x13), "N_ABS|N_PEXT|N_EXT");
    assert_eq!(decode_n_type(0x04), "0x04");
    assert_eq!(decode_n_desc(0), Vec::<String>::new());
    assert_eq!(decode_n_desc(0x0081), vec!["REF_LAZY", "N_WEAK_REF"]);
    assert_eq!(decode_n_desc(0x2109), vec!["REF(0x9)", "N_WEAK_DEF", "N_ALT_ENTRY"]);
}

#[test]
fn units_become_objects() {
    let file = image(&code(), &stab_entries(), &[8, 8]);
    let mut ctx = load_macho(&file).unwrap();
    ctx.cu_index.units[0].functions[1].size = 6;
    let cu = &ctx.cu_index.units[0];
    let (bytes, stats) = emit_macho_cu(&ctx, cu).unwrap();
    assert_eq!(stats.relocations, 1);
    assert_eq!(stats.instructions, 4);
    let parsed = object::File::parse(&bytes[..]).unwrap();
    let text = parsed.section_by_name("__text").unwrap();
    assert!(text.data().unwrap().starts_with(&[0xe8]));
    let names: Vec<&str> = parsed.symbols().map(|s| s.name().unwrap()).collect();
    assert!(names.contains(&"_main") && names.contains(&"_puts"));
    let (bytes, shared) = emit_macho_shared(&ctx).unwrap();
    assert_eq!(shared.data_bytes, 4);
    let parsed = object::File::parse(&bytes[..]).unwrap();
    assert_eq!(parsed.section_by_name("__data").unwrap().data(), Ok(&[1u8, 2, 3, 4][..]));
}

fn empty_unit(id: usize, name: &str, functions: Vec<MachoFunction>) -> MachoCompilationUnit {
    MachoCompilationUnit {
        id,
        name: name.to_string(),
        comp_dir: None,
        oso_path: None,
        ranges: vec![],
        functions,
        variables: vec![],
    }
}

fn function(name: &str, addr: u64, size: u64) -> MachoFunction {
    MachoFunction {
        name: name.to_string(),
        linkage_name: None,
        addr,
        size,
        external: true,
    }
}

#[test]
fn units_that_cannot_be_emitted_are_errors() {
    let file = image(&code(), &plain_entries(), &[]);
    let mut ctx = load_macho(&file).unwrap();
    let cu = empty_unit(0, "x", vec![function("f", 0x9000, 4)]);
    assert_eq!(emit_macho_cu(&ctx, &cu).err(), Some(EmitError::NoFunctions));
    ctx.arch = MachoArch::PPC;
    let cu = empty_unit(0, "x", vec![function("f", 0x1000, 4)]);
    assert_eq!(emit_macho_cu(&ctx, &cu).err(), Some(EmitError::Arch(MachoArch::PPC)));
    ctx.sections.clear();
    assert_eq!(emit_macho_cu(&ctx, &cu).err(), Some(EmitError::NoText));
}

#[test]
fn plans_leave_out_units_without_code() {
    let file = image(&code(), &plain_entries(), &[]);
    let mut index = load_macho(&file).unwrap().cu_index;
    index.units = vec![
        empty_unit(0, "dir/a b.cpp", vec![function("f", 0x1010, 8), function("g", 0x1000, 4)]),
        empty_unit(1, "none.c", vec![function("n", 0x1000, 0)]),
        empty_unit(2, "c", vec![function("h", 0x1018, 1)]),
    ];
    let plan = split_plan(&index);
    let rows: Vec<(usize, &str)> = plan.iter().map(|p| (p.unit, p.file.as_str())).collect();
    assert_eq!(rows, vec![(0, "0000_a_b.o"), (2, "0002_c.o")]);
    assert_eq!(object_name(12345, "x.y"), "12345_x.o");
    assert_eq!(sanitize_file_stem("a/b+c.cc"), "b_c");
    let names: Vec<String> = functions_for_manifest(&index.units[0])
        .into_iter()
        .map(|f| f.name)
        .collect();
    assert_eq!(names, vec!["g", "f"]);
    let rows = listings(&index);
    assert_eq!((rows[0].bytes, rows[0].functions), (12, 2));
    let json = generate_from_cu_index(&index);
    assert_eq!(json.entries.len(), 2);
    assert_eq!(json.entries[0].1, vec!["f", "g"]);
    assert!(splits_by_debug_info(false, DebugInfoSource::Stabs));
    assert!(!splits_by_debug_info(true, DebugInfoSource::Dwarf));
    assert!(!splits_by_debug_info(false, DebugInfoSource::Symtab));
}

#[test]
fn macho_outcomes_are_summed() {
    let mut a = EmitStats::default();
    a.text_bytes = 3;
    a.instructions = 1;
    let outcome = |result| CuOutcome {
        cu_name: "u".to_string(),
        file: "f".to_string(),
        result,
    };
    let (sum, failures) = total(&vec![outcome(Ok(a)), outcome(Err("no code".to_string())), outcome(Ok(a))]);
    assert_eq!((sum.text_bytes, sum.instructions, failures), (6, 2, 1));
    assert_eq!(sanitize_symbol_name("_main"), "_main");
    assert_eq!(sanitize_symbol_name(""), "<invalid>");
}

fn debug_sections(unit: &mut DwarfUnit) -> Vec<ImageSection> {
    let mut sections = Sections::new(EndianVec::new(gimli::LittleEndian));
    unit.write(&mut sections).unwrap();
    let mut out = Vec::new();
    let done: Result<(), ()> = sections.for_each(|id, data| {
        out.push(ImageSection {
            index: out.len() + 1,
            name: Some(format!("__{}", &id.name()[1..])),
            segment: Some("__DWARF".to_string()),
            addr: 0,
            size: data.slice().len() as u64,
            data: Some(data.slice().to_vec()),
            macho_flags: Some(0),
            kind: "Debug".to_string(),
        });
        Ok(())
    });
    assert!(done.is_ok());
    out
}

fn dwarf_unit() -> DwarfUnit {
    DwarfUnit::new(gimli::Encoding {
        format: gimli::Format::Dwarf32,
        version: 4,
        address_size: 4,
    })
}

#[test]
fn dwarf_describes_units() {
    let mut d = dwarf_unit();
    let root = d.unit.root();
    let text = |s: &str| AttributeValue::String(s.as_bytes().to_vec());
    let at = |a: u64| AttributeValue::Address(Address::Constant(a));
    d.unit.get_mut(root).set(gimli::DW_AT_name, text("a.c"));
    d.unit.get_mut(root).set(gimli::DW_AT_comp_dir, text("/src"));
    d.unit.get_mut(root).set(gimli::DW_AT_low_pc, at(0x1000));
    d.unit.get_mut(root).set(gimli::DW_AT_high_pc, AttributeValue::Udata(0x40));
    // A declaration, and the definition that completes it.
    let declared = d.unit.add(root, gimli::DW_TAG_subprogram);
    d.unit.get_mut(declared).set(gimli::DW_AT_name, text("main"));
    d.unit.get_mut(declared).set(gimli::DW_AT_linkage_name, text("_Z4mainv"));
    d.unit.get_mut(declared).set(gimli::DW_AT_external, AttributeValue::Flag(true));
    let defined = d.unit.add(root, gimli::DW_TAG_subprogram);
    d.unit.get_mut(defined).set(gimli::DW_AT_specification, AttributeValue::UnitRef(declared));
    d.unit.get_mut(defined).set(gimli::DW_AT_low_pc, at(0x1000));
    d.unit.get_mut(defined).set(gimli::DW_AT_high_pc, AttributeValue::Data4(0x20));
    // One without a name, ended by an address.
    let unnamed = d.unit.add(root, gimli::DW_TAG_subprogram);
    d.unit.get_mut(unnamed).set(gimli::DW_AT_low_pc, at(0x1020));
    d.unit.get_mut(unnamed).set(gimli::DW_AT_high_pc, at(0x1030));
    // One that is inlined everywhere.
    let inlined = d.unit.add(root, gimli::DW_TAG_subprogram);
    d.unit.get_mut(inlined).set(gimli::DW_AT_inline, AttributeValue::Udata(1));
    // A variable with an address, and one on the stack.
    let counter = d.unit.add(root, gimli::DW_TAG_variable);
    let mut place = Expression::new();
    place.op_addr(Address::Constant(0x2000));
    d.unit.get_mut(counter).set(gimli::DW_AT_name, text("counter"));
    d.unit.get_mut(counter).set(gimli::DW_AT_location, AttributeValue::Exprloc(place));
    let local = d.unit.add(root, gimli::DW_TAG_variable);
    d.unit.get_mut(local).set(gimli::DW_AT_name, text("local"));

    let index = build_cu_index(&debug_sections(&mut d)).unwrap();
    assert_eq!(index.source, DebugInfoSource::Dwarf);
    assert_eq!(index.units.len(), 1);
    let u = &index.units[0];
    assert_eq!((u.id, u.name.as_str(), u.comp_dir.as_deref()), (0, "a.c", Some("/src")));
    assert_eq!(u.ranges, vec![0x1000..0x1040]);
    let rows: Vec<(&str, Option<&str>, u64, u64, bool)> = u
        .functions
        .iter()
        .map(|f| (f.name.as_str(), f.linkage_name.as_deref(), f.addr, f.size, f.external))
        .collect();
    assert_eq!(
        rows,
        vec![
            ("main", Some("_Z4mainv"), 0x1000, 0x20, true),
            ("<anon>", None, 0x1020, 0x10, false),
        ]
    );
    assert_eq!(u.variables.len(), 1);
    assert_eq!((u.variables[0].name.as_str(), u.variables[0].addr), ("counter", 0x2000));
}

#[test]
fn empty_units_are_left_out() {
    let mut d = dwarf_unit();
    assert_eq!(build_cu_index(&debug_sections(&mut d)).unwrap().units.len(), 0);
    assert_eq!(build_cu_index(&vec![]).unwrap().units.len(), 0);
}

#[test]
fn malformed_dwarf_is_an_error() {
    let mut d = dwarf_unit();
    let mut sections = debug_sections(&mut d);
    for s in &mut sections {
        if s.name.as_deref() == Some("__debug_info") {
            s.data.as_mut().unwrap().truncate(6);
        }
    }
    assert_eq!(build_cu_index(&sections).err(), Some(MachoError::Dwarf));
}

#[test]
fn range_lists_give_the_ranges_of_a_unit() {
    let mut d = dwarf_unit();
    let root = d.unit.root();
    let list = |ends: &[(u64, u64)]| {
        RangeList(
            ends.iter()
                .map(|e| Range::StartEnd {
                    begin: Address::Constant(e.0),
                    end: Address::Constant(e.1),
                })
                .collect(),
        )
    };
    let ranges = d.unit.ranges.add(list(&[(0x1000, 0x1010), (0x2000, 0x2008)]));
    d.unit.get_mut(root).set(gimli::DW_AT_ranges, AttributeValue::RangeListRef(ranges));
    let f = d.unit.add(root, gimli::DW_TAG_subprogram);
    d.unit.get_mut(f).set(gimli::DW_AT_low_pc, AttributeValue::Address(Address::Constant(0x1000)));
    d.unit.get_mut(f).set(gimli::DW_AT_high_pc, AttributeValue::Udata(0x10));
    let index = build_cu_index(&debug_sections(&mut d)).unwrap();
    assert_eq!(index.units[0].ranges, vec![0x1000..0x1010, 0x2000..0x2008]);
}

#[test]
fn ranges_past_the_last_address_are_an_error() {
    let unit = |low: u64, size: u64| {
        let mut d = DwarfUnit::new(gimli::Encoding {
            format: gimli::Format::Dwarf32,
            version: 4,
            address_size: 8,
        });
        let root = d.unit.root();
        let low = AttributeValue::Address(Address::Constant(low));
        d.unit.get_mut(root).set(gimli::DW_AT_low_pc, low.clone());
        d.unit.get_mut(root).set(gimli::DW_AT_high_pc, AttributeValue::Udata(size));
        let f = d.unit.add(root, gimli::DW_TAG_subprogram);
        d.unit.get_mut(f).set(gimli::DW_AT_low_pc, low);
        d.unit.get_mut(f).set(gimli::DW_AT_high_pc, AttributeValue::Udata(4));
        build_cu_index(&debug_sections(&mut d))
    };
    let last = u64::MAX - 0x10;
    assert_eq!(unit(last, 0x10).unwrap().units[0].ranges, vec![last..u64::MAX]);
    assert_eq!(unit(last, 0x11).err(), Some(MachoError::Dwarf));
}

#[test]
fn images_of_other_formats_have_no_units() {
    let mut w = ObjectWriter::new(ObjectFormat::Elf, Machine::X86_64);
    let text = w.add_text_section();
    w.append_data(text, &[0; 4], 4);
    w.add_symbol("f", 0, 4, SymbolKind::Text, true, false, Some(text));
    let file = w.write().unwrap();
    let index = build_cu_index_from_symtab(&file).unwrap();
    assert_eq!((index.units.len(), index.source), (0, DebugInfoSource::Symtab));
    let ctx = load_macho(&file).unwrap();
    assert_eq!((ctx.arch, ctx.cu_index.units.len()), (MachoArch::X86_64, 0));
    assert_eq!(ctx.cu_index.source, DebugInfoSource::Symtab);
}
