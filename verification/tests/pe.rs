use std::collections::BTreeMap;

use object::{Object, ObjectSection, ObjectSymbol, RelocationTarget};

use delink::pe::cu::{PeCompilationUnit, PeContrib, PeCuIndex, PeFunction, PeVariable};
use delink::pe::emit::{
    contributions_fit, emit_pe_cu, emit_pe_shared, object_name, sanitize_file_stem, CuOutcome,
    EmitError, EmitStats,
};
use delink::pe::image::{
    load_pe_and_pdb, parse_base_relocations, parse_imports, parse_pe_sections, rva_cstr, rva_slice,
    BaseReloc, BaseRelocKind, PdbSymbols, PeArch, PeContext, PeError,
};
use delink::pe::split::{listings, split_plan, total};

const BASE: u64 = 0x1_4000_0000;

/// A section: name, address, virtual size, bytes and flags.
type Section<'a> = (&'a str, u32, u32, &'a [u8], u32);

fn put(file: &mut Vec<u8>, at: usize, bytes: &[u8]) {
    if file.len() < at + bytes.len() {
        file.resize(at + bytes.len(), 0);
    }
    file[at..at + bytes.len()].copy_from_slice(bytes);
}

/// A PE32+ file with these sections and the import table at `imports`.
fn pe_file(sections: &[Section<'_>], imports: u32) -> Vec<u8> {
    let mut f = vec![0u8; 0x40];
    f[0] = b'M';
    f[1] = b'Z';
    put(&mut f, 0x3c, &0x40u32.to_le_bytes());
    put(&mut f, 0x40, b"PE\0\0");
    put(&mut f, 0x44, &0x8664u16.to_le_bytes());
    put(&mut f, 0x46, &(sections.len() as u16).to_le_bytes());
    put(&mut f, 0x54, &240u16.to_le_bytes());
    let opt = 0x58;
    put(&mut f, opt, &0x020bu16.to_le_bytes());
    put(&mut f, opt + 24, &BASE.to_le_bytes());
    put(&mut f, opt + 120, &imports.to_le_bytes());
    let headers = opt + 240;
    let mut raw = headers + 40 * sections.len();
    for (i, (name, rva, size, data, flags)) in sections.iter().enumerate() {
        let h = headers + 40 * i;
        put(&mut f, h, name.as_bytes());
        put(&mut f, h + 8, &size.to_le_bytes());
        put(&mut f, h + 12, &rva.to_le_bytes());
        put(&mut f, h + 16, &(data.len() as u32).to_le_bytes());
        put(&mut f, h + 20, &(if data.is_empty() { 0 } else { raw as u32 }).to_le_bytes());
        put(&mut f, h + 36, &flags.to_le_bytes());
        put(&mut f, raw, data);
        raw += data.len();
    }
    f
}

/// `main` calls `helper`; `helper` reads `counter`.
fn text() -> Vec<u8> {
    let mut t = vec![0xe8];
    t.extend_from_slice(&(0x10i32 - 5).to_le_bytes());
    t.push(0xc3);
    t.resize(0x10, 0xcc);
    t.extend_from_slice(&[0x8b, 0x05]);
    t.extend_from_slice(&(0x2008i32 - 0x1016).to_le_bytes());
    t.push(0xc3);
    t.resize(0x20, 0xcc);
    t
}

fn data() -> Vec<u8> {
    let mut d = (BASE + 0x1000).to_le_bytes().to_vec();
    d.extend_from_slice(&7u64.to_le_bytes());
    d
}

fn relocations() -> Vec<u8> {
    let mut r = 0x2000u32.to_le_bytes().to_vec();
    r.extend_from_slice(&12u32.to_le_bytes());
    r.extend_from_slice(&(10u16 << 12).to_le_bytes());
    r.extend_from_slice(&0u16.to_le_bytes());
    r
}

fn imports() -> Vec<u8> {
    let mut d = vec![0u8; 0x80];
    put(&mut d, 0, &0x4040u32.to_le_bytes()); // names
    put(&mut d, 12, &0x4030u32.to_le_bytes()); // library
    put(&mut d, 16, &0x4060u32.to_le_bytes()); // slots
    put(&mut d, 0x30, b"k.dll\0");
    put(&mut d, 0x40, &0x4070u64.to_le_bytes());
    put(&mut d, 0x48, &((1u64 << 63) | 9).to_le_bytes());
    put(&mut d, 0x70, b"\0\0exit\0");
    d
}

fn file() -> Vec<u8> {
    pe_file(
        &[
            (".text", 0x1000, 0x20, &text(), 0x6000_0020),
            (".data", 0x2000, 0x18, &data(), 0xc000_0040),
            (".reloc", 0x3000, 12, &relocations(), 0x4200_0040),
            (".idata", 0x4000, 0x80, &imports(), 0xc000_0040),
            (".bss", 0x5000, 0x30, &[], 0xc000_0080),
        ],
        0x4000,
    )
}

fn function(name: &str, rva: u64, size: u32) -> PeFunction {
    PeFunction {
        name: name.to_string(),
        va: BASE + rva,
        size,
        is_public: true,
    }
}

fn unit(id: usize, name: &str, functions: Vec<PeFunction>) -> PeCompilationUnit {
    PeCompilationUnit {
        id,
        name: name.to_string(),
        functions,
        contributions: vec![],
    }
}

fn pdb() -> PdbSymbols {
    PdbSymbols {
        cu_index: PeCuIndex {
            units: vec![
                unit(0, "d:\\src\\main.obj", vec![function("main", 0x1000, 6)]),
                unit(1, "helper.obj", vec![function("helper", 0x1010, 7)]),
            ],
        },
        functions: BTreeMap::from([
            (BASE + 0x1000, function("main", 0x1000, 6)),
            (BASE + 0x1010, function("helper", 0x1010, 7)),
        ]),
        variables: BTreeMap::from([(
            BASE + 0x2008,
            PeVariable {
                name: "counter".to_string(),
                va: BASE + 0x2008,
                is_public: true,
            },
        )]),
    }
}

fn context() -> PeContext {
    load_pe_and_pdb(&file(), pdb()).unwrap()
}

#[test]
fn pe_images_are_loaded() {
    let pe = context();
    assert_eq!((pe.arch, pe.image_base), (PeArch::X86_64, BASE));
    assert_eq!(pe.sections.len(), 5);
    assert_eq!(pe.sections[1].name, ".data");
    assert_eq!(pe.sections[1].va, BASE + 0x2000);
    // The bytes are padded to the virtual size.
    assert_eq!(pe.sections[1].data.len(), 0x18);
    assert_eq!(pe.sections[4].data, vec![0; 0x30]);
    assert_eq!(
        pe.base_relocations,
        vec![BaseReloc {
            va: BASE + 0x2000,
            kind: BaseRelocKind::Dir64
        }]
    );
    assert_eq!(pe.symbols.imports[&(BASE + 0x4060)], "__imp_exit");
    assert_eq!(pe.symbols.imports[&(BASE + 0x4068)], "__imp_k.dll#9");
    assert_eq!(pe.imports, pe.symbols.imports);
    assert_eq!(pe.section_for_va(BASE + 0x2017).unwrap().name, ".data");
    assert_eq!(pe.data_at_va(BASE + 0x2008, 1), Some(&[7u8][..]));
    assert_eq!(pe.data_at_va(BASE + 0x9000, 1), None);
    let (base, sections) = parse_pe_sections(&file()).unwrap();
    assert_eq!(base, BASE);
    assert!(sections[0].contains_rva(0x101f) && !sections[0].contains_va(BASE + 0x1020));
    assert_eq!(sections[1].data_at_rva(0x2008, 1), Some(&[7u8][..]));
    assert_eq!(rva_slice(&sections, 0x2017, 2), None);
    assert_eq!(rva_cstr(&sections, 0x4030), Some("k.dll".to_string()));
    assert_eq!(rva_cstr(&sections, 0x9000), None);
    assert_eq!(parse_base_relocations(&sections, 0)[0].va, 0x2000);
    assert_eq!(parse_imports(&file(), &sections, BASE).len(), 2);
}

#[test]
fn malformed_headers_are_refused() {
    let load = |f: &[u8]| parse_pe_sections(f).err();
    assert_eq!(load(&[0; 8]), Some(PeError::TooSmall));
    assert_eq!(load(&[0; 0x40]), Some(PeError::NoDosSignature));
    let mut f = file();
    f[0x3c..0x40].copy_from_slice(&u32::MAX.to_le_bytes());
    assert_eq!(load(&f), Some(PeError::HeaderOffset));
    let mut f = file();
    f[0x40] = 0;
    assert_eq!(load(&f), Some(PeError::NoSignature));
    let f = file();
    assert_eq!(load(&f[..0x50]), Some(PeError::CoffHeader));
    let mut f = file();
    f[0x44] = 0x4c;
    f[0x45] = 0x01;
    assert_eq!(load(&f), Some(PeError::Machine(0x14c)));
    let f = file();
    assert_eq!(load(&f[..0x59]), Some(PeError::OptionalHeader));
    let mut f = file();
    f[0x58] = 0x0c;
    assert_eq!(load(&f), Some(PeError::Magic(0x020c)));
    let f = file();
    assert_eq!(load(&f[..0x70]), Some(PeError::ImageBase));
    assert_eq!(load(&f[..0x100]), Some(PeError::SectionHeaders));
    let mut f = file();
    let raw = 0x58 + 240 + 40 + 20;
    f[raw..raw + 4].copy_from_slice(&0x00ff_0000u32.to_le_bytes());
    assert_eq!(load(&f), Some(PeError::SectionData(1)));
}

fn targets(parsed: &object::File<'_>, name: &str) -> Vec<(u64, String)> {
    parsed
        .section_by_name(name)
        .unwrap()
        .relocations()
        .map(|(offset, r)| {
            let RelocationTarget::Symbol(s) = r.target() else {
                panic!("no symbol");
            };
            (offset, parsed.symbol_by_index(s).unwrap().name().unwrap().to_string())
        })
        .collect()
}

#[test]
fn modules_become_objects() {
    let pe = context();
    assert!(contributions_fit(&pe, &pe.cu_index.units[0]));
    let (bytes, stats) = emit_pe_cu(&pe, &pe.cu_index.units[0]).unwrap();
    assert_eq!((stats.text_bytes, stats.relocations), (6, 1));
    let parsed = object::File::parse(&bytes[..]).unwrap();
    assert_eq!(targets(&parsed, ".text"), vec![(1, "helper".to_string())]);
    let text = parsed.section_by_name(".text").unwrap();
    assert_eq!(&text.data().unwrap()[..6], &[0xe8, 0, 0, 0, 0, 0xc3]);
    assert!(parsed.symbol_by_name("main").unwrap().is_global());

    let (bytes, _) = emit_pe_cu(&pe, &pe.cu_index.units[1]).unwrap();
    let parsed = object::File::parse(&bytes[..]).unwrap();
    assert_eq!(targets(&parsed, ".text"), vec![(2, "counter".to_string())]);
}

#[test]
fn shared_pe_data_is_relocated_by_name() {
    let pe = context();
    let (bytes, stats) = emit_pe_shared(&pe).unwrap();
    assert_eq!(stats.data_bytes, 0x18);
    assert_eq!(stats.bss_bytes, 0x30);
    assert_eq!(stats.addr64_relocs, 1);
    let parsed = object::File::parse(&bytes[..]).unwrap();
    assert_eq!(targets(&parsed, ".data"), vec![(0, "main".to_string())]);
    assert!(parsed.symbol_by_name("counter").is_some());
    assert!(parsed.symbol_by_name("__delink_pe_data_start").is_some());
}

#[test]
fn contributed_data_belong_to_their_module() {
    let mut symbols = pdb();
    symbols.cu_index.units[1].contributions.push(PeContrib {
        section_name: ".data".to_string(),
        va: BASE + 0x2000,
        size: 16,
    });
    let pe = load_pe_and_pdb(&file(), symbols).unwrap();
    let cu = &pe.cu_index.units[1];
    assert!(contributions_fit(&pe, cu));
    let (bytes, stats) = emit_pe_cu(&pe, cu).unwrap();
    assert_eq!(stats.relocations, 2);
    let parsed = object::File::parse(&bytes[..]).unwrap();
    let data = parsed.section_by_name(".data").unwrap();
    assert_eq!(data.data().unwrap()[8], 7);
    assert_eq!(targets(&parsed, ".data"), vec![(0, "main".to_string())]);
    let counter = parsed.symbols().find(|s| s.name() == Ok("counter") && !s.is_undefined());
    assert_eq!(counter.unwrap().address(), 8);
    let (bytes, _) = emit_pe_shared(&pe).unwrap();
    let parsed = object::File::parse(&bytes[..]).unwrap();
    assert!(parsed.symbol_by_name("counter").is_none());
}

#[test]
fn modules_without_code_do_not_become_objects() {
    let pe = context();
    let cu = unit(3, "x", vec![function("f", 0x9000, 4)]);
    assert_eq!(emit_pe_cu(&pe, &cu).err(), Some(EmitError::NoFunctions));
    let bare = load_pe_and_pdb(&pe_file(&[(".data", 0x2000, 16, &data(), 0xc000_0040)], 0), pdb()).unwrap();
    assert_eq!(emit_pe_cu(&bare, &cu).err(), Some(EmitError::NoText));
    let mut named = unit(4, "y", vec![function("f", 0x1000, 4)]);
    named.functions[0].name = "a\0b".to_string();
    assert!(matches!(emit_pe_cu(&pe, &named).err(), Some(EmitError::Write(_))));
}

#[test]
fn contributions_must_lie_in_their_sections() {
    let pe = context();
    let mut cu = unit(5, "z", vec![function("f", 0x1000, 4)]);
    cu.contributions.push(PeContrib {
        section_name: ".data".to_string(),
        va: BASE + 0x2008,
        size: 8,
    });
    assert!(contributions_fit(&pe, &cu));
    cu.contributions[0].va = BASE + 0x2019;
    assert!(!contributions_fit(&pe, &cu));
    // Without code the contributions of a unit are not read.
    cu.functions.clear();
    assert!(contributions_fit(&pe, &cu));
    assert_eq!(emit_pe_cu(&pe, &cu).err(), Some(EmitError::NoFunctions));
    let bare = load_pe_and_pdb(&pe_file(&[(".data", 0x2000, 16, &data(), 0xc000_0040)], 0), pdb()).unwrap();
    assert!(contributions_fit(&bare, &cu));
    assert_eq!(emit_pe_cu(&bare, &cu).err(), Some(EmitError::NoText));
    cu.functions.push(function("f", 0x1000, 4));
    cu.contributions[0].section_name = ".bss".to_string();
    assert!(contributions_fit(&pe, &cu));
}

#[test]
fn loaded_images_resolve_their_addresses() {
    let pe = context();
    let s = &pe.symbols;
    assert_eq!(s.text_range, Some(BASE + 0x1000..BASE + 0x1020));
    assert_eq!(s.rdata_range, None);
    assert_eq!(s.data_range, Some(BASE + 0x2000..BASE + 0x2018));
    assert_eq!(s.bss_range, Some(pe.sections[4].va..pe.sections[4].va + 0x30));
    assert_eq!(s.idata_range, Some(BASE + 0x4000..BASE + 0x4080));
    let data = |n| Some(("__delink_pe_data_start".to_string(), n));
    assert_eq!(s.resolve_data(BASE + 0x2010), data(0x10));
    assert_eq!(s.resolve_data(BASE + 0x2018), None);
    assert_eq!(s.resolve_data(BASE + 0x4008), Some(("__delink_pe_idata_start".to_string(), 8)));
    assert!(s.in_text(BASE + 0x101f) && !s.in_text(BASE + 0x1020));
}

#[test]
fn pe_plans_and_sums() {
    let pe = context();
    let mut index = pe.cu_index;
    index.units.push(unit(2, "none.obj", vec![function("n", 0x1000, 0)]));
    let plan = split_plan(&index);
    let rows: Vec<(usize, &str)> = plan.iter().map(|p| (p.unit, p.file.as_str())).collect();
    assert_eq!(rows, vec![(0, "0000_main.obj"), (1, "0001_helper.obj")]);
    assert_eq!(object_name(&index.units[2]), "0002_none.obj");
    assert_eq!(sanitize_file_stem("a\\b c.obj"), "b c");
    let rows = listings(&index);
    assert_eq!((rows[1].bytes, rows[1].functions), (7, 1));
    let mut a = EmitStats::default();
    a.relocations = 4;
    let outcome = |result| CuOutcome {
        cu_name: "u".to_string(),
        file: "f".to_string(),
        result,
    };
    let (sum, failures) = total(&vec![outcome(Err("no code".to_string())), outcome(Ok(a))]);
    assert_eq!((sum.relocations, failures), (4, 1));
}
