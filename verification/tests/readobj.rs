use delink::elf::binary::ElfError;
use delink::elf::readobj::{
    dump_text, read_elf64, readobj, DumpFlags, DumpHeader, DumpReloc, DumpSection, DumpSymbol,
    DumpTarget, ObjectDump,
};
use delink::objfile::{
    Machine, ObjectFormat, ObjectWriter, RelocationType, SectionKind, SymbolKind,
};

fn reloc(offset: u64, target: DumpTarget, addend: i64, flags: DumpFlags) -> DumpReloc {
    DumpReloc {
        offset,
        target,
        addend,
        flags,
    }
}

fn dumped_symbol(index: usize, name: Option<&str>) -> DumpSymbol {
    DumpSymbol {
        index,
        name: name.map(|n| n.to_string()),
        addr: 0x1_2345_6789,
        size: 4,
        kind: "Text".to_string(),
        scope: "Dynamic".to_string(),
        section: "Undefined".to_string(),
    }
}

#[test]
fn dumps_are_shown_line_by_line() {
    let dump = ObjectDump {
        header: DumpHeader {
            e_type: 1,
            e_machine: 0xb7,
        },
        sections: vec![
            DumpSection {
                name: None,
                addr: 0,
                size: 0,
                kind: "Metadata".to_string(),
            },
            DumpSection {
                name: Some(".text".to_string()),
                addr: 0x40,
                size: 12,
                kind: "Text".to_string(),
            },
        ],
        relocs: vec![
            vec![],
            vec![
                reloc(8, DumpTarget::Symbol(2), 12, DumpFlags::Elf(283)),
                reloc(9, DumpTarget::Symbol(3), -1, DumpFlags::Elf(0x7777)),
                reloc(
                    10,
                    DumpTarget::Other("Absolute".to_string()),
                    0,
                    DumpFlags::Other("Generic".to_string()),
                ),
                reloc(11, DumpTarget::Symbol(9), 0, DumpFlags::Elf(0)),
            ],
        ],
        symbols: vec![
            dumped_symbol(1, Some("")),
            dumped_symbol(2, Some("callee")),
            dumped_symbol(3, None),
        ],
    };
    let spaces = |n: usize| " ".repeat(n);
    let lines = vec![
        "ELF  e_type=0x1 e_machine=0xb7".to_string(),
        "".to_string(),
        "SECTIONS".to_string(),
        format!("  <?>{} addr=0x00000000 size=       0 kind=Metadata", spaces(21)),
        format!("  .text{} addr=0x00000040 size=      12 kind=Text", spaces(19)),
        "".to_string(),
        "SYMBOLS".to_string(),
        format!(
            "  callee{} value=0x123456789 size=     4 kind=Text scope=Dynamic section=Undefined",
            spaces(34)
        ),
        format!(
            "  <?>{} value=0x123456789 size=     4 kind=Text scope=Dynamic section=Undefined",
            spaces(37)
        ),
        "".to_string(),
        "RELOCATIONS".to_string(),
        "  in .text:".to_string(),
        format!("    0x00000008 -> callee{} addend=+0xc elf_type=R_AARCH64_CALL26", spaces(34)),
        format!(
            "    0x00000009 -> <?>{} addend=+0xffffffffffffffff elf_type=R_AARCH64_30583",
            spaces(37)
        ),
        format!("    0x0000000a -> Absolute{} addend=+0x0 Generic", spaces(32)),
        format!("    0x0000000b -> <?>{} addend=+0x0 elf_type=R_AARCH64_NONE", spaces(37)),
        "".to_string(),
    ];
    assert_eq!(dump_text(&dump), lines.join("\n"));
}

#[test]
fn objects_are_read_and_shown() {
    let mut w = ObjectWriter::new(ObjectFormat::Elf, Machine::Aarch64);
    let text = w.add_text_section();
    w.append_data(text, &[0; 12], 4);
    let bss = w.add_section("", ".bss", SectionKind::UninitializedData);
    w.append_bss(bss, 40, 16);
    w.add_symbol("f", 8, 4, SymbolKind::Text, true, false, Some(text));
    let u = w.add_symbol("outside", 0, 0, SymbolKind::Unknown, true, false, None);
    assert!(w.add_relocation(text, 8, u, 12, RelocationType::Elf(283)));
    let file = w.write().unwrap();

    let dump = read_elf64(&file).unwrap();
    assert_eq!((dump.header.e_type, dump.header.e_machine), (1, 0xb7));
    let at = dump
        .sections
        .iter()
        .position(|s| s.name.as_deref() == Some(".text"))
        .unwrap();
    let code = &dump.sections[at];
    assert_eq!((code.addr, code.size, code.kind.as_str()), (0, 12, "Text"));
    assert_eq!(dump.relocs.len(), dump.sections.len());
    assert_eq!(dump.relocs[at].len(), 1);
    assert_eq!((dump.relocs[at][0].offset, dump.relocs[at][0].addend), (8, 12));
    let f = dump.symbols.iter().find(|s| s.name.as_deref() == Some("f")).unwrap();
    assert_eq!((f.addr, f.size, f.kind.as_str(), f.scope.as_str()), (8, 4, "Text", "Dynamic"));

    let shown = readobj(&file).unwrap();
    assert!(shown.starts_with("ELF  e_type=0x1 e_machine=0xb7\n\nSECTIONS\n"));
    assert!(shown.contains("addr=0x00000000 size=      40 kind=UninitializedData\n"));
    assert!(shown.contains("value=0x00000008 size=     4 kind=Text scope=Dynamic section=Section("));
    assert!(shown.contains("  in .text:\n    0x00000008 -> outside "));
    assert!(shown.ends_with(" addend=+0xc elf_type=R_AARCH64_CALL26\n"));
}

#[test]
fn other_files_are_not_shown() {
    assert_eq!(readobj(b"\x7fELF").err(), Some(ElfError::Unparsable));
    assert!(read_elf64(b"").is_none());
}
