use object::{Object, ObjectSection, ObjectSymbol, RelocationTarget};

use delink::objfile::{
    Machine, ObjectFormat, ObjectWriter, RelocationType, SectionKind, SymbolKind, WriteError,
};

#[test]
fn elf_objects_hold_what_was_added() {
    let mut w = ObjectWriter::new(ObjectFormat::Elf, Machine::Aarch64);
    let text = w.add_text_section();
    assert_eq!(w.append_data(text, &[1, 2, 3, 4], 4), 0);
    assert_eq!(w.append_data(text, &[5, 6, 7, 8], 8), 8);
    let bss = w.add_section("", ".bss", SectionKind::UninitializedData);
    assert_eq!(w.append_bss(bss, 40, 16), 0);
    let f = w.add_symbol("f", 8, 4, SymbolKind::Text, true, false, Some(text));
    let u = w.add_symbol("outside", 0, 0, SymbolKind::Unknown, true, false, None);
    assert!(w.add_relocation(text, 8, u, 12, RelocationType::Elf(283)));
    w.add_comdat(f, text);
    let file = w.write().unwrap();

    let parsed = object::File::parse(&file[..]).unwrap();
    assert_eq!(parsed.architecture(), object::Architecture::Aarch64);
    let section = parsed.section_by_name(".text").unwrap();
    assert_eq!(
        section.data().unwrap(),
        &[1, 2, 3, 4, 0, 0, 0, 0, 5, 6, 7, 8]
    );
    let relocs: Vec<_> = section.relocations().collect();
    assert_eq!(relocs.len(), 1);
    assert_eq!(relocs[0].0, 8);
    assert_eq!(relocs[0].1.addend(), 12);
    let RelocationTarget::Symbol(target) = relocs[0].1.target() else {
        panic!("no symbol");
    };
    assert_eq!(parsed.symbol_by_index(target).unwrap().name(), Ok("outside"));
    assert_eq!(parsed.section_by_name(".bss").unwrap().size(), 40);
    let symbol = parsed.symbol_by_name("f").unwrap();
    assert_eq!((symbol.address(), symbol.size()), (8, 4));
    assert!(symbol.is_global() && !symbol.is_undefined());
    assert!(parsed.symbol_by_name("outside").unwrap().is_undefined());
    assert_eq!(parsed.comdats().count(), 1);
}

#[test]
fn elf_flags_and_types_are_written() {
    let mut w = ObjectWriter::new(ObjectFormat::Elf, Machine::Arm);
    let s = w.add_section("", ".ARM.exidx", SectionKind::Elf(0x7000_0001));
    w.set_elf_flags(s, 2);
    w.append_data(s, &[0; 8], 4);
    let file = w.write().unwrap();
    let parsed = object::File::parse(&file[..]).unwrap();
    let section = parsed.section_by_name(".ARM.exidx").unwrap();
    assert_eq!(
        section.flags(),
        object::SectionFlags::Elf { sh_flags: 2 }
    );
    assert_eq!(section.size(), 8);
}

#[test]
fn coff_addends_go_into_their_fields() {
    let mut w = ObjectWriter::new(ObjectFormat::Coff, Machine::X86_64);
    let text = w.add_text_section();
    w.append_data(text, &[0xe8, 0, 0, 0, 0], 16);
    let u = w.add_symbol("callee", 0, 0, SymbolKind::Data, true, false, None);
    // The writer adds the width of a branch field: what is left is 0x10.
    assert!(w.add_relocation(text, 1, u, 0x10 - 4, RelocationType::Coff(4)));
    let file = w.write().unwrap();
    let parsed = object::File::parse(&file[..]).unwrap();
    let section = parsed.section_by_name(".text").unwrap();
    assert_eq!(section.data().unwrap(), &[0xe8, 0x10, 0, 0, 0]);
    assert_eq!(section.relocations().count(), 1);
}

#[test]
fn fields_outside_their_section_are_refused() {
    let mut w = ObjectWriter::new(ObjectFormat::Coff, Machine::X86_64);
    let text = w.add_text_section();
    w.append_data(text, &[0; 4], 16);
    let u = w.add_symbol("callee", 0, 0, SymbolKind::Data, true, false, None);
    assert!(!w.add_relocation(text, 2, u, 100, RelocationType::Coff(4)));
    assert!(w.add_relocation(text, 0, u, 100, RelocationType::Coff(4)));
}

#[test]
fn macho_names_get_an_underscore() {
    let mut w = ObjectWriter::new(ObjectFormat::MachO, Machine::I386);
    let text = w.add_section("__TEXT", "__text", SectionKind::Text);
    w.append_data(text, &[0xe8, 0, 0, 0, 0, 0xc3], 16);
    w.add_symbol("main", 0, 6, SymbolKind::Text, true, false, Some(text));
    let u = w.add_symbol("puts", 0, 0, SymbolKind::Text, true, false, None);
    assert!(w.add_relocation(text, 1, u, -4, RelocationType::MachOBranch));
    let file = w.write().unwrap();
    let parsed = object::File::parse(&file[..]).unwrap();
    let names: Vec<&str> = parsed.symbols().map(|s| s.name().unwrap()).collect();
    assert!(names.contains(&"_main") && names.contains(&"_puts"));
}

#[test]
fn names_with_a_nul_cannot_be_written() {
    let mut w = ObjectWriter::new(ObjectFormat::Elf, Machine::Arm);
    w.add_symbol("a\0b", 0, 0, SymbolKind::Unknown, true, false, None);
    assert_eq!(w.write(), Err(WriteError::Unwritable));
}

#[test]
fn macho_labels_are_refused() {
    let mut w = ObjectWriter::new(ObjectFormat::MachO, Machine::I386);
    let text = w.add_section("__TEXT", "__text", SectionKind::Text);
    w.append_data(text, &[0xc3], 16);
    w.add_symbol("label", 0, 0, SymbolKind::Label, true, false, Some(text));
    assert_eq!(w.write(), Err(WriteError::Refused));
}

#[test]
fn macho_objects_are_written_up_to_the_last_address() {
    let object = |sizes: &[u64], value: u64| {
        let mut w = ObjectWriter::new(ObjectFormat::MachO, Machine::X86_64);
        let text = w.add_section("__TEXT", "__text", SectionKind::Text);
        w.append_data(text, &[0xc3; 3], 1);
        for size in sizes {
            let bss = w.add_section("__DATA", "__bss", SectionKind::UninitializedData);
            w.append_bss(bss, *size, 16);
            w.add_symbol("v", value, 0, SymbolKind::Data, true, false, Some(bss));
        }
        w.write()
    };
    let file = object(&[0x1_0000_0000_0000], 0).unwrap();
    let parsed = object::File::parse(&file[..]).unwrap();
    let bss = parsed.section_by_name("__bss").unwrap();
    assert_eq!((bss.address(), bss.size()), (16, 0x1_0000_0000_0000));
    // The second section begins on the next multiple of its alignment.
    assert!(object(&[1, u64::MAX - 32], 0).is_ok());
    assert_eq!(object(&[1, u64::MAX - 31], 0), Err(WriteError::Unwritable));
    assert!(object(&[1], u64::MAX - 16).is_ok());
    assert_eq!(object(&[1], u64::MAX - 15), Err(WriteError::Unwritable));
}
