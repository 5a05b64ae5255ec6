use metrowrap::elf::{
    Elf, ElfHeader, Relocation, Section, StrTab, SymTab, Symbol, SHT_PROGBITS, SHT_REL,
    SHT_STRTAB, SHT_SYMTAB,
};
use metrowrap::splice::{
    append_relocation, fill_rodata, first_global_index, merge_stub_symbols, patch_e_flags,
    read_word, rodata_sections_after, splice_bytes, transplant_text, update_relocations,
    upgrade_undefined,
};

fn sym(name: &str, st_name: u32, value: u32, size: u32, info: u8, shndx: u16) -> Symbol {
    let mut s = Symbol::new(st_name, value, size, info, 0, shndx);
    s.name = name.to_string();
    s
}

fn named(name: &str, sh_type: u32, data: Vec<u8>) -> Section {
    let mut s = Section::new(0, sh_type, 0, 0, 0, data.len() as u32, 0, 0, 4, 0, data);
    s.name = name.to_string();
    s
}

fn rel(offset: u32, index: u32, ty: u32) -> Vec<u8> {
    Relocation { r_offset: offset, r_info: (index << 8) | ty, symbol: String::new() }.pack()
}

fn object(symbols: Vec<Symbol>, rel_data: Vec<u8>) -> Elf {
    let symtab_sec = named(".symtab", SHT_SYMTAB, vec![]);
    let empty = named(".strtab", SHT_STRTAB, vec![]);
    Elf {
        header: ElfHeader { e_flags: 0, e_shstrndx: 0 },
        sections: vec![
            named("", 0, vec![]),
            named(".text", SHT_PROGBITS, vec![0; 8]),
            named(".rel.text", SHT_REL, rel_data),
            symtab_sec.clone(),
        ],
        symtab: SymTab { section: symtab_sec, symbols },
        strtab: StrTab::new(empty.clone()),
        shstrtab: StrTab::new(empty),
        symtab_idx: 3,
        strtab_idx: 0,
        shstrtab_idx: 0,
    }
}

#[test]
fn merge_moves_stub_definitions_into_undefined_slots() {
    let symbols = vec![
        sym("", 0, 0, 0, 0, 0),
        sym("f", 10, 0, 0, 0x10, 0),        // undefined slot for f
        sym("g", 12, 0, 0, 0x10, 0),        // undefined, never defined
        sym("local", 14, 0, 0, 0x00, 1),
        sym("f", 20, 16, 8, 0x12, 1),       // the stub's definition of f
        sym("h", 22, 0, 4, 0x12, 1),
    ];
    let mut data = rel(0, 4, 5);
    data.extend(rel(4, 5, 5));
    data.extend(rel(8, 2, 4));
    data.extend(rel(12, 9, 4)); // past the table: left alone
    let mut elf = object(symbols, data);
    merge_stub_symbols(&mut elf);

    let names: Vec<&str> = elf.symtab.symbols.iter().map(|s| s.name.as_str()).collect();
    assert_eq!(vec!["", "f", "g", "local", "h"], names);
    // the slot takes the definition but keeps its name offset
    assert_eq!(sym("f", 10, 16, 8, 0x12, 1), elf.symtab.symbols[1]);
    // relocations follow their symbols
    let rs = Relocation::unpack_all(&elf.sections[2].data);
    assert_eq!(4, rs.len());
    assert_eq!((0, 1, 5), (rs[0].r_offset, rs[0].symbol_index(), rs[0].type_id()));
    assert_eq!((4, 4), (rs[1].r_offset, rs[1].symbol_index()));
    assert_eq!(2, rs[2].symbol_index());
    assert_eq!(9, rs[3].symbol_index());
    // sh_info is the first non-local symbol
    assert_eq!(1, elf.symtab.section.sh_info);
}

#[test]
fn merge_without_definitions_changes_nothing() {
    let symbols = vec![sym("", 0, 0, 0, 0, 0), sym("f", 10, 0, 0, 0x10, 0), sym("g", 12, 0, 4, 0x12, 1)];
    let mut elf = object(symbols, rel(0, 1, 4));
    let before = elf.clone();
    merge_stub_symbols(&mut elf);
    assert_eq!(before, elf);
}

#[test]
fn first_global_is_the_symbol_count_when_all_are_local() {
    let locals = vec![sym("", 0, 0, 0, 0, 0), sym("a", 0, 0, 0, 0x03, 1)];
    assert_eq!(2, first_global_index(&locals));
    let mixed = vec![sym("", 0, 0, 0, 0, 0), sym("a", 0, 0, 0, 0x22, 1)];
    assert_eq!(1, first_global_index(&mixed));
}

#[test]
fn transplant_takes_the_stub_length_and_pads() {
    let mut text = named(".text", SHT_PROGBITS, vec![0; 4]);
    text.sh_size = 6;
    transplant_text(&mut text, &[1, 2, 3, 4, 5, 6, 7]);
    assert_eq!(vec![1, 2, 3, 4, 0, 0], text.data);
    let mut exact = named(".text", SHT_PROGBITS, vec![0; 2]);
    transplant_text(&mut exact, &[9, 8, 7]);
    assert_eq!(vec![9, 8], exact.data);
}

#[test]
fn patch_e_flags_writes_bytes_36_to_40() {
    let mut bytes = vec![0xAAu8; 44];
    patch_e_flags(&mut bytes, 0x10A23001);
    assert_eq!(vec![0x01, 0x30, 0xA2, 0x10], bytes[36..40].to_vec());
    assert_eq!(vec![0xAA; 36], bytes[0..36].to_vec());
    assert_eq!(vec![0xAA; 4], bytes[40..44].to_vec());
}

#[test]
fn splice_bytes_overwrites_a_range() {
    let mut data = vec![0u8; 8];
    splice_bytes(&mut data, 2, &[1, 2, 3, 4, 5], 3);
    assert_eq!(vec![0, 0, 1, 2, 3, 0, 0, 0], data);
}

#[test]
fn append_relocation_grows_the_section() {
    let mut sec = named(".rel.text", SHT_REL, vec![]);
    let r = Relocation { r_offset: 8, r_info: 0x305, symbol: String::new() };
    append_relocation(&mut sec, &r);
    append_relocation(&mut sec, &r);
    assert_eq!(16, sec.sh_size);
    assert_eq!(r.pack(), sec.data[8..16].to_vec());
}

#[test]
fn upgrade_fills_only_undefined_symbols() {
    let def = sym("x", 5, 0x40, 12, 0x12, 3);
    let mut und = sym("x", 9, 0, 0, 0x10, 0);
    upgrade_undefined(&mut und, &def);
    assert_eq!(sym("x", 9, 0x40, 12, 0x12, 3), und);
    let mut defined = sym("x", 9, 1, 1, 0x11, 2);
    upgrade_undefined(&mut defined, &def);
    assert_eq!(sym("x", 9, 1, 1, 0x11, 2), defined);
}

#[test]
fn read_word_needs_four_bytes() {
    let data = [1u8, 2, 3, 4, 5];
    assert_eq!(Some(0x05040302), read_word(&data, 1));
    assert_eq!(None, read_word(&data, 2));
}

#[test]
fn rodata_after_text_and_fill() {
    let mut sections = vec![
        named(".text", SHT_PROGBITS, vec![0; 4]),
        named(".rodata", SHT_PROGBITS, vec![0; 3]),
        named(".data", SHT_PROGBITS, vec![]),
        named(".rodata", SHT_PROGBITS, vec![0; 2]),
        named(".rodata", SHT_PROGBITS, vec![0; 5]),
    ];
    assert_eq!(vec![1, 3], rodata_sections_after(&sections, 0, 2));
    assert_eq!(vec![1, 3, 4], rodata_sections_after(&sections, 0, 0));
    assert_eq!(vec![4], rodata_sections_after(&sections, 3, 1));
    let offsets = fill_rodata(&mut sections, &vec![1, 3], &[1, 2, 3, 4, 5, 6]);
    assert_eq!(vec![3, 5], offsets);
    assert_eq!(vec![1, 2, 3], sections[1].data);
    assert_eq!(vec![4, 5], sections[3].data);
    assert_eq!(2, sections[3].sh_addralign);
    assert_eq!(4, sections[4].sh_addralign);
}

#[test]
fn relocations_follow_inserted_locals_and_rodata_sections() {
    let mut rel_text = named(".rel.text", SHT_REL, rel(0, 2, 4));
    rel_text.data.extend(rel(4, 5, 4));
    rel_text.sh_info = 1;
    rel_text.sh_name = 7;
    let mut rel_rodata = named(".rel.rodata", SHT_REL, rel(5, 4, 2));
    rel_rodata.data.extend(rel(15, 4, 2));
    rel_rodata.data.extend(rel(20, 6, 2));
    rel_rodata.sh_info = 2;
    rel_rodata.sh_name = 9;
    let mut sections = vec![
        named("", 0, vec![]),
        named(".text", SHT_PROGBITS, vec![0; 8]),
        named(".rodata", SHT_PROGBITS, vec![0; 13]),
        named(".rodata", SHT_PROGBITS, vec![0; 16]),
        rel_text,
        rel_rodata,
    ];
    let extra = update_relocations(&mut sections, &vec![2, 3], &vec![13, 29], 3, 2);

    // .rel.text: indices at or past 3 move on by 2
    let t = Relocation::unpack_all(&sections[4].data);
    assert_eq!(vec![2, 7], t.iter().map(|r| r.symbol_index()).collect::<Vec<usize>>());
    assert_eq!(16, sections[4].sh_size);
    // .rel.rodata keeps what falls in the first .rodata section ...
    let r0 = Relocation::unpack_all(&sections[5].data);
    assert_eq!(vec![5], r0.iter().map(|r| r.r_offset).collect::<Vec<u32>>());
    assert_eq!((2, 8), (sections[5].sh_info, sections[5].sh_size));
    // ... and the rest goes to a new section for the second one
    assert_eq!(1, extra.len());
    assert_eq!(3, extra[0].sh_info);
    assert_eq!(9, extra[0].sh_name);
    let r1 = Relocation::unpack_all(&extra[0].data);
    assert_eq!(vec![2, 7], r1.iter().map(|r| r.r_offset).collect::<Vec<u32>>());
    assert_eq!(vec![4, 6], r1.iter().map(|r| r.symbol_index()).collect::<Vec<usize>>());
}

#[test]
fn no_inserted_locals_change_no_relocations() {
    let mut sections = vec![named(".rel.text", SHT_REL, rel(0, 9, 4))];
    let before = sections.clone();
    let extra = update_relocations(&mut sections, &vec![], &vec![], 3, 0);
    assert!(extra.is_empty());
    assert_eq!(before, sections);
}

#[test]
fn try_merge_refuses_partial_relocation_entries() {
    let syms = vec![
        sym("", 0, 0, 0, 0, 0),
        sym("f", 1, 0, 0, 0x10, 0),
        sym("f", 1, 0, 8, 0x12, 1),
    ];
    let mut bad = object(syms.clone(), vec![1, 2, 3]);
    let before = bad.clone();
    assert!(!metrowrap::splice::try_merge_stub_symbols(&mut bad));
    assert_eq!(before, bad);
    let mut good = object(syms, rel(0, 2, 4));
    assert!(metrowrap::splice::try_merge_stub_symbols(&mut good));
    assert_eq!(2, good.symtab.symbols.len());
}
