use metrowrap::elf::{
    Elf, ElfHeader, Relocation, Section, StrTab, SymTab, Symbol, SHT_NOBITS, SHT_PROGBITS,
    SHT_REL, SHT_STRTAB, SHT_SYMTAB,
};
use metrowrap::split::{alignment_for, split_monolithic_sections, try_split_monolithic_sections};

fn sym(name: &str, value: u32, size: u32, info: u8, shndx: u16) -> Symbol {
    let mut s = Symbol::new(0, value, size, info, 0, shndx);
    s.name = name.to_string();
    s
}

fn section(name: &str, sh_type: u32, data: Vec<u8>) -> Section {
    let mut s = Section::new(0, sh_type, 0, 0, 0, data.len() as u32, 0, 0, 4, 0, data);
    s.name = name.to_string();
    s
}

/// An object with a .text of two 4-byte functions (the second with one
/// relocation), and a .bss of a 2-byte and a 4-byte variable.
fn sample(with_rel: bool) -> Elf {
    let names = b"\0.text\0.symtab\0.strtab\0.shstrtab\0.bss\0.rel.text\0".to_vec();
    let shstrtab = StrTab::new(section(".shstrtab", SHT_STRTAB, names));
    let strtab = StrTab::new(section(".strtab", SHT_STRTAB, b"\0a\0b\0v\0w\0".to_vec()));
    let symbols = vec![
        sym("", 0, 0, 0, 0),
        sym("a", 0, 4, 0x12, 1),
        sym("b", 4, 4, 0x12, 1),
        sym("v", 0, 2, 0x11, 5),
        sym("w", 4, 4, 0x11, 5),
        sym("label", 6, 0, 0x00, 1),
    ];
    let mut symtab_sec = section(".symtab", SHT_SYMTAB, vec![]);
    symtab_sec.sh_link = 3;
    let mut sections = vec![
        section("", 0, vec![]),
        section(".text", SHT_PROGBITS, vec![1, 2, 3, 4, 5, 6, 7, 8]),
        symtab_sec.clone(),
        section(".strtab", SHT_STRTAB, b"\0a\0b\0v\0w\0".to_vec()),
        section(".shstrtab", SHT_STRTAB, vec![]),
    ];
    let mut bss = section(".bss", SHT_NOBITS, vec![]);
    bss.sh_size = 8;
    sections.push(bss);
    if with_rel {
        let r = Relocation { r_offset: 5, r_info: (3 << 8) | 4, symbol: String::new() };
        let mut rel = section(".rel.text", SHT_REL, r.pack());
        rel.sh_link = 2;
        rel.sh_info = 1;
        sections.push(rel);
    }
    Elf {
        header: ElfHeader { e_flags: 0, e_shstrndx: 4 },
        sections,
        symtab: SymTab { section: symtab_sec, symbols },
        strtab,
        shstrtab,
        symtab_idx: 2,
        strtab_idx: 3,
        shstrtab_idx: 4,
    }
}

#[test]
fn alignment_follows_size_and_name() {
    assert_eq!(1, alignment_for("x", 1));
    assert_eq!(2, alignment_for("x", 2));
    assert_eq!(4, alignment_for("x", 3));
    assert_eq!(4, alignment_for("x", 40));
    assert_eq!(4, alignment_for("@lit", 1));
    assert_eq!(4, alignment_for("__at__lit", 2));
}

#[test]
fn splits_text_and_bss_into_sections_per_symbol() {
    let mut elf = sample(true);
    split_monolithic_sections(&mut elf, false, &vec![]);
    let names: Vec<&str> = elf.sections.iter().map(|s| s.name.as_str()).collect();
    assert_eq!(
        vec!["", ".text.a", ".text.b", ".rel.text.b", ".symtab", ".strtab", ".shstrtab", ".bss.v", ".bss.w"],
        names
    );
    assert_eq!(vec![1, 2, 3, 4], elf.sections[1].data);
    assert_eq!(vec![5, 6, 7, 8], elf.sections[2].data);
    assert_eq!(4, elf.sections[1].sh_size);
    assert_eq!(4, elf.sections[1].sh_addralign);
    assert_eq!(2, elf.sections[7].sh_addralign);
    assert_eq!(2, elf.sections[7].sh_size);
    assert!(elf.sections[7].data.is_empty());
    // the new REL section points at the symbol table and at .text.b, with
    // the relocation made relative to b
    let rel = &elf.sections[3];
    assert_eq!(SHT_REL, rel.sh_type);
    assert_eq!(4, rel.sh_link);
    assert_eq!(2, rel.sh_info);
    let r = Relocation::unpack(&rel.data);
    assert_eq!(1, r.r_offset);
    assert_eq!((3 << 8) | 4, r.r_info);
    // symbols move to their own sections at offset 0; a label follows the
    // range that holds it
    assert_eq!((1, 0), (elf.symtab.symbols[1].st_shndx, elf.symtab.symbols[1].st_value));
    assert_eq!((2, 0), (elf.symtab.symbols[2].st_shndx, elf.symtab.symbols[2].st_value));
    assert_eq!((7, 0), (elf.symtab.symbols[3].st_shndx, elf.symtab.symbols[3].st_value));
    assert_eq!((8, 0), (elf.symtab.symbols[4].st_shndx, elf.symtab.symbols[4].st_value));
    assert_eq!((2, 2), (elf.symtab.symbols[5].st_shndx, elf.symtab.symbols[5].st_value));
    // the tables follow, and are packed into their sections
    assert_eq!((4, 5, 6), (elf.symtab_idx, elf.strtab_idx, elf.shstrtab_idx));
    assert_eq!(6, elf.header.e_shstrndx);
    assert_eq!(6 * 16, elf.sections[4].data.len());
    assert_eq!(elf.symtab.symbols[2].pack(), elf.sections[4].data[32..48].to_vec());
    let sh = &elf.sections[6].data;
    let text_a = elf.sections[1].sh_name as usize;
    assert_eq!(b".text.a\0".to_vec(), sh[text_a..text_a + 8].to_vec());
    assert_eq!(".rel.text.b", elf.shstrtab.get_str(elf.sections[3].sh_name as usize));
}

#[test]
fn plain_names_keep_the_section_names() {
    let mut elf = sample(false);
    split_monolithic_sections(&mut elf, true, &vec![]);
    let names: Vec<&str> = elf.sections.iter().map(|s| s.name.as_str()).collect();
    assert_eq!(vec!["", ".text", ".text", ".symtab", ".strtab", ".shstrtab", ".bss", ".bss"], names);
    assert_eq!(elf.sections[1].sh_name, elf.sections[2].sh_name);
}

#[test]
fn symbol_order_orders_nobits_sections() {
    let mut elf = sample(false);
    let order = vec![("w".to_string(), 0usize), ("v".to_string(), 1usize)];
    split_monolithic_sections(&mut elf, false, &order);
    assert_eq!(".bss.w", elf.sections[6].name);
    assert_eq!(".bss.v", elf.sections[7].name);
    assert_eq!(7, elf.symtab.symbols[3].st_shndx);
    assert_eq!(6, elf.symtab.symbols[4].st_shndx);
}

#[test]
fn a_gap_leaves_the_section_whole() {
    let mut elf = sample(false);
    // b no longer starts where a ends, nor at a's end aligned
    elf.symtab.symbols[2].st_value = 5;
    elf.symtab.symbols[2].st_size = 3;
    split_monolithic_sections(&mut elf, false, &vec![]);
    let names: Vec<&str> = elf.sections.iter().map(|s| s.name.as_str()).collect();
    assert_eq!(vec!["", ".text", ".symtab", ".strtab", ".shstrtab", ".bss.v", ".bss.w"], names);
    assert_eq!(1, elf.symtab.symbols[1].st_shndx);
}

#[test]
fn nothing_to_split_changes_nothing() {
    let mut elf = sample(false);
    elf.sections[1].name = ".code".to_string();
    elf.sections[5].name = ".common".to_string();
    let before = elf.clone();
    split_monolithic_sections(&mut elf, false, &vec![]);
    assert_eq!(before, elf);
}

#[test]
fn non_matching_symbols_do_not_split() {
    let mut elf = sample(false);
    elf.symtab.symbols[2].name = "b_NON_MATCHING".to_string();
    split_monolithic_sections(&mut elf, false, &vec![]);
    // b no longer covers the end of .text, so .text stays whole
    assert_eq!(".text", elf.sections[1].name);
}

#[test]
fn splitting_keeps_every_symbol_but_its_place() {
    let before = sample(true);
    let mut elf = sample(true);
    split_monolithic_sections(&mut elf, false, &vec![]);
    assert_eq!(before.symtab.symbols.len(), elf.symtab.symbols.len());
    for (a, b) in before.symtab.symbols.iter().zip(elf.symtab.symbols.iter()) {
        assert_eq!(a.name, b.name);
        assert_eq!(a.st_name, b.st_name);
        assert_eq!(a.st_size, b.st_size);
        assert_eq!(a.st_info, b.st_info);
        assert_eq!(a.st_other, b.st_other);
    }
    assert_eq!(before.symtab.symbols[0], elf.symtab.symbols[0]);
}

#[test]
fn try_split_does_what_split_does_on_a_ready_object() {
    let mut a = sample(true);
    let mut b = sample(true);
    assert!(try_split_monolithic_sections(&mut a, false, &vec![]));
    split_monolithic_sections(&mut b, false, &vec![]);
    assert_eq!(b, a);
}

#[test]
fn try_split_refuses_symbols_near_four_gib_and_partial_relocations() {
    let mut elf = sample(false);
    elf.symtab.symbols[2].st_value = 0xffff_fffc;
    let before = elf.clone();
    assert!(!try_split_monolithic_sections(&mut elf, false, &vec![]));
    assert_eq!(before, elf);

    let mut elf = sample(true);
    elf.sections[6].data.push(0);
    let before = elf.clone();
    assert!(!try_split_monolithic_sections(&mut elf, false, &vec![]));
    assert_eq!(before, elf);
}

#[test]
fn try_split_refuses_splitting_a_table() {
    let mut elf = sample(false);
    elf.symtab_idx = 1;
    let before = elf.clone();
    assert!(!try_split_monolithic_sections(&mut elf, false, &vec![]));
    assert_eq!(before, elf);
}
