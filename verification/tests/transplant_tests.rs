use metrowrap::elf::{
    Elf, ElfHeader, Section, StrTab, SymTab, Symbol, SHT_PROGBITS, SHT_STRTAB, SHT_SYMTAB,
    STB_GLOBAL, STT_FUNC,
};
use metrowrap::transplant::transplant_asm_object;

fn sym(name: &str, st_name: u32, value: u32, size: u32, info: u8, shndx: u16) -> Symbol {
    let mut s = Symbol::new(st_name, value, size, info, 0, shndx);
    s.name = name.to_string();
    s
}

fn named(name: &str, sh_type: u32, data: Vec<u8>, size: u32) -> Section {
    let mut s = Section::new(0, sh_type, 0, 0, 0, size, 0, 0, 4, 0, data);
    s.name = name.to_string();
    s
}

fn object(mut sections: Vec<Section>, symbols: Vec<Symbol>, strtab: Vec<u8>) -> Elf {
    let symtab_sec = named(".symtab", SHT_SYMTAB, vec![], 0);
    sections.push(symtab_sec.clone());
    let symtab_idx = sections.len() - 1;
    Elf {
        header: ElfHeader { e_flags: 0, e_shstrndx: 0 },
        sections,
        symtab: SymTab { section: symtab_sec, symbols },
        strtab: StrTab::new(named(".strtab", SHT_STRTAB, strtab, 0)),
        shstrtab: StrTab::new(named(".shstrtab", SHT_STRTAB, vec![0], 1)),
        symtab_idx,
        strtab_idx: 0,
        shstrtab_idx: 0,
    }
}

const GLOBAL_FUNC: u8 = (STB_GLOBAL << 4) | STT_FUNC;

fn compiled() -> Elf {
    object(
        vec![named("", 0, vec![], 0), named(".text", SHT_PROGBITS, vec![0; 4], 8)],
        vec![sym("", 0, 0, 0, 0, 0), sym("f", 1, 0, 4, GLOBAL_FUNC, 1)],
        vec![0, b'f', 0],
    )
}

fn assembled() -> Elf {
    object(
        vec![named("", 0, vec![], 0), named(".text", SHT_PROGBITS, vec![1, 2, 3, 4, 5, 6, 7, 8], 8)],
        vec![sym("", 0, 0, 0, 0, 0), sym("f", 1, 0, 8, GLOBAL_FUNC, 1)],
        vec![0, b'f', 0],
    )
}

#[test]
fn transplant_puts_code_into_the_function_section_and_adds_globals() {
    let mut elf = compiled();
    transplant_asm_object(&mut elf, "f", 0, &assembled(), &vec!["f".to_string()], 5, &vec![]);
    assert_eq!(vec![1, 2, 3, 4, 0, 0, 0, 0], elf.sections[1].data);
    assert_eq!(3, elf.symtab.symbols.len());
    assert_eq!("f", elf.symtab.symbols[2].name);
    assert_eq!(1, elf.symtab.symbols[2].st_shndx);
    assert_eq!(3, elf.sections.len());
}

#[test]
fn transplant_skips_functions_that_are_not_stubs() {
    let mut elf = compiled();
    let before = elf.clone();
    transplant_asm_object(&mut elf, "f", 0, &assembled(), &vec!["g".to_string()], 5, &vec![]);
    assert_eq!(before, elf);
}

#[test]
fn try_transplant_refuses_missing_rodata_and_short_code() {
    let mut elf = compiled();
    assert!(!metrowrap::transplant::try_transplant_asm_object(
        &mut elf,
        "f",
        1,
        &assembled(),
        &vec!["f".to_string()],
        5,
        &vec![]
    ));
    let short = object(
        vec![named("", 0, vec![], 0), named(".text", SHT_PROGBITS, vec![1, 2], 2)],
        vec![sym("", 0, 0, 0, 0, 0)],
        vec![0],
    );
    let mut elf = compiled();
    assert!(!metrowrap::transplant::try_transplant_asm_object(
        &mut elf,
        "f",
        0,
        &short,
        &vec!["f".to_string()],
        5,
        &vec![]
    ));
}

#[test]
fn transplant_of_data_only_fills_the_mapped_rodata() {
    let mut elf = object(
        vec![named("", 0, vec![], 0), named(".rodata", SHT_PROGBITS, vec![0; 4], 4)],
        vec![sym("", 0, 0, 0, 0, 0), sym("tbl", 1, 0, 4, GLOBAL_FUNC, 1)],
        vec![0, b't', b'b', b'l', 0],
    );
    let data = object(
        vec![named("", 0, vec![], 0), named(".rodata", SHT_PROGBITS, vec![5, 6, 7, 8], 4)],
        vec![sym("", 0, 0, 0, 0, 0)],
        vec![0],
    );
    transplant_asm_object(&mut elf, "tbl", 1, &data, &vec![], 5, &vec![("tbl".to_string(), 1)]);
    assert_eq!(vec![5, 6, 7, 8], elf.sections[1].data);
    assert_eq!(2, elf.sections[1].sh_addralign);
    assert_eq!(1, elf.shstrtab.section.data.len() - ".rel.rodata".len() - 1);
}
