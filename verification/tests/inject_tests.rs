use metrowrap::elf::{
    Elf, ElfHeader, Relocation, Section, StrTab, SymTab, Symbol, SHT_PROGBITS, SHT_REL,
    SHT_STRTAB, SHT_SYMTAB, STB_GLOBAL, STB_LOCAL, STT_FUNC, STT_NOTYPE, STT_SECTION,
};
use metrowrap::inject::splice_asm_into_monolithic;

fn sym(name: &str, st_name: u32, value: u32, size: u32, info: u8, shndx: u16) -> Symbol {
    let mut s = Symbol::new(st_name, value, size, info, 0, shndx);
    s.name = name.to_string();
    s
}

fn named(name: &str, sh_type: u32, data: Vec<u8>) -> Section {
    let mut s = Section::new(0, sh_type, 0, 0, 0, data.len() as u32, 0, 0, 4, 0, data);
    s.name = name.to_string();
    s
}

fn rel(offset: u32, index: u32, ty: u32) -> Vec<u8> {
    Relocation { r_offset: offset, r_info: (index << 8) | ty, symbol: String::new() }.pack()
}

fn object(mut sections: Vec<Section>, symbols: Vec<Symbol>, strtab: Vec<u8>) -> Elf {
    let symtab_sec = named(".symtab", SHT_SYMTAB, vec![]);
    sections.push(symtab_sec.clone());
    let symtab_idx = sections.len() - 1;
    Elf {
        header: ElfHeader { e_flags: 0, e_shstrndx: 0 },
        sections,
        symtab: SymTab { section: symtab_sec, symbols },
        strtab: StrTab::new(named(".strtab", SHT_STRTAB, strtab)),
        shstrtab: StrTab::new(named(".shstrtab", SHT_STRTAB, vec![0])),
        symtab_idx,
        strtab_idx: 0,
        shstrtab_idx: 0,
    }
}

const GLOBAL_FUNC: u8 = (STB_GLOBAL << 4) | STT_FUNC;
const GLOBAL_NOTYPE: u8 = (STB_GLOBAL << 4) | STT_NOTYPE;
const LOCAL_SECTION: u8 = (STB_LOCAL << 4) | STT_SECTION;

fn compiled() -> Elf {
    object(
        vec![named("", 0, vec![]), named(".text", SHT_PROGBITS, vec![0; 16])],
        vec![sym("", 0, 0, 0, 0, 0), sym("f", 1, 4, 4, GLOBAL_FUNC, 1)],
        vec![0, b'f', 0],
    )
}

#[test]
fn splice_writes_code_over_the_stub_and_appends_relocations() {
    let mut elf = compiled();
    let assembled = object(
        vec![
            named("", 0, vec![]),
            named(".text", SHT_PROGBITS, vec![1, 2, 3, 4, 5, 6]),
            named(".rel.text", SHT_REL, rel(0, 2, 4)),
        ],
        vec![
            sym("", 0, 0, 0, 0, 0),
            sym("", 0, 0, 0, LOCAL_SECTION, 1),
            sym("g", 1, 0, 0, GLOBAL_NOTYPE, 0),
        ],
        vec![0, b'g', 0],
    );
    splice_asm_into_monolithic(&mut elf, "f", &assembled);
    assert_eq!(vec![0, 0, 0, 0, 1, 2, 3, 4, 0, 0, 0, 0, 0, 0, 0, 0], elf.sections[1].data);
    assert_eq!(4, elf.sections.len());
    assert_eq!(".rel.text", elf.sections[3].name);
    assert_eq!(SHT_REL, elf.sections[3].sh_type);
    assert_eq!(1, elf.sections[3].sh_info);
    assert_eq!(1, elf.sections[3].sh_name);
    assert_eq!(rel(4, 2, 4), elf.sections[3].data);
    assert_eq!(8, elf.sections[3].sh_size);
    assert_eq!("g", elf.symtab.symbols[2].name);
    assert_eq!(3, elf.symtab.symbols[2].st_name);
    assert_eq!(1, elf.symtab.section.sh_info);
}

#[test]
fn splice_copies_rodata_of_matching_symbols() {
    let mut elf = object(
        vec![
            named("", 0, vec![]),
            named(".text", SHT_PROGBITS, vec![0; 8]),
            named(".rodata", SHT_PROGBITS, vec![0; 8]),
        ],
        vec![
            sym("", 0, 0, 0, 0, 0),
            sym("f", 1, 0, 4, GLOBAL_FUNC, 1),
            sym("jtbl", 3, 0, 8, GLOBAL_NOTYPE, 2),
        ],
        vec![0, b'f', 0, b'j', b't', b'b', b'l', 0],
    );
    let assembled = object(
        vec![
            named("", 0, vec![]),
            named(".text", SHT_PROGBITS, vec![9, 9, 9, 9]),
            named(".rodata", SHT_PROGBITS, vec![1, 2, 3, 4, 5, 6, 7, 8]),
        ],
        vec![sym("", 0, 0, 0, 0, 0), sym("jtbl", 1, 0, 8, GLOBAL_NOTYPE, 2)],
        vec![0],
    );
    splice_asm_into_monolithic(&mut elf, "f", &assembled);
    assert_eq!(vec![9, 9, 9, 9, 0, 0, 0, 0], elf.sections[1].data);
    assert_eq!(vec![1, 2, 3, 4, 5, 6, 7, 8], elf.sections[2].data);
    assert_eq!(3, elf.symtab.symbols.len());
}

#[test]
fn splice_points_local_code_labels_at_the_function() {
    let mut elf = compiled();
    let assembled = object(
        vec![
            named("", 0, vec![]),
            named(".text", SHT_PROGBITS, vec![1, 2, 3, 4]),
            named(".rel.text", SHT_REL, rel(2, 1, 5)),
        ],
        vec![sym("", 0, 0, 0, 0, 0), sym(".L1", 0, 2, 0, 0, 1)],
        vec![0],
    );
    splice_asm_into_monolithic(&mut elf, "f", &assembled);
    assert_eq!(rel(6, 1, 5), elf.sections[3].data);
    assert_eq!(2, elf.symtab.symbols.len());
}

#[test]
fn add_symbol_get_index_finds_appends_and_forces() {
    let mut elf = compiled();
    let g = sym("g", 0, 0, 0, GLOBAL_FUNC, 1);
    let i = elf.add_symbol_get_index(g.clone(), false);
    assert_eq!(2, i);
    assert_eq!("g", elf.symtab.symbols[i].name);
    assert_eq!(3, elf.symtab.symbols[i].st_name);
    assert_eq!(vec![0, b'f', 0, b'g', 0], elf.strtab.section.data);
    assert_eq!(i, elf.add_symbol_get_index(g.clone(), false));
    let j = elf.add_symbol_get_index(g, true);
    assert_eq!(3, j);
    assert_eq!(4, elf.symtab.symbols.len());
    assert_eq!(0, elf.add_symbol_get_index(sym("", 0, 0, 0, 0, 0), false));
}

#[test]
fn add_symbol_get_index_puts_locals_before_globals() {
    let mut elf = compiled();
    let local = elf.add_symbol_get_index(sym("l", 0, 0, 0, STB_LOCAL << 4, 1), false);
    let global = elf.add_symbol_get_index(sym("h", 0, 0, 0, GLOBAL_FUNC, 1), false);
    assert_eq!(1, local);
    assert!(local < global);
    assert_eq!("f", elf.symtab.symbols[2].name);
    assert_eq!(2, elf.symtab.section.sh_info);
    let f = elf.find_symbol("f").unwrap();
    assert_eq!(4, f.st_value);
    assert_eq!(Some(2), elf.find_symbol_index("f"));
    assert_eq!(None, elf.find_symbol_index("nothing"));
}

#[test]
fn try_splice_refuses_code_shorter_than_the_stub() {
    let mut elf = compiled();
    let assembled = object(
        vec![named("", 0, vec![]), named(".text", SHT_PROGBITS, vec![1, 2])],
        vec![sym("", 0, 0, 0, 0, 0)],
        vec![0],
    );
    assert!(!metrowrap::inject::try_splice_asm_into_monolithic(&mut elf, "f", &assembled));
    let mut elf = compiled();
    let fits = object(
        vec![named("", 0, vec![]), named(".text", SHT_PROGBITS, vec![1, 2, 3, 4])],
        vec![sym("", 0, 0, 0, 0, 0)],
        vec![0],
    );
    assert!(metrowrap::inject::try_splice_asm_into_monolithic(&mut elf, "f", &fits));
    assert_eq!(vec![0, 0, 0, 0, 1, 2, 3, 4, 0, 0, 0, 0, 0, 0, 0, 0], elf.sections[1].data);
}
