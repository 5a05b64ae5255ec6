use metrowrap::elf;
use metrowrap::elf::Symbol;
use metrowrap::elf::{STB_GLOBAL, STB_LOCAL, STT_FUNC, STT_NOTYPE, STT_SECTION};

#[test]
fn test_unpack_all() {
    let symtab_data: [u8; 48] = [
        0, 0, 0, 0, 0, 0, 0, 0, 0, 0, 0, 0, 0, 0, 0, 0, 13, 0, 0, 0, 0, 0, 0, 0, 8, 0, 0, 0, 3,
        0, 6, 0, 1, 0, 0, 0, 0, 0, 0, 0, 16, 0, 0, 0, 18, 0, 5, 0,
    ];

    let symbols = elf::Symbol::unpack_all(&symtab_data);

    assert_eq!(3, symbols.len());

    let sym0 = &symbols[0];
    assert_eq!(
        elf::Symbol {
            st_name: 0,
            st_value: 0,
            st_size: 0,
            st_info: 0,
            st_other: 0,
            st_shndx: 0,
            name: "".to_string(),
        },
        *sym0
    );
    assert_eq!(STT_NOTYPE, sym0.type_id());
    assert_eq!(STB_LOCAL, sym0.bind());

    let sym1 = &symbols[1];
    assert_eq!(
        elf::Symbol {
            st_name: 13,
            st_value: 0,
            st_size: 8,
            st_info: 3,
            st_other: 0,
            st_shndx: 6,
            name: "".to_string(),
        },
        *sym1
    );
    assert_eq!(STT_SECTION, sym1.type_id());
    assert_eq!(STB_LOCAL, sym1.bind());

    let sym2 = &symbols[2];
    assert_eq!(
        elf::Symbol {
            st_name: 1,
            st_value: 0,
            st_size: 16,
            st_info: 18,
            st_other: 0,
            st_shndx: 5,
            name: "".to_string(),
        },
        *sym2
    );
    assert_eq!(STT_FUNC, sym2.type_id());
    assert_eq!(STB_GLOBAL, sym2.bind());

    let packed = symbols.iter().flat_map(Symbol::pack).collect::<Vec<u8>>();
    assert_eq!(symtab_data.to_vec(), packed);
}

#[test]
fn pack_then_unpack_gives_the_fields() {
    let s = Symbol::new(0x01020304, 0xA0B0C0D0, 77, 0x12, 3, 0xFF01);
    let b = s.pack();
    assert_eq!(16, b.len());
    assert_eq!(vec![4, 3, 2, 1, 0xD0, 0xC0, 0xB0, 0xA0, 77, 0, 0, 0, 0x12, 3, 0x01, 0xFF], b);
    assert_eq!((0x01020304, 0xA0B0C0D0, 77, 0x12, 3, 0xFF01), Symbol::unpack(&b));
    assert_eq!(s, Symbol::from_data(&b));
}

#[test]
fn bind_and_type_split_st_info() {
    let s = Symbol::new(0, 0, 0, (STB_GLOBAL << 4) | STT_FUNC, 0, 0);
    assert_eq!(STB_GLOBAL, s.bind());
    assert_eq!(STT_FUNC, s.type_id());
    let w = Symbol::new(0, 0, 0, 0x2f, 0, 0);
    assert_eq!(2, w.bind());
    assert_eq!(15, w.type_id());
}

#[test]
fn unpack_all_of_nothing_is_empty() {
    assert!(Symbol::unpack_all(&[]).is_empty());
}

#[test]
fn to_string_describes_the_symbol() {
    let mut s = Symbol::new(0x1A, 0x100, 0x2C, 0x12, 0, 5);
    s.name = "foo".to_string();
    assert_eq!(
        "foo st_name: 0x1A, st_info: 0x12, st_other: 0x0, st_shndx: 0x5, st_value: 0x100, st_size: 0x2C",
        s.to_string()
    );
    let n = Symbol::new(0, 0, 0, 0, 0, 0);
    assert_eq!(
        "NO_NAME st_name: 0x0, st_info: 0x0, st_other: 0x0, st_shndx: 0x0, st_value: 0x0, st_size: 0x0",
        n.to_string()
    );
}
