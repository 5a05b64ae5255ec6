use metrowrap::elf::{Section, StrTab, SHT_STRTAB};

fn empty_strtab() -> StrTab {
    let section = Section::new(0, SHT_STRTAB, 0, 0, 0, 0, 0, 0, 0, 0, vec![]);
    StrTab::new(section)
}

#[test]
fn test_add_symbol() {
    let mut strtab = empty_strtab();
    assert!(strtab.symbols.is_empty());

    let index = strtab.add_symbol("");
    assert_eq!(0, index);
    assert_eq!(vec!["".to_string()], strtab.symbols);
    assert_eq!(vec![0], strtab.section.data);

    strtab.add_symbol(".rel.text");
    assert_eq!(
        vec!["".to_string(), ".rel.text".to_string()],
        strtab.symbols
    );

    let (_header, data) = strtab.pack();
    assert_eq!("\0.rel.text\0".bytes().collect::<Vec<u8>>(), data);
}

#[test]
fn new_reads_the_strings_of_the_data() {
    let data = b"\0.text\0.symtab\0".to_vec();
    let section = Section::new(0, SHT_STRTAB, 0, 0, 0, 0, 0, 0, 0, 0, data);
    let strtab = StrTab::new(section);
    assert_eq!(
        vec!["".to_string(), ".text".to_string(), ".symtab".to_string()],
        strtab.symbols
    );
}

#[test]
fn new_skips_invalid_utf8_pieces() {
    let data = vec![b'a', 0, 0xff, 0, b'b', 0];
    let section = Section::new(0, SHT_STRTAB, 0, 0, 0, 0, 0, 0, 0, 0, data);
    let strtab = StrTab::new(section);
    assert_eq!(vec!["a".to_string(), "b".to_string()], strtab.symbols);
}

#[test]
fn add_symbol_returns_existing_offset() {
    let mut strtab = empty_strtab();
    strtab.add_symbol("");
    let a = strtab.add_symbol(".rel.text");
    let b = strtab.add_symbol(".rel.text");
    assert_eq!(1, a);
    assert_eq!(a, b);
    assert_eq!(2, strtab.symbols.len());
    // a suffix of an existing string is found inside it
    let c = strtab.add_symbol(".text");
    assert_eq!(5, c);
    assert_eq!(2, strtab.symbols.len());
    assert_eq!(11, strtab.section.sh_size);
}

#[test]
fn get_str_reads_back_added_names() {
    let mut strtab = empty_strtab();
    strtab.add_symbol("");
    let i = strtab.add_symbol("foo");
    let j = strtab.add_symbol("barbaz");
    assert_eq!("foo", strtab.get_str(i as usize));
    assert_eq!("barbaz".to_string(), strtab.get_string(j as usize));
    assert_eq!("baz", strtab.get_str(j as usize + 3));
    assert_eq!("", strtab.get_str(strtab.section.data.len()));
}

#[test]
fn pack_data_writes_terminated_strings() {
    let mut strtab = empty_strtab();
    strtab.symbols = vec!["x".to_string(), "yz".to_string()];
    let d = strtab.pack_data().to_vec();
    assert_eq!(b"x\0yz\0".to_vec(), d);
    assert_eq!(b"x\0yz\0".to_vec(), strtab.section.data);
}

#[test]
fn pack_returns_header_and_data() {
    let mut strtab = empty_strtab();
    strtab.add_symbol("");
    strtab.add_symbol("ab");
    let (header, data) = strtab.pack();
    assert_eq!(40, header.len());
    assert_eq!(SHT_STRTAB, u32::from_le_bytes([header[4], header[5], header[6], header[7]]));
    assert_eq!(4, u32::from_le_bytes([header[20], header[21], header[22], header[23]]));
    assert_eq!(b"\0ab\0".to_vec(), data);
}

#[test]
fn packing_read_strings_gives_the_data_back() {
    let data = b"\0.text\0.rel.text\0".to_vec();
    let section = Section::new(0, SHT_STRTAB, 0, 0, 0, 0, 0, 0, 0, 0, data.clone());
    let mut strtab = StrTab::new(section);
    assert_eq!(data, strtab.pack_data().to_vec());
}
