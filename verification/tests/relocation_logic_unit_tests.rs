use metrowrap::elf::{Relocation, RelocationRecord, Section, SHT_REL};
use metrowrap::splice::{
    distribute_relocations, find_section_for_offset, shift_relocations, shift_symbol_index,
};

fn reloc(r_offset: u32, r_info: u32, symbol: &str) -> Relocation {
    Relocation {
        r_offset,
        r_info,
        symbol: String::from(symbol),
    }
}

#[test]
fn test_relocation_offset_adjustment_logic() {
    // A relocation at offset 20 in the second of two .rodata sections,
    // the first of which ends at offset 13.
    let relocations = vec![reloc(20, 0x205, "")];
    let rodata_section_offsets = vec![13, 48];
    let split = distribute_relocations(&relocations, &rodata_section_offsets);
    assert_eq!(
        split[1][0].r_offset, 7,
        "Relocation offset should be adjusted to 7 (20 - 13)"
    );
}

#[test]
fn test_relocation_section_assignment() {
    // Sections: 0 is bytes 0-12, 1 is bytes 13-28, 2 is bytes 29-47.
    let rodata_section_offsets = vec![13, 29, 48];

    let test_cases = vec![
        (5, 0, "Offset 5 should be in section 0"),
        (12, 0, "Offset 12 should be in section 0"),
        (13, 1, "Offset 13 should be in section 1"),
        (20, 1, "Offset 20 should be in section 1"),
        (28, 1, "Offset 28 should be in section 1"),
        (29, 2, "Offset 29 should be in section 2"),
        (40, 2, "Offset 40 should be in section 2"),
    ];

    for (offset, expected_section, msg) in test_cases {
        let found_section = find_section_for_offset(offset, &rodata_section_offsets);
        assert_eq!(found_section, Some(expected_section), "{}", msg);
    }
}

#[test]
fn test_relocation_offset_after_assignment() {
    let rodata_section_offsets = vec![13, 29, 48];

    let test_cases = vec![
        (5, 0, 5, "Offset 5 in section 0 should remain 5"),
        (13, 1, 0, "Offset 13 in section 1 should become 0 (13-13)"),
        (20, 1, 7, "Offset 20 in section 1 should become 7 (20-13)"),
        (29, 2, 0, "Offset 29 in section 2 should become 0 (29-29)"),
        (40, 2, 11, "Offset 40 in section 2 should become 11 (40-29)"),
    ];

    for (original_offset, section_idx, expected_adjusted, msg) in test_cases {
        let relocations = vec![reloc(original_offset, 0x105, "")];
        let split = distribute_relocations(&relocations, &rodata_section_offsets);
        assert_eq!(1, split[section_idx].len(), "{}", msg);
        assert_eq!(split[section_idx][0].r_offset, expected_adjusted, "{}", msg);
    }
}

#[test]
fn test_symbol_index_updates_after_insertion() {
    let initial_sh_info_value = 5;
    let local_syms_inserted = 2;

    let test_cases = vec![
        (0, 0, "Symbol 0 should not be updated"),
        (1, 1, "Symbol 1 should not be updated"),
        (4, 4, "Symbol 4 (below threshold) should not be updated"),
        (5, 7, "Symbol 5 (at threshold) should be updated to 7"),
        (6, 8, "Symbol 6 should be updated to 8"),
        (10, 12, "Symbol 10 should be updated to 12"),
    ];

    for (original_idx, expected_idx, msg) in test_cases {
        let updated_idx =
            shift_symbol_index(original_idx, initial_sh_info_value, local_syms_inserted);
        assert_eq!(updated_idx, expected_idx, "{}", msg);

        let mut relocations = vec![reloc(0, ((original_idx as u32) << 8) | 4, "")];
        shift_relocations(&mut relocations, initial_sh_info_value, local_syms_inserted);
        assert_eq!(relocations[0].symbol_index(), expected_idx, "{}", msg);
        assert_eq!(relocations[0].type_id(), 4, "{}", msg);
    }
}

#[test]
fn test_relocation_record_splitting() {
    let relocations = vec![
        reloc(5, 0x105, "sym1"),
        reloc(10, 0x205, "sym2"),
        reloc(15, 0x305, "sym3"),
        reloc(25, 0x405, "sym4"),
        reloc(35, 0x505, "sym5"),
    ];

    let rodata_section_offsets = vec![13, 39];
    let new_relocations = distribute_relocations(&relocations, &rodata_section_offsets);

    assert_eq!(
        new_relocations[0].len(),
        2,
        "Section 0 should have 2 relocations"
    );
    assert_eq!(new_relocations[0][0].r_offset, 5);
    assert_eq!(new_relocations[0][1].r_offset, 10);

    assert_eq!(
        new_relocations[1].len(),
        3,
        "Section 1 should have 3 relocations"
    );
    assert_eq!(new_relocations[1][0].r_offset, 2, "15 - 13 = 2");
    assert_eq!(new_relocations[1][1].r_offset, 12, "25 - 13 = 12");
    assert_eq!(new_relocations[1][2].r_offset, 22, "35 - 13 = 22");
    assert_eq!(new_relocations[1][2].symbol, "sym5");
}

#[test]
fn test_empty_relocations() {
    let relocations: Vec<Relocation> = vec![];
    let rodata_section_offsets = vec![13, 29];
    let new_relocations = distribute_relocations(&relocations, &rodata_section_offsets);

    assert_eq!(
        new_relocations[0].len(),
        0,
        "Section 0 should have 0 relocations"
    );
    assert_eq!(
        new_relocations[1].len(),
        0,
        "Section 1 should have 0 relocations"
    );
}

#[test]
fn test_all_relocations_in_first_section() {
    let relocations = vec![reloc(5, 0x105, ""), reloc(10, 0x205, "")];
    let rodata_section_offsets = vec![13, 29];
    let new_relocations = distribute_relocations(&relocations, &rodata_section_offsets);

    assert_eq!(
        new_relocations[0].len(),
        2,
        "Section 0 should have 2 relocations"
    );
    assert_eq!(
        new_relocations[1].len(),
        0,
        "Section 1 should have 0 relocations"
    );
}

#[test]
fn test_single_section_no_split() {
    // With one .rodata section every relocation below its end stays where
    // it is, at its own offset.
    let relocations = vec![reloc(3, 0x105, ""), reloc(9, 0x205, "")];
    let new_relocations = distribute_relocations(&relocations, &vec![12]);
    assert_eq!(
        1,
        new_relocations.len(),
        "With single rodata section, splitting logic should be skipped"
    );
    assert_eq!(3, new_relocations[0][0].r_offset);
    assert_eq!(9, new_relocations[0][1].r_offset);
}

#[test]
fn relocation_past_the_last_section_is_dropped() {
    let relocations = vec![reloc(50, 0x105, "")];
    let new_relocations = distribute_relocations(&relocations, &vec![13, 29]);
    assert!(new_relocations[0].is_empty() && new_relocations[1].is_empty());
    assert_eq!(None, find_section_for_offset(29, &vec![13, 29]));
}

#[test]
fn test_relocation_symbol_index_methods() {
    let mut r = reloc(0, 0x0205, "");

    assert_eq!(r.symbol_index(), 2, "Symbol index should be 2");
    assert_eq!(r.type_id(), 5, "Type should be 5");

    r.set_symbol_index(7);
    assert_eq!(r.symbol_index(), 7, "Symbol index should be updated to 7");
    assert_eq!(r.type_id(), 5, "Type should remain 5");
}

#[test]
fn test_relocation_pack_unpack() {
    let original = reloc(0x12345678, 0xABCDEF00, "");

    let packed = original.pack();
    assert_eq!(packed.len(), 8, "Packed relocation should be 8 bytes");

    let unpacked = Relocation::unpack(&packed);
    assert_eq!(
        unpacked.r_offset, original.r_offset,
        "r_offset should match"
    );
    assert_eq!(unpacked.r_info, original.r_info, "r_info should match");
}

#[test]
fn test_relocation_record_pack() {
    let mut section = Section::default();
    section.sh_type = SHT_REL;

    let mut reloc_record = RelocationRecord::new(section);

    reloc_record.relocations.push(reloc(0x10, 0x205, ""));
    reloc_record.relocations.push(reloc(0x20, 0x305, ""));

    reloc_record.pack_data();

    assert_eq!(
        reloc_record.section.data.len(),
        16,
        "Packed relocation record should be 16 bytes"
    );
}

#[test]
fn relocation_record_reads_and_packs_entries() {
    let data = vec![0x10, 0, 0, 0, 0x05, 0x02, 0, 0, 0x20, 0, 0, 0, 0x05, 0x03, 0, 0];
    let section = Section::new(0, SHT_REL, 0, 0, 0, 0, 0, 0, 4, 8, data.clone());
    let mut record = RelocationRecord::new(section);
    assert_eq!(2, record.relocations.len());
    assert_eq!(0x20, record.relocations[1].r_offset);
    assert_eq!(3, record.relocations[1].symbol_index());
    record.relocations[0].set_symbol_index(9);
    record.pack();
    assert_eq!(16, record.section.sh_size);
    assert_eq!(vec![0x10, 0, 0, 0, 0x05, 0x09, 0, 0], record.section.data[0..8].to_vec());
    assert_eq!(data[8..16].to_vec(), record.section.data[8..16].to_vec());
}

#[test]
fn distribution_keeps_every_placed_relocation() {
    let relocations = vec![
        reloc(1, 0x105, ""),
        reloc(14, 0x205, ""),
        reloc(30, 0x305, ""),
        reloc(28, 0x405, ""),
        reloc(2, 0x505, ""),
    ];
    let d = distribute_relocations(&relocations, &vec![13, 29]);
    let total: usize = d.iter().map(|b| b.len()).sum();
    assert_eq!(4, total);
    assert_eq!(vec![1, 2], d[0].iter().map(|r| r.r_offset).collect::<Vec<u32>>());
    assert_eq!(vec![1, 15], d[1].iter().map(|r| r.r_offset).collect::<Vec<u32>>());
}
