use ipl3hasher::cli::{cic_parser, u32_from_str, workgroups_parser, y_bits_parser, CliError};

#[test]
fn decimal_numbers() {
    assert_eq!(u32_from_str("0"), Ok(0));
    assert_eq!(u32_from_str("1022"), Ok(1022));
    assert_eq!(u32_from_str("+7"), Ok(7));
    assert_eq!(u32_from_str("4294967295"), Ok(u32::MAX));
    assert_eq!(u32_from_str("4294967296"), Err(CliError::InvalidNumber));
    assert_eq!(u32_from_str("99999999999x"), Err(CliError::InvalidNumber));
    assert_eq!(u32_from_str(""), Err(CliError::InvalidNumber));
    assert_eq!(u32_from_str("+"), Err(CliError::InvalidNumber));
    assert_eq!(u32_from_str("-1"), Err(CliError::InvalidNumber));
    assert_eq!(u32_from_str("12a"), Err(CliError::InvalidNumber));
    assert_eq!(u32_from_str(" 1"), Err(CliError::InvalidNumber));
}

#[test]
fn cic_table_lookup() {
    assert_eq!(cic_parser("6101"), Ok((0x3F, 0x45CC73EE317A)));
    assert_eq!(cic_parser("6102"), Ok((0x3F, 0xA536C0F1D859)));
    assert_eq!(cic_parser("7101"), Ok((0x3F, 0xA536C0F1D859)));
    assert_eq!(cic_parser("6103"), Ok((0x78, 0x586FD4709867)));
    assert_eq!(cic_parser("7103"), Ok((0x78, 0x586FD4709867)));
    assert_eq!(cic_parser("6105"), Ok((0x91, 0x8618A45BC2D3)));
    assert_eq!(cic_parser("7105"), Ok((0x91, 0x8618A45BC2D3)));
    assert_eq!(cic_parser("6106"), Ok((0x85, 0x2BBAD4E6EB74)));
    assert_eq!(cic_parser("7106"), Ok((0x85, 0x2BBAD4E6EB74)));
    assert_eq!(cic_parser("8303"), Ok((0xDD, 0x32B294E2AB90)));
    assert_eq!(cic_parser("8401"), Ok((0xDD, 0x6EE8D9E84970)));
    assert_eq!(cic_parser("5167"), Ok((0xDD, 0x083C6C77E0B1)));
    assert_eq!(cic_parser("DDUS"), Ok((0xDE, 0x05BA2EF0A5F1)));
    assert_eq!(cic_parser("6104"), Err(CliError::UnknownCic));
    assert_eq!(cic_parser("61021"), Err(CliError::UnknownCic));
    assert_eq!(cic_parser("ddus"), Err(CliError::UnknownCic));
    assert_eq!(cic_parser(""), Err(CliError::UnknownCic));
}

#[test]
fn y_bits_whole_word() {
    let bits = y_bits_parser("1022[31..0]").unwrap();
    let expected: Vec<u32> = (32192..32224).collect();
    assert_eq!(bits, expected);
    assert_eq!(y_bits_parser("1022").unwrap(), expected);
}

#[test]
fn y_bits_ranges_sorted_and_deduplicated() {
    // 40[16..8] names word 24 of the payload, bits 16 to 8.
    let bits = y_bits_parser("56[24..12],40[16..8],40[9..9]").unwrap();
    let mut expected: Vec<u32> = vec![];
    for i in 8..=16u32 {
        expected.push((40 - 16) * 32 + 31 - i);
    }
    for i in 12..=24u32 {
        expected.push((56 - 16) * 32 + 31 - i);
    }
    expected.sort();
    expected.dedup();
    assert_eq!(bits, expected);
    assert_eq!(y_bits_parser("17[31..31]"), Ok(vec![32]));
    assert_eq!(y_bits_parser("1022[0..0]"), Ok(vec![32223]));
}

#[test]
fn y_bits_rejected() {
    assert_eq!(y_bits_parser(""), Err(CliError::InvalidYBits));
    assert_eq!(y_bits_parser("16"), Err(CliError::InvalidYBits));
    assert_eq!(y_bits_parser("1023"), Err(CliError::InvalidYBits));
    assert_eq!(y_bits_parser("40[8..16]"), Err(CliError::InvalidYBits));
    assert_eq!(y_bits_parser("40[32..0]"), Err(CliError::InvalidYBits));
    assert_eq!(y_bits_parser("40[16..8"), Err(CliError::InvalidYBits));
    assert_eq!(y_bits_parser("40[16.8]"), Err(CliError::InvalidYBits));
    assert_eq!(y_bits_parser("40[16..8..2]"), Err(CliError::InvalidYBits));
    assert_eq!(y_bits_parser("40[16..8][1..0]"), Err(CliError::InvalidYBits));
    assert_eq!(y_bits_parser("40,"), Err(CliError::InvalidYBits));
    assert_eq!(y_bits_parser("x[1..0]"), Err(CliError::InvalidYBits));
}

#[test]
fn y_bits_too_many() {
    assert_eq!(y_bits_parser("40,41"), Err(CliError::TooManyYBits(64)));
    assert_eq!(y_bits_parser("40[31..0],41[0..0]"), Err(CliError::TooManyYBits(33)));
    assert_eq!(y_bits_parser("40,40").unwrap().len(), 32);
}

#[test]
fn workgroup_geometry() {
    assert_eq!(workgroups_parser("256,256,256"), Ok((256, 256, 256)));
    assert_eq!(workgroups_parser("8"), Ok((8, 1, 1)));
    assert_eq!(workgroups_parser("8,4"), Ok((8, 4, 1)));
    assert_eq!(workgroups_parser("1,2,3,4"), Err(CliError::InvalidWorkgroups));
    assert_eq!(workgroups_parser(""), Err(CliError::InvalidNumber));
    assert_eq!(workgroups_parser("8,,2"), Err(CliError::InvalidNumber));
    assert_eq!(workgroups_parser("8,x"), Err(CliError::InvalidNumber));
}
