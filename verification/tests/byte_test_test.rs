use logos_core::byte_test::{generate_test, jump_table, printable_ascii, PatternTest};

#[test]
fn generate_test_matches_few_ranges() {
    assert_eq!(generate_test(&vec![(b'a', b'a'), (b'c', b'c')]), PatternTest::Match);
    assert_eq!(generate_test(&vec![(b'a', b'z')]), PatternTest::Match);
}

#[test]
fn generate_test_uses_a_64_bit_table() {
    let ranges = vec![(b'0', b'9'), (b'A', b'F'), (b'a', b'f')];
    let table: u64 = ((1u64 << 10) - 1) | (((1u64 << 6) - 1) << 17) | (((1u64 << 6) - 1) << 49);
    assert_eq!(generate_test(&ranges), PatternTest::Lut { offset: 48, table });
}

#[test]
fn generate_test_offset_is_a_power_of_two() {
    let ranges = vec![(70, 70), (80, 80), (100, 100)];
    match generate_test(&ranges) {
        PatternTest::Lut { offset, table } => {
            assert_eq!(offset, 64);
            assert_eq!(table, (1u64 << 6) | (1u64 << 16) | (1u64 << 36));
        }
        other => panic!("expected a table, got {:?}", other),
    }
}

#[test]
fn generate_test_falls_back_to_a_shared_table() {
    assert_eq!(generate_test(&vec![(0, 1), (5, 5), (100, 100)]), PatternTest::Table);
}

#[test]
fn jump_table_names_the_last_target_of_each_byte() {
    let table = jump_table(&vec![vec![(b'a', b'c')], vec![(b'b', b'b')]]);
    assert_eq!(table[b'a' as usize], 1);
    assert_eq!(table[b'b' as usize], 2);
    assert_eq!(table[b'c' as usize], 1);
    assert_eq!(table[b'd' as usize], 0);
}

#[test]
fn printable_ascii_bytes() {
    assert!(printable_ascii(b"abc ~"));
    assert!(!printable_ascii(b"a\n"));
    assert!(!printable_ascii(&[0x7F]));
    assert!(printable_ascii(b""));
}

#[test]
fn table_row_flags_the_bytes_of_the_ranges() {
    let row = logos_core::byte_test::table_row(&vec![(b'0', b'9'), (b'a', b'f')]);
    assert_eq!(row.len(), 256);
    for b in 0..=255u8 {
        assert_eq!(row[b as usize], b.is_ascii_digit() || (b'a'..=b'f').contains(&b));
    }
}
