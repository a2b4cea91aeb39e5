use ruslin_data_uniffi::utf16_offsets;

#[test]
fn empty_text_has_single_sentinel() {
    assert_eq!(utf16_offsets(""), vec![0]);
}

#[test]
fn ascii_offsets_are_identity() {
    let s = "Hello, *world*!";
    let table = utf16_offsets(s);
    assert_eq!(table.len(), s.len() + 1);
    for (i, v) in table.iter().enumerate() {
        assert_eq!(*v, i);
    }
}

#[test]
fn two_and_three_byte_chars_take_one_unit() {
    assert_eq!(utf16_offsets("é"), vec![0, 0, 1]);
    assert_eq!(utf16_offsets("€x"), vec![0, 0, 0, 1, 2]);
}

#[test]
fn surrogate_pair_jumps_two_units() {
    let table = utf16_offsets("a😀b");
    assert_eq!(table, vec![0, 1, 1, 1, 1, 3, 4]);
    assert_eq!(table[5] - table[1], 2);
}

#[test]
fn table_shape_matches_text() {
    let s = "ä😀 x\n# t";
    let table = utf16_offsets(s);
    assert_eq!(table.len(), s.len() + 1);
    assert_eq!(table[0], 0);
    assert_eq!(table[s.len()], s.encode_utf16().count());
}

#[test]
fn table_never_decreases() {
    let table = utf16_offsets("a😀é€ b\n😀");
    for w in table.windows(2) {
        assert!(w[0] <= w[1]);
    }
    assert_eq!(*table.last().unwrap(), "a😀é€ b\n😀".encode_utf16().count());
}
