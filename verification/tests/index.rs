use thunder_wallet::index::{index_key, key_index};

#[test]
fn an_index_survives_its_key() {
    assert_eq!(index_key(0x0102_0304), [1, 2, 3, 4]);
    assert_eq!(key_index(&[0, 0, 1, 244]), 500);
}

#[test]
fn keys_are_ordered_as_their_indices() {
    let indices = [0, 1, 255, 256, 500, 65_535, 65_536, 0x0100_0000, u32::MAX];
    for pair in indices.windows(2) {
        assert!(index_key(pair[0]) < index_key(pair[1]));
        assert_eq!(key_index(&index_key(pair[1])), pair[1]);
    }
}
