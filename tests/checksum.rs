use giu::checksum::{checksum_of, checksum_of_chunks, hex8, ChecksumState};

#[test]
fn checksum_of_known_inputs() {
    assert_eq!(checksum_of(b"hello world"), "0D4A1185");
    assert_eq!(checksum_of(b"hello"), "3610A686");
    assert_eq!(checksum_of(b""), "00000000");
}

#[test]
fn checksum_is_independent_of_chunking() {
    let data: Vec<u8> = (0..10000u32).map(|i| (i * 31 % 251) as u8).collect();
    let whole = checksum_of(&data);
    for size in [1usize, 7, 64, 8192, 20000] {
        let chunks: Vec<Vec<u8>> = data.chunks(size).map(|c| c.to_vec()).collect();
        assert_eq!(checksum_of_chunks(&chunks), whole);
        let mut st = ChecksumState::new();
        for c in data.chunks(size) {
            st.update(c);
        }
        assert_eq!(st.finish(), whole);
    }
}

#[test]
fn chunks_split_mid_word() {
    let chunks = vec![b"hel".to_vec(), Vec::new(), b"lo wor".to_vec(), b"ld".to_vec()];
    assert_eq!(checksum_of_chunks(&chunks), "0D4A1185");
}

#[test]
fn hex_is_fixed_width_uppercase() {
    assert_eq!(hex8(0), "00000000");
    assert_eq!(hex8(0xABC), "00000ABC");
    assert_eq!(hex8(0xFFFFFFFF), "FFFFFFFF");
}
