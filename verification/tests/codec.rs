use modlem::binary_io::ByteReader;
use modlem::dat_section::DatSection;
use modlem::LemError;

/// Compress a buffer, frame it, read it back and decompress it.
fn round_trip(data: Vec<u8>) -> Vec<u8> {
    let n = data.len();
    let section = DatSection::from_data(&data, n);
    let mut framed: Vec<u8> = Vec::new();
    section.write(&mut framed);
    let mut reader = ByteReader::new(framed);
    let mut read_back = DatSection::from_file(&mut reader).unwrap();
    read_back.decompress()
}

#[test]
fn empty_section() {
    let data: Vec<u8> = Vec::new();
    let section = DatSection::from_data(&data, 0);
    let mut framed: Vec<u8> = Vec::new();
    section.write(&mut framed);
    // uncomp_size is stored big-endian at offset 2.
    assert_eq!(&framed[2..6], &[0, 0, 0, 0]);
    // comp_size covers the ten header bytes plus the payload.
    let comp_size = u32::from_be_bytes([framed[6], framed[7], framed[8], framed[9]]);
    assert_eq!(comp_size as usize, framed.len());
    assert_eq!(round_trip(Vec::new()), Vec::<u8>::new());
}

#[test]
fn single_byte() {
    // A one-byte input comes out as a single short literal.
    assert_eq!(round_trip(vec![0x5A]), vec![0x5A]);
}

#[test]
fn repetitive_input_shrinks() {
    let data = vec![0u8; 100];
    let section = DatSection::from_data(&data, 100);
    let mut framed: Vec<u8> = Vec::new();
    section.write(&mut framed);
    let comp_size = u32::from_be_bytes([framed[6], framed[7], framed[8], framed[9]]);
    assert!(comp_size < 100 + 10);
    assert_eq!(round_trip(data), vec![0u8; 100]);
}

#[test]
fn round_trip_mixed_buffers() {
    let mut data: Vec<u8> = Vec::new();
    for i in 0..1000usize {
        data.push(((i * 7 + i / 13) % 251) as u8);
    }
    assert_eq!(round_trip(data.clone()), data);

    let mut runs: Vec<u8> = Vec::new();
    for i in 0..40usize {
        for _ in 0..(i % 9 + 1) {
            runs.push((i % 5) as u8);
        }
    }
    assert_eq!(round_trip(runs.clone()), runs);

    let text = b"the quick brown fox jumps over the lazy dog, the quick brown fox".to_vec();
    assert_eq!(round_trip(text.clone()), text);
}

#[test]
fn round_trip_long_literal_runs() {
    // Incompressible runs longer than one literal token.
    let mut data: Vec<u8> = Vec::new();
    let mut state: u32 = 1;
    for _ in 0..700 {
        state = state.wrapping_mul(1103515245).wrapping_add(12345);
        data.push((state >> 16) as u8);
    }
    assert_eq!(round_trip(data.clone()), data);
}

#[test]
fn checksum_is_xor_of_payload() {
    let data = b"checksum me".to_vec();
    let section = DatSection::from_data(&data, data.len());
    let mut framed: Vec<u8> = Vec::new();
    section.write(&mut framed);
    let mut x = 0u8;
    for b in &framed[10..] {
        x ^= b;
    }
    assert_eq!(framed[1], x);
}

#[test]
fn corrupt_checksum_is_rejected() {
    let data = b"some payload".to_vec();
    let section = DatSection::from_data(&data, data.len());
    let mut framed: Vec<u8> = Vec::new();
    section.write(&mut framed);
    let last = framed.len() - 1;
    framed[last] ^= 0xFF;
    let mut reader = ByteReader::new(framed);
    match DatSection::from_file(&mut reader) {
        Err(e) => assert_eq!(e, LemError::ChecksumMismatch),
        Ok(_) => panic!("corrupt section was accepted"),
    }
}

#[test]
fn short_section_is_rejected() {
    let mut reader = ByteReader::new(vec![8, 0, 0, 0, 0, 0]);
    match DatSection::from_file(&mut reader) {
        Err(e) => assert_eq!(e, LemError::UnexpectedEof),
        Ok(_) => panic!("truncated section was accepted"),
    }
    // A framed size too small to hold the header is refused.
    let mut bad = vec![8u8, 0, 0, 0, 0, 1, 0, 0, 0, 5];
    bad.push(0);
    let mut reader2 = ByteReader::new(bad);
    match DatSection::from_file(&mut reader2) {
        Err(e) => assert_eq!(e, LemError::BadSectionHeader),
        Ok(_) => panic!("undersized section was accepted"),
    }
}

#[test]
fn zero_first_byte_bits_is_canonicalised() {
    // A stored bit count of zero means "skip the last byte; eight bits".
    let data = b"abcabcabcabc".to_vec();
    let section = DatSection::from_data(&data, data.len());
    let mut framed: Vec<u8> = Vec::new();
    section.write(&mut framed);
    if framed[0] == 8 {
        // Rewrite the section as the zero-bit form: claim 0 bits in the
        // first byte and append one dummy byte the reader must skip.
        framed[0] = 0;
        framed.push(0xEE);
        let comp_size = u32::from_be_bytes([framed[6], framed[7], framed[8], framed[9]]) + 1;
        framed[6..10].copy_from_slice(&comp_size.to_be_bytes());
        framed[1] ^= 0xEE; // keep the checksum valid
        let mut reader = ByteReader::new(framed);
        let mut read_back = DatSection::from_file(&mut reader).unwrap();
        assert_eq!(read_back.decompress(), data);
    }
}

#[test]
fn sections_concatenate() {
    let a = b"first section".to_vec();
    let b = vec![9u8; 33];
    let sa = DatSection::from_data(&a, a.len());
    let sb = DatSection::from_data(&b, b.len());
    let mut file: Vec<u8> = Vec::new();
    sa.write(&mut file);
    sb.write(&mut file);
    let mut reader = ByteReader::new(file);
    let mut ra = DatSection::from_file(&mut reader).unwrap();
    assert_eq!(ra.decompress(), a);
    let mut rb = DatSection::from_file(&mut reader).unwrap();
    assert_eq!(rb.decompress(), b);
    assert!(DatSection::from_file(&mut reader).is_err());
}
