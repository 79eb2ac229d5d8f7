use lut_core::payload::{decode_payload, encode_table, table_payload_fits, words_to_le_bytes};

#[test]
fn words_are_sent_little_endian() {
    assert_eq!(words_to_le_bytes(&[0x0403_0201]), vec![1, 2, 3, 4]);
    assert_eq!(
        words_to_le_bytes(&[0x0403_0201, 0xdead_beef]),
        vec![1, 2, 3, 4, 0xef, 0xbe, 0xad, 0xde]
    );
    assert!(words_to_le_bytes(&[]).is_empty());
}

#[test]
fn little_endian_bytes_reassemble() {
    for w in [0u32, 1, 0x1234_5678, u32::MAX, 0x8000_0000] {
        let b = words_to_le_bytes(&[w]);
        assert_eq!(u32::from_le_bytes([b[0], b[1], b[2], b[3]]), w);
    }
}

#[test]
fn encode_table_of_one_float() {
    assert_eq!(encode_table(&[1.0f32.to_bits()]), "AACAPw==");
}

#[test]
fn encode_table_of_two_words() {
    assert_eq!(encode_table(&[0x0403_0201, 0xdead_beef]), "AQIDBO++rd4=");
    assert_eq!(encode_table(&[]), "");
}

#[test]
fn encode_table_length() {
    for n in 0..20usize {
        let words = vec![0x0102_0304u32; n];
        let text = encode_table(&words);
        assert_eq!(text.len(), 4 * ((4 * n + 2) / 3));
    }
}

#[test]
fn decode_payload_of_valid_text() {
    assert_eq!(decode_payload("aGVsbG8="), Ok(b"hello".to_vec()));
    assert_eq!(decode_payload(""), Ok(Vec::new()));
}

#[test]
fn decode_payload_refuses_invalid_text() {
    assert!(decode_payload("%%%%").is_err());
    assert!(decode_payload("aGVsbG8").is_err());
    assert!(decode_payload("aGVsbG9=").is_err());
}

#[test]
fn decode_payload_undoes_encode_table() {
    let words: Vec<u32> = (0..50u32).map(|i| i.wrapping_mul(0x9e37_79b9)).collect();
    let text = encode_table(&words);
    assert_eq!(decode_payload(&text), Ok(words_to_le_bytes(&words)));
}

#[test]
fn encode_table_uses_the_standard_alphabet_ends() {
    // bytes fb ff 00 00 encode through symbols 62 and 63
    assert_eq!(encode_table(&[0x0000_fffb]), "+/8AAA==");
    assert_eq!(decode_payload("+/8AAA=="), Ok(vec![0xfb, 0xff, 0, 0]));
}

#[test]
fn decode_payload_refuses_nonzero_trailing_bits() {
    assert!(decode_payload("QR==").is_err());
    assert_eq!(decode_payload("QQ=="), Ok(vec![0x41]));
}

#[test]
fn decode_payload_error_carries_the_decoder_message() {
    let err = decode_payload("%%%%").unwrap_err();
    assert!(!err.is_empty());
}

#[test]
fn table_payload_fits_small_tables() {
    assert!(table_payload_fits(0));
    assert!(table_payload_fits(33 * 33 * 33 * 3));
    assert!(!table_payload_fits(usize::MAX));
    assert!(!table_payload_fits(usize::MAX / 4));
}

#[test]
fn table_payload_bytes_reassemble_to_words() {
    let words = [0x3f80_0000u32, 0x0102_0304, u32::MAX];
    let bytes = decode_payload(&encode_table(&words)).unwrap();
    assert_eq!(bytes.len(), 4 * words.len());
    for (j, w) in words.iter().enumerate() {
        let b = [bytes[4 * j], bytes[4 * j + 1], bytes[4 * j + 2], bytes[4 * j + 3]];
        assert_eq!(u32::from_le_bytes(b), *w);
        assert_eq!(f32::from_le_bytes(b).to_bits(), *w);
    }
}
