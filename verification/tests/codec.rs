use thumbnailer::png::{decode, decode_chunk, encode, make_text_chunk, text_chunk};
use thumbnailer::{Chunk, FormatError, ValidationError, CRC};

fn chunk(kind: &[u8], data: &[u8]) -> Chunk {
    Chunk { kind: kind.to_vec(), data: data.to_vec() }
}

fn sample_chunks() -> Vec<Chunk> {
    vec![chunk(b"IHDR", &[0u8; 13]), chunk(b"IDAT", b"pixeldata"), chunk(b"IEND", b"")]
}

#[test]
fn test_crc_known_answer() {
    let crc = CRC::new();
    assert_eq!(crc.crc(&b"123456789".to_vec()), 0xcbf43926);
    assert_eq!(crc.crc(&Vec::new()), 0);
    assert_eq!(crc.crc(&b"IEND".to_vec()), 0xae426082);
}

#[test]
fn test_make_crc_table() {
    let table = CRC::make_crc_table();
    assert_eq!(table.len(), 256);
    assert_eq!(table[0], 0);
    assert_eq!(table[1], 0x77073096);
    assert_eq!(table[255], 0x2d02ef8d);
}

#[test]
fn test_update_crc() {
    let crc = CRC::new();
    let folded = crc.update_crc(0xffffffff, &b"123456789".to_vec());
    assert_eq!(folded ^ 0xffffffff, 0xcbf43926);
}

#[test]
fn test_encode_exact_bytes() {
    let crc = CRC::new();
    let bytes = encode(&crc, &vec![chunk(b"IEND", b"")]);
    let mut expected = vec![137u8, 80, 78, 71, 13, 10, 26, 10];
    expected.extend_from_slice(&[0, 0, 0, 0]);
    expected.extend_from_slice(b"IEND");
    expected.extend_from_slice(&[0xae, 0x42, 0x60, 0x82]);
    assert_eq!(bytes, expected);
}

#[test]
fn test_round_trip() {
    let crc = CRC::new();
    let bytes = encode(&crc, &sample_chunks());
    let decoded = decode(&crc, &bytes).unwrap();
    let original = sample_chunks();
    assert_eq!(decoded.len(), original.len());
    for (a, b) in decoded.iter().zip(original.iter()) {
        assert_eq!(a.kind, b.kind);
        assert_eq!(a.data, b.data);
    }
}

#[test]
fn test_trailing_garbage_tolerated() {
    let crc = CRC::new();
    let mut bytes = encode(&crc, &sample_chunks());
    bytes.extend_from_slice(b"trailing junk after the terminator");
    let decoded = decode(&crc, &bytes).unwrap();
    assert_eq!(decoded.len(), 3);
    assert_eq!(decoded[2].kind, b"IEND".to_vec());
}

#[test]
fn test_bad_signature() {
    let crc = CRC::new();
    assert!(matches!(decode(&crc, &Vec::new()), Err(FormatError::BadSignature)));
    let mut bytes = encode(&crc, &sample_chunks());
    bytes[0] ^= 1;
    assert!(matches!(decode(&crc, &bytes), Err(FormatError::BadSignature)));
}

#[test]
fn test_truncated() {
    let crc = CRC::new();
    let mut bytes = encode(&crc, &sample_chunks());
    bytes.pop();
    assert!(matches!(decode(&crc, &bytes), Err(FormatError::Truncated)));
    let signature_only = vec![137u8, 80, 78, 71, 13, 10, 26, 10];
    assert!(matches!(decode(&crc, &signature_only), Err(FormatError::Truncated)));
}

#[test]
fn test_bit_flips_rejected() {
    let crc = CRC::new();
    let bytes = encode(&crc, &sample_chunks());
    // The payload of the middle chunk: signature (8), first chunk (12 + 13),
    // then the second chunk's length and tag fields (8).
    let start = 8 + 25 + 8;
    for i in 0..9 {
        for k in 0..8 {
            let mut flipped = bytes.clone();
            flipped[start + i] ^= 1u8 << k;
            assert!(matches!(decode(&crc, &flipped), Err(FormatError::CrcMismatch)));
        }
    }
}

#[test]
fn test_decode_chunk() {
    let crc = CRC::new();
    let bytes = encode(&crc, &sample_chunks());
    let (first, used) = decode_chunk(&crc, &bytes, 8).unwrap();
    assert_eq!(first.kind, b"IHDR".to_vec());
    assert_eq!(first.data, vec![0u8; 13]);
    assert_eq!(used, 25);
    let (second, used2) = decode_chunk(&crc, &bytes, 8 + used).unwrap();
    assert_eq!(second.kind, b"IDAT".to_vec());
    assert_eq!(second.data, b"pixeldata".to_vec());
    assert_eq!(used2, 21);
}

#[test]
fn test_text_chunk_payload() {
    let payload = text_chunk(&b"Thumb::URI".to_vec(), &b"file:///x.png".to_vec()).unwrap();
    assert_eq!(payload, b"Thumb::URI\0file:///x.png".to_vec());
}

#[test]
fn test_text_chunk_normalizes_crlf() {
    let payload = text_chunk(&b"k".to_vec(), &b"a\r\nb".to_vec()).unwrap();
    assert_eq!(payload, b"k\0a\nb".to_vec());
}

#[test]
fn test_text_chunk_rejects_empty_keyword() {
    assert_eq!(
        text_chunk(&Vec::new(), &b"v".to_vec()),
        Err(ValidationError::EmptyKeyword)
    );
}

#[test]
fn test_text_chunk_rejects_long_keyword() {
    assert_eq!(
        text_chunk(&vec![b'k'; 80], &b"v".to_vec()),
        Err(ValidationError::KeywordTooLong)
    );
    assert!(text_chunk(&vec![b'k'; 79], &b"v".to_vec()).is_ok());
}

#[test]
fn test_text_chunk_rejects_nul_keyword() {
    assert_eq!(
        text_chunk(&b"k\0k".to_vec(), &b"v".to_vec()),
        Err(ValidationError::KeywordHasNul)
    );
}

#[test]
fn test_text_chunk_rejects_nul_text() {
    assert_eq!(
        text_chunk(&b"k".to_vec(), &b"a\0b".to_vec()),
        Err(ValidationError::TextHasNul)
    );
}

#[test]
fn test_text_chunk_rejects_empty_text() {
    assert_eq!(text_chunk(&b"k".to_vec(), &Vec::new()), Err(ValidationError::EmptyText));
}

#[test]
fn test_make_text_chunk() {
    let c = make_text_chunk(&b"Thumb::Size".to_vec(), &b"1024".to_vec()).unwrap();
    assert_eq!(c.kind, b"tEXt".to_vec());
    assert_eq!(c.data, b"Thumb::Size\01024".to_vec());
    assert!(matches!(
        make_text_chunk(&Vec::new(), &b"v".to_vec()),
        Err(ValidationError::EmptyKeyword)
    ));
}
