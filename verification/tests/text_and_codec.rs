use review_search::codec::{decode_offsets, encode_offset, encode_offsets};
use review_search::text::{decimal, is_blank, is_valid_utf8, preview, signed_decimal, white_space};

#[test]
fn white_space_matches_std_for_every_char() {
    for u in 0u32..=0x10ffff {
        if let Some(c) = char::from_u32(u) {
            assert_eq!(white_space(c), c.is_whitespace(), "char {:#x}", u);
        }
    }
}

#[test]
fn blank_means_trim_is_empty() {
    let samples = ["", " ", "\t\n\r ", "\u{3000}\u{2028}", " a ", "title", "\u{200b}", " \u{a0}x"];
    for s in samples {
        assert_eq!(is_blank(s), s.trim().is_empty(), "{:?}", s);
    }
    assert!(is_blank("   "));
    assert!(!is_blank("  x  "));
}

#[test]
fn decimal_renders_like_display() {
    for n in [0u64, 7, 10, 99, 100, 1234, 4294967296, u64::MAX] {
        assert_eq!(decimal(n), n.to_string());
    }
    for n in [0i32, 5, -1, -42, i32::MAX, i32::MIN] {
        assert_eq!(signed_decimal(n), n.to_string());
    }
}

#[test]
fn preview_takes_leading_chars() {
    assert_eq!(preview("héllo wörld", 4), "héll");
    assert_eq!(preview("short", 160), "short");
    assert_eq!(preview("", 3), "");
}

#[test]
fn offset_bytes_are_little_endian() {
    assert_eq!(encode_offset(1), vec![1, 0, 0, 0, 0, 0, 0, 0]);
    assert_eq!(encode_offset(0x0102030405060708), 0x0102030405060708u64.to_le_bytes().to_vec());
}

#[test]
fn offsets_file_round_trip() {
    let offsets = vec![0u64, 17, 42, u64::MAX];
    let bytes = encode_offsets(&offsets);
    assert_eq!(bytes.len(), 32);
    assert_eq!(decode_offsets(&bytes), offsets);
    assert_eq!(encode_offsets(&vec![]), Vec::<u8>::new());
}

#[test]
fn decode_ignores_incomplete_chunk() {
    let mut bytes = encode_offsets(&vec![5, 9]);
    bytes.extend_from_slice(&[1, 2, 3]);
    assert_eq!(decode_offsets(&bytes), vec![5, 9]);
    assert_eq!(decode_offsets(&[1, 2, 3]), Vec::<u64>::new());
}

#[test]
fn appending_offset_bytes_appends_offset() {
    let mut bytes = encode_offsets(&vec![0, 30]);
    bytes.extend(encode_offset(61));
    assert_eq!(decode_offsets(&bytes), vec![0, 30, 61]);
}

#[test]
fn utf8_check_matches_std() {
    let samples: Vec<Vec<u8>> = vec![
        vec![],
        b"plain ascii".to_vec(),
        "é日本𝄞".as_bytes().to_vec(),
        vec![0xff],
        vec![0xc0, 0x80],
        vec![0xc2, 0x80],
        vec![0xe0, 0x80, 0x80],
        vec![0xe0, 0xa0, 0x80],
        vec![0xed, 0xa0, 0x80],
        vec![0xef, 0xbf, 0xbf],
        vec![0xf0, 0x8f, 0xbf, 0xbf],
        vec![0xf4, 0x8f, 0xbf, 0xbf],
        vec![0xf4, 0x90, 0x80, 0x80],
        vec![0xf5, 0x80, 0x80, 0x80],
        vec![0xe2, 0x82],
        vec![b'a', 0x80],
    ];
    for s in samples {
        assert_eq!(is_valid_utf8(&s), std::str::from_utf8(&s).is_ok(), "{:x?}", s);
    }
    for a in 0u8..=255 {
        for b in [0x00u8, 0x7f, 0x80, 0x8f, 0x90, 0x9f, 0xa0, 0xbf, 0xc0] {
            let s = [a, b];
            assert_eq!(is_valid_utf8(&s), std::str::from_utf8(&s).is_ok(), "{:x?}", s);
            let t = [a, b, 0x80, 0x80];
            assert_eq!(is_valid_utf8(&t), std::str::from_utf8(&t).is_ok(), "{:x?}", t);
        }
    }
}
