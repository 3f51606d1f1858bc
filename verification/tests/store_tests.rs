use std::io::BufRead;
use review_search::lines::{frame_record, offset_record, rebuild_offsets, record_payload, IoErrorKind, LineError};
use review_search::codec::{decode_offsets, encode_offsets};
use review_search::store::{MetadataStore, ReviewMeta, StoreError};

fn meta(title: &str, body: &str, product: &str) -> ReviewMeta {
    ReviewMeta {
        review_title: title.to_string(),
        review_body: body.to_string(),
        product_id: product.to_string(),
        review_rating: 4,
    }
}

/// Appends `json` to the in-memory file and the table, as the file-backed
/// store does.
fn append(store: &mut MetadataStore, file: &mut Vec<u8>, json: &[u8]) -> u64 {
    let offset = file.len() as u64;
    file.extend(frame_record(json));
    store.append(offset)
}

fn read(store: &MetadataStore, file: &[u8], id: u64) -> Result<Vec<u8>, StoreError> {
    let (start, end) = store.get(id)?;
    let end = end.unwrap_or(file.len() as u64);
    Ok(record_payload(&file[start as usize..end as usize]))
}

#[test]
fn validation_rejects_blank_fields() {
    assert!(meta("Great", "Works well", "p1").is_valid());
    assert!(!meta("  ", "Works well", "p1").is_valid());
    assert!(!meta("Great", "\n\t", "p1").is_valid());
    assert!(!meta("Great", "Works well", "").is_valid());
}

#[test]
fn frame_and_payload() {
    assert_eq!(frame_record(b"{}"), b"{}\n".to_vec());
    assert_eq!(record_payload(b"{}\n"), b"{}".to_vec());
    assert_eq!(record_payload(b"{}"), b"{}".to_vec());
    assert_eq!(record_payload(b"a\n\n"), b"a\n".to_vec());
    assert_eq!(record_payload(b""), Vec::<u8>::new());
}

#[test]
fn offset_record_reads_one_line() {
    let content = b"ab\ncde\nf";
    let mut offsets = vec![];
    let mut pos = 0u64;
    offset_record(content, &mut offsets, &mut pos).unwrap();
    assert_eq!((offsets.clone(), pos), (vec![0], 3));
    offset_record(content, &mut offsets, &mut pos).unwrap();
    assert_eq!((offsets.clone(), pos), (vec![0, 3], 7));
    offset_record(content, &mut offsets, &mut pos).unwrap();
    assert_eq!((offsets.clone(), pos), (vec![0, 3, 7], 8));
    offset_record(content, &mut offsets, &mut pos).unwrap();
    assert_eq!((offsets, pos), (vec![0, 3, 7], 8));
}

#[test]
fn rebuild_finds_line_starts() {
    assert_eq!(rebuild_offsets(b"").unwrap(), Vec::<u64>::new());
    assert_eq!(rebuild_offsets(b"a\nbb\n").unwrap(), vec![0, 2]);
    assert_eq!(rebuild_offsets(b"a\nbb").unwrap(), vec![0, 2]);
    assert_eq!(rebuild_offsets(b"\n\n").unwrap(), vec![0, 1]);
    assert_eq!(rebuild_offsets("é\n日本\n".as_bytes()).unwrap(), vec![0, 3]);
}

#[test]
fn open_rebuilds_when_offsets_file_is_empty() {
    let (store, persist) = MetadataStore::open(b"{\"a\":1}\n{\"b\":2}\n", b"").unwrap();
    assert_eq!(store.len(), 2);
    let bytes = persist.expect("rebuilt offsets are persisted");
    assert_eq!(decode_offsets(&bytes), vec![0, 8]);
}

#[test]
fn open_reads_existing_offsets_file() {
    let file = encode_offsets(&vec![0, 8, 20]);
    let (store, persist) = MetadataStore::open(b"ignored", &file).unwrap();
    assert!(persist.is_none());
    assert_eq!(store.len(), 3);
    assert_eq!(store.get(1).unwrap(), (8, Some(20)));
}

#[test]
fn append_assigns_consecutive_ids() {
    let (mut store, _) = MetadataStore::open(b"", b"").unwrap();
    let mut file = Vec::new();
    assert_eq!(append(&mut store, &mut file, b"{\"x\":1}"), 0);
    assert_eq!(append(&mut store, &mut file, b"{\"y\":22}"), 1);
    assert_eq!(store.len(), 2);
    assert_eq!(store.get(0).unwrap(), (0, Some(8)));
    assert_eq!(store.get(1).unwrap(), (8, None));
}

#[test]
fn get_unknown_id_is_invalid() {
    let (store, _) = MetadataStore::open(b"x\n", b"").unwrap();
    assert!(matches!(store.get(1), Err(StoreError::InvalidId(1))));
    assert!(matches!(store.get(u64::MAX), Err(StoreError::InvalidId(u64::MAX))));
}

#[test]
fn read_back_after_appends() {
    let records: Vec<&[u8]> = vec![b"{\"t\":\"one\"}", b"", b"{\"t\":\"three\"}"];
    let (mut store, _) = MetadataStore::open(b"", b"").unwrap();
    let mut file = Vec::new();
    for r in &records {
        append(&mut store, &mut file, r);
    }
    for (i, r) in records.iter().enumerate() {
        assert_eq!(read(&store, &file, i as u64).unwrap(), r.to_vec());
    }
    let (rebuilt, _) = MetadataStore::open(&file, b"").unwrap();
    for i in 0..records.len() as u64 {
        assert_eq!(rebuilt.get(i).unwrap(), store.get(i).unwrap());
    }
}

#[test]
fn len_unsupported_message() {
    match StoreError::len_unsupported() {
        StoreError::Index(msg) => assert_eq!(msg, "len() not implemented"),
        other => panic!("unexpected {:?}", other),
    }
}

#[test]
fn offset_record_refuses_line_that_is_not_utf8() {
    let content = [0xffu8, b'\n'];
    let mut offsets = vec![];
    let mut pos = 0u64;
    let err = offset_record(&content, &mut offsets, &mut pos).unwrap_err();
    assert_eq!(err, LineError::InvalidUtf8);
    assert_eq!(err.kind(), IoErrorKind::InvalidData);
    assert_eq!(err.message(), "stream did not contain valid UTF-8");
    assert_eq!(offsets, Vec::<u64>::new());
    assert_eq!(pos, 0);
}

#[test]
fn offset_record_matches_read_line() {
    let samples: Vec<Vec<u8>> = vec![
        b"abc\ndef".to_vec(),
        vec![b'a', 0xc3, 0xa9, b'\n', 0xff],
        vec![0xe2, 0x82, b'\n'],
        vec![0xed, 0xa0, 0x80, b'\n'],
        b"".to_vec(),
    ];
    for data in samples {
        let mut reader = std::io::Cursor::new(data.clone());
        let mut pos = 0u64;
        let mut offsets = vec![];
        loop {
            let mut line = String::new();
            let std_result = reader.read_line(&mut line);
            let before = (offsets.clone(), pos);
            let ours = offset_record(&data, &mut offsets, &mut pos);
            match std_result {
                Ok(0) => {
                    assert!(ours.is_ok());
                    assert_eq!((offsets.clone(), pos), before);
                    break;
                }
                Ok(n) => {
                    assert!(ours.is_ok());
                    assert_eq!(pos, before.1 + n as u64);
                }
                Err(e) => {
                    let ours = ours.unwrap_err();
                    assert_eq!(e.kind(), std::io::ErrorKind::InvalidData);
                    assert_eq!(ours.kind(), IoErrorKind::InvalidData);
                    assert_eq!(ours.message(), e.to_string());
                    assert_eq!((offsets.clone(), pos), before);
                    break;
                }
            }
        }
    }
}

#[test]
fn open_fails_on_line_that_is_not_utf8() {
    match MetadataStore::open(&[b'{', b'}', b'\n', 0xff, b'\n'], b"") {
        Err(StoreError::Line(e)) => assert_eq!(e.kind(), IoErrorKind::InvalidData),
        other => panic!("unexpected {:?}", other.map(|(s, p)| (s.len(), p))),
    }
    let file = encode_offsets(&vec![0]);
    let (store, persist) = MetadataStore::open(&[0xff, b'\n'], &file).unwrap();
    assert_eq!(store.len(), 1);
    assert!(persist.is_none());
}

#[test]
fn files_stay_in_agreement_across_appends() {
    let (mut store, persist) = MetadataStore::open(b"", b"").unwrap();
    let mut jsonl = Vec::new();
    let mut offsets_file = persist.unwrap();
    for json in [&b"{\"a\":1}"[..], b"{\"b\":\"x y\"}", b"{}"] {
        let offset = jsonl.len() as u64;
        jsonl.extend(frame_record(json));
        offsets_file.extend(review_search::codec::encode_offset(offset));
        store.append(offset);
    }
    assert_eq!(store.len(), 3);
    let (from_offsets, _) = MetadataStore::open(&jsonl, &offsets_file).unwrap();
    let (from_scan, _) = MetadataStore::open(&jsonl, b"").unwrap();
    for id in 0..3 {
        assert_eq!(from_offsets.get(id).unwrap(), store.get(id).unwrap());
        assert_eq!(from_scan.get(id).unwrap(), store.get(id).unwrap());
    }
}
