use docpack::archive::{pack, Archive, Document, HeaderEntry, Record};
use docpack::envelope::{check_expansion, envelope, open, seal, unwrap, wrap};
use docpack::error::ArchiveError;
use docpack::header::{decode_table, encode_table, read_len, read_str_len, read_uint};
use docpack::token::{read_ext_head, tag_from};
use std::collections::BTreeMap;

/// The encoding of a string document whose encoded length is `total` bytes.
fn encoded_of_len(total: usize) -> Vec<u8> {
    let chars = if total <= 32 {
        total - 1
    } else if total <= 257 {
        total - 2
    } else if total <= 65538 {
        total - 3
    } else {
        total - 5
    };
    let value = rmpv::Value::String("a".repeat(chars).into());
    let bytes = rmp_serde::to_vec(&value).unwrap();
    assert_eq!(bytes.len(), total);
    bytes
}

fn doc(name: &str, plain: Vec<u8>) -> Document {
    Document { name: name.to_string(), plain }
}

fn is_envelope(stored: &[u8]) -> bool {
    match read_ext_head(stored) {
        Some(h) => h.tag == 99,
        None => false,
    }
}

#[test]
fn round_trip_across_the_threshold() {
    for compress in [false, true] {
        let sizes = [10usize, 64, 65, 10000];
        let docs: Vec<Document> =
            sizes.iter().map(|n| doc(&format!("d{}", n), encoded_of_len(*n))).collect();
        let archive = pack(&docs, compress).unwrap();
        let bytes = archive.to_bytes().unwrap();
        let back = Archive::from_bytes(&bytes).unwrap();
        let out = back.unpack().unwrap();
        assert_eq!(out.len(), 4);
        for (i, n) in sizes.iter().enumerate() {
            assert_eq!(out[i].name, format!("d{}", n));
            assert_eq!(out[i].plain, docs[i].plain);
            let e = back.table[i].entry;
            let stored = &back.body[e.offset as usize..(e.offset + e.length) as usize];
            assert_eq!(is_envelope(stored), compress && *n > 64);
            let first: rmpv::Value = rmp_serde::from_slice(&docs[i].plain).unwrap();
            let second: rmpv::Value = rmp_serde::from_slice(&out[i].plain).unwrap();
            assert_eq!(first, second);
        }
    }
}

#[test]
fn sixty_four_bytes_stay_plain() {
    let plain = encoded_of_len(64);
    let stored = seal(plain.clone(), true).unwrap();
    assert_eq!(stored, plain);
}

#[test]
fn sixty_five_bytes_are_wrapped() {
    let plain = encoded_of_len(65);
    let stored = seal(plain.clone(), true).unwrap();
    assert_ne!(stored, plain);
    assert!(is_envelope(&stored));
    let value: rmpv::Value = rmp_serde::from_slice(&stored).unwrap();
    let (tag, payload) = value.as_ext().unwrap();
    assert_eq!(tag, 99);
    assert_eq!(&payload[..5], &[0xd2, 0, 0, 0, 65]);
    assert_eq!(lz4::block::decompress(&payload[5..], Some(65)).unwrap(), plain);
    assert_eq!(open(&stored).unwrap(), plain);
}

#[test]
fn compression_off_never_wraps() {
    for n in [1usize, 64, 65, 300, 10000, 70000] {
        let plain = encoded_of_len(n);
        assert_eq!(seal(plain.clone(), false).unwrap(), plain);
    }
}

#[test]
fn three_entries_tile_the_body() {
    let docs = vec![
        doc("A", encoded_of_len(10)),
        doc("B", encoded_of_len(500)),
        doc("C", encoded_of_len(64)),
    ];
    let a = pack(&docs, true).unwrap();
    assert_eq!(a.table.len(), 3);
    assert_eq!(a.table[0].entry, HeaderEntry { offset: 0, length: 10 });
    assert_eq!(a.table[1].entry.offset, 10);
    assert_eq!(a.table[2].entry.offset, 10 + a.table[1].entry.length);
    assert_eq!(a.table[2].entry.length, 64);
    assert_eq!(a.body.len() as u32, a.table[2].entry.offset + 64);
    let bytes = a.to_bytes().unwrap();
    let back = Archive::from_bytes(&bytes).unwrap();
    let names: Vec<String> = back.unpack().unwrap().into_iter().map(|d| d.name).collect();
    assert_eq!(names, vec!["A".to_string(), "B".to_string(), "C".to_string()]);
}

#[test]
fn decoding_twice_gives_the_same() {
    let docs = vec![doc("one", encoded_of_len(20)), doc("two", encoded_of_len(2000))];
    let bytes = pack(&docs, true).unwrap().to_bytes().unwrap();
    let first = Archive::from_bytes(&bytes).unwrap();
    let second = Archive::from_bytes(&bytes).unwrap();
    assert_eq!(first.table.len(), second.table.len());
    for i in 0..first.table.len() {
        assert_eq!(first.table[i].name, second.table[i].name);
        assert_eq!(first.table[i].entry, second.table[i].entry);
    }
    let x = first.unpack().unwrap();
    let y = second.unpack().unwrap();
    for i in 0..x.len() {
        assert_eq!(x[i].name, y[i].name);
        assert_eq!(x[i].plain, y[i].plain);
    }
}

#[test]
fn a_damaged_block_is_a_compression_error() {
    let plain = encoded_of_len(1000);
    let stored = wrap(&plain).unwrap();
    let head = read_ext_head(&stored).unwrap();
    let mut damaged = stored.clone();
    damaged[head.start + 5] ^= 0xf0;
    assert_eq!(open(&damaged), Err(ArchiveError::Compression));
    let mut short = stored[head.start..].to_vec();
    short.truncate(short.len() - 3);
    assert_eq!(unwrap(&short), Err(ArchiveError::Compression));
}

#[test]
fn a_wrong_recorded_size_is_a_compression_error() {
    let plain = encoded_of_len(1000);
    let block = lz4::block::compress(&plain, None, false).unwrap();
    let larger = envelope(1001, &block);
    assert_eq!(open(&larger), Err(ArchiveError::Compression));
    let smaller = envelope(999, &block);
    assert_eq!(open(&smaller), Err(ArchiveError::Compression));
    let negative = envelope(-1, &block);
    assert_eq!(open(&negative), Err(ArchiveError::Compression));
    let right = envelope(1000, &block);
    assert_eq!(open(&right), Ok(plain));
}

#[test]
fn wrap_then_open_at_every_size() {
    for n in [0usize, 1, 2, 3, 11, 64, 65, 255, 256, 5000, 66000] {
        let plain: Vec<u8> = (0..n).map(|i| (i * 7 % 251) as u8).collect();
        let stored = wrap(&plain).unwrap();
        let head = read_ext_head(&stored).unwrap();
        assert_eq!(head.tag, 99);
        assert_eq!(head.start + head.len, stored.len());
        assert_eq!(unwrap(&stored[head.start..]), Ok(plain.clone()));
        assert_eq!(open(&stored), Ok(plain));
    }
}

#[test]
fn check_expansion_accepts_only_the_recorded_size() {
    assert_eq!(check_expansion(3, Some(vec![1, 2, 3])), Ok(vec![1, 2, 3]));
    assert_eq!(check_expansion(4, Some(vec![1, 2, 3])), Err(ArchiveError::Compression));
    assert_eq!(check_expansion(0, Some(vec![])), Ok(vec![]));
    assert_eq!(check_expansion(3, None), Err(ArchiveError::Compression));
    assert_eq!(check_expansion(-3, Some(vec![1, 2, 3])), Err(ArchiveError::Compression));
}

#[test]
fn envelope_bytes_are_exact() {
    assert_eq!(
        envelope(70, &[7, 8, 9]),
        vec![0xd7, 99, 0xd2, 0, 0, 0, 70, 7, 8, 9]
    );
    assert_eq!(
        envelope(0x01020304, &[1]),
        vec![0xc7, 6, 99, 0xd2, 1, 2, 3, 4, 1]
    );
    let block = vec![5u8; 300];
    let stored = envelope(-2, &block);
    assert_eq!(&stored[..9], &[0xc8, 0x01, 0x31, 99, 0xd2, 0xff, 0xff, 0xff, 0xfe]);
    assert_eq!(stored.len(), 4 + 5 + 300);
    let big = vec![0u8; 70000];
    let stored = envelope(1, &big);
    assert_eq!(&stored[..6], &[0xc9, 0x00, 0x01, 0x11, 0x75, 99]);
    let head = read_ext_head(&stored).unwrap();
    assert_eq!((head.tag, head.start, head.len), (99, 6, 70005));
}

#[test]
fn envelope_is_the_extension_value_of_type_99() {
    for n in [1usize, 3, 11, 250, 251, 65530, 65531, 70000] {
        let block: Vec<u8> = (0..n).map(|i| (i % 253) as u8).collect();
        let mut payload = vec![0xd2, 0x00, 0x12, 0xd6, 0x87];
        payload.extend_from_slice(&block);
        let value = rmpv::Value::Ext(99, payload);
        assert_eq!(envelope(1234567, &block), rmp_serde::to_vec(&value).unwrap());
    }
}

#[test]
fn unwrap_needs_a_length_token() {
    assert_eq!(unwrap(&[]), Err(ArchiveError::Decode));
    assert_eq!(unwrap(&[0xd2, 0, 0, 0]), Err(ArchiveError::Decode));
    assert_eq!(unwrap(&[0xce, 0, 0, 0, 3, 1, 2, 3]), Err(ArchiveError::Decode));
    assert_eq!(unwrap(&[0x05, 0, 0, 0, 3, 1, 2, 3]), Err(ArchiveError::Decode));
}

#[test]
fn open_leaves_other_values_alone() {
    let plain = encoded_of_len(40);
    assert_eq!(open(&plain), Ok(plain.clone()));
    let other_ext = vec![0xd4, 5, 0xaa];
    assert_eq!(open(&other_ext), Ok(other_ext.clone()));
    assert_eq!(open(&[]), Ok(vec![]));
    let cut = vec![0xc7, 200, 99, 0xd2, 0, 0];
    assert_eq!(open(&cut), Err(ArchiveError::Decode));
}

#[test]
fn ext_heads_in_every_form() {
    let h = read_ext_head(&[0xd4, 99, 0]).unwrap();
    assert_eq!((h.tag, h.start, h.len), (99, 2, 1));
    let h = read_ext_head(&[0xd5, 0xff]).unwrap();
    assert_eq!((h.tag, h.start, h.len), (-1, 2, 2));
    let h = read_ext_head(&[0xd6, 1]).unwrap();
    assert_eq!((h.tag, h.start, h.len), (1, 2, 4));
    let h = read_ext_head(&[0xd7, 1]).unwrap();
    assert_eq!((h.tag, h.start, h.len), (1, 2, 8));
    let h = read_ext_head(&[0xd8, 0x80]).unwrap();
    assert_eq!((h.tag, h.start, h.len), (-128, 2, 16));
    let h = read_ext_head(&[0xc7, 9, 99]).unwrap();
    assert_eq!((h.tag, h.start, h.len), (99, 3, 9));
    let h = read_ext_head(&[0xc8, 1, 2, 99]).unwrap();
    assert_eq!((h.tag, h.start, h.len), (99, 4, 258));
    let h = read_ext_head(&[0xc9, 0, 1, 0, 0, 99]).unwrap();
    assert_eq!((h.tag, h.start, h.len), (99, 6, 65536));
    assert!(read_ext_head(&[0xc7, 9]).is_none());
    assert!(read_ext_head(&[0xa1, 0x61]).is_none());
    assert!(read_ext_head(&[0xd4]).is_none());
    assert_eq!(tag_from(127), 127);
    assert_eq!(tag_from(128), -128);
}

#[test]
fn header_bytes_are_exact() {
    let table = vec![
        Record { name: "a".to_string(), entry: HeaderEntry { offset: 0, length: 5 } },
        Record { name: "bc".to_string(), entry: HeaderEntry { offset: 200, length: 70000 } },
    ];
    let bytes = encode_table(&table).unwrap();
    assert_eq!(
        bytes,
        vec![
            0x82, 0xa1, b'a', 0x92, 0x00, 0x05, 0xa2, b'b', b'c', 0x92, 0xcc, 200, 0xce, 0x00,
            0x01, 0x11, 0x70
        ]
    );
    let mut map: BTreeMap<String, (u32, u32)> = BTreeMap::new();
    map.insert("a".to_string(), (0, 5));
    map.insert("bc".to_string(), (200, 70000));
    assert_eq!(bytes, rmp_serde::to_vec(&map).unwrap());
}

#[test]
fn header_round_trip_with_long_names_and_many_lines() {
    let mut table = Vec::new();
    for i in 0..20u32 {
        table.push(Record {
            name: "n".repeat(1 + 20 * i as usize),
            entry: HeaderEntry { offset: i * 1000, length: 1 << i },
        });
    }
    table.push(Record { name: "é√".to_string(), entry: HeaderEntry { offset: u32::MAX, length: 127 } });
    table.push(Record { name: "x".repeat(70000), entry: HeaderEntry { offset: 128, length: 65535 } });
    let mut bytes = encode_table(&table).unwrap();
    let end = bytes.len();
    bytes.extend_from_slice(&[1, 2, 3]);
    let (back, next) = decode_table(&bytes).unwrap();
    assert_eq!(next, end);
    assert_eq!(back.len(), table.len());
    for i in 0..table.len() {
        assert_eq!(back[i].name, table[i].name);
        assert_eq!(back[i].entry, table[i].entry);
    }
}

#[test]
fn malformed_headers_are_decode_errors() {
    assert!(matches!(Archive::from_bytes(&[]), Err(ArchiveError::Decode)));
    assert!(matches!(Archive::from_bytes(&[0x92, 0, 0]), Err(ArchiveError::Decode)));
    assert!(matches!(Archive::from_bytes(&[0x81, 0xa1, b'a']), Err(ArchiveError::Decode)));
    assert!(matches!(
        Archive::from_bytes(&[0x81, 0xa1, b'a', 0x93, 0, 0, 0]),
        Err(ArchiveError::Decode)
    ));
    assert!(matches!(
        Archive::from_bytes(&[0x81, 0xa1, 0xff, 0x92, 0, 0]),
        Err(ArchiveError::Decode)
    ));
    assert!(matches!(
        Archive::from_bytes(&[0x81, 0xa1, b'a', 0x92, 0xc1, 0]),
        Err(ArchiveError::Decode)
    ));
    assert!(matches!(decode_table(&[0x82, 0xa1, b'a', 0x92, 0, 0]), Err(ArchiveError::Decode)));
    let empty = Archive::from_bytes(&[0x80, 9, 9]).unwrap();
    assert_eq!(empty.table.len(), 0);
    assert_eq!(empty.body, vec![9, 9]);
}

#[test]
fn the_named_form_of_a_range_is_read() {
    let mut named = vec![0x81u8, 0xa1, b'a', 0x82];
    named.extend_from_slice(&[0xa6, b'o', b'f', b'f', b's', b'e', b't', 0x05]);
    named.extend_from_slice(&[0xa6, b'l', b'e', b'n', b'g', b't', b'h', 0xcc, 200]);
    let (table, next) = decode_table(&named).unwrap();
    assert_eq!(next, named.len());
    assert_eq!(table[0].entry, HeaderEntry { offset: 5, length: 200 });
    let mut swapped = vec![0x81u8, 0xa1, b'a', 0x82];
    swapped.extend_from_slice(&[0xa6, b'l', b'e', b'n', b'g', b't', b'h', 0xcc, 200]);
    swapped.extend_from_slice(&[0xa6, b'o', b'f', b'f', b's', b'e', b't', 0x05]);
    assert_eq!(decode_table(&swapped).unwrap().0[0].entry, HeaderEntry { offset: 5, length: 200 });
    let mut twice = vec![0x81u8, 0xa1, b'a', 0x82];
    twice.extend_from_slice(&[0xa6, b'o', b'f', b'f', b's', b'e', b't', 0x05]);
    twice.extend_from_slice(&[0xa6, b'o', b'f', b'f', b's', b'e', b't', 0x05]);
    assert!(matches!(decode_table(&twice), Err(ArchiveError::Decode)));
    let short = vec![0x81u8, 0xa1, b'a', 0x82, 0xa6, b'o', b'f'];
    assert!(matches!(decode_table(&short), Err(ArchiveError::Decode)));
}

#[test]
fn token_readers_take_every_form() {
    assert_eq!(read_len(&[0x8f], 0, 0x80, 0xde, 0xdf), Some((15, 1)));
    assert_eq!(read_len(&[0, 0xde, 1, 0], 1, 0x80, 0xde, 0xdf), Some((256, 4)));
    assert_eq!(read_len(&[0xdf, 0, 1, 0, 0], 0, 0x80, 0xde, 0xdf), Some((65536, 5)));
    assert_eq!(read_len(&[0xdf, 0, 1, 0], 0, 0x80, 0xde, 0xdf), None);
    assert_eq!(read_len(&[0x90], 0, 0x80, 0xde, 0xdf), None);
    assert_eq!(read_str_len(&[0xbf], 0), Some((31, 1)));
    assert_eq!(read_str_len(&[0xd9, 32], 0), Some((32, 2)));
    assert_eq!(read_str_len(&[0xda, 1, 1], 0), Some((257, 3)));
    assert_eq!(read_str_len(&[0xdb, 1, 0, 0, 0], 0), Some((1 << 24, 5)));
    assert_eq!(read_str_len(&[0xc0], 0), None);
    assert_eq!(read_uint(&[127], 0), Some((127, 1)));
    assert_eq!(read_uint(&[0xcc, 255], 0), Some((255, 2)));
    assert_eq!(read_uint(&[0xcd, 0xff, 0xff], 0), Some((65535, 3)));
    assert_eq!(read_uint(&[0xce, 0xff, 0xff, 0xff, 0xff], 0), Some((u32::MAX, 5)));
    assert_eq!(read_uint(&[0xcf, 0, 0, 0, 0, 0, 0, 0, 1], 0), Some((1, 9)));
    assert_eq!(read_uint(&[0xcf, 0, 0, 0, 0, 0xff, 0xff, 0xff, 0xff], 0), Some((u32::MAX, 9)));
    assert_eq!(read_uint(&[0xcf, 0, 0, 0, 1, 0, 0, 0, 0], 0), None);
    assert_eq!(read_uint(&[0xd3, 0, 0, 0, 0, 0x80, 0, 0, 0], 0), Some((1 << 31, 9)));
    assert_eq!(read_uint(&[0xd3, 0xff, 0xff, 0xff, 0xff, 0xff, 0xff, 0xff, 0xff], 0), None);
    assert_eq!(read_uint(&[0xd0, 0x7f], 0), Some((127, 2)));
    assert_eq!(read_uint(&[0xd0, 0x80], 0), None);
    assert_eq!(read_uint(&[0xd1, 0x7f, 0xff], 0), Some((32767, 3)));
    assert_eq!(read_uint(&[0xd1, 0xff, 0xff], 0), None);
    assert_eq!(read_uint(&[0xd2, 0x7f, 0xff, 0xff, 0xff], 0), Some((i32::MAX as u32, 5)));
    assert_eq!(read_uint(&[0xd2, 0x80, 0, 0, 0], 0), None);
    assert_eq!(read_uint(&[0xff], 0), None);
    for bytes in [
        vec![0x81u8, 0xa1, b'a', 0x92, 0xd2, 0, 0, 1, 0, 0xcf, 0, 0, 0, 0, 0, 0, 0, 7],
        vec![0x81u8, 0xa1, b'a', 0x92, 0xd1, 1, 0, 0xd0, 7],
    ] {
        let ours = decode_table(&bytes).unwrap().0;
        let theirs: BTreeMap<String, (u32, u32)> = rmp_serde::from_slice(&bytes).unwrap();
        assert_eq!(ours[0].entry, HeaderEntry { offset: 256, length: 7 });
        assert_eq!(theirs["a"], (256, 7));
    }
    assert_eq!(read_uint(&[1], 1), None);
}

#[test]
fn an_entry_outside_the_body_is_out_of_range() {
    let a = Archive { table: Vec::new(), body: vec![0xc0, 0xc0, 0xc0] };
    assert_eq!(a.extract(HeaderEntry { offset: 0, length: 3 }), Ok(vec![0xc0, 0xc0, 0xc0]));
    assert_eq!(a.extract(HeaderEntry { offset: 3, length: 0 }), Ok(vec![]));
    assert_eq!(a.extract(HeaderEntry { offset: 1, length: 3 }), Err(ArchiveError::OutOfRange));
    assert_eq!(a.extract(HeaderEntry { offset: 4, length: 0 }), Err(ArchiveError::OutOfRange));
    assert_eq!(
        a.extract(HeaderEntry { offset: u32::MAX, length: u32::MAX }),
        Err(ArchiveError::OutOfRange)
    );
    let b = Archive {
        table: vec![
            Record { name: "ok".to_string(), entry: HeaderEntry { offset: 0, length: 1 } },
            Record { name: "far".to_string(), entry: HeaderEntry { offset: 2, length: 9 } },
        ],
        body: vec![0xc0, 0xc0, 0xc0],
    };
    assert!(matches!(b.unpack(), Err(ArchiveError::OutOfRange)));
}

#[test]
fn a_later_entry_of_the_same_name_wins() {
    let mut a = Archive::new();
    a.append("x".to_string(), &[1, 2]).unwrap();
    a.append("y".to_string(), &[3]).unwrap();
    a.append("x".to_string(), &[4, 5, 6]).unwrap();
    assert_eq!(a.body, vec![1, 2, 3, 4, 5, 6]);
    assert_eq!(a.table.len(), 2);
    assert_eq!(a.table[0].name, "y");
    assert_eq!(a.table[0].entry, HeaderEntry { offset: 2, length: 1 });
    assert_eq!(a.table[1].name, "x");
    assert_eq!(a.table[1].entry, HeaderEntry { offset: 3, length: 3 });
    assert_eq!(a.find(&"x".to_string()), Some(1));
    assert_eq!(a.find(&"z".to_string()), None);
}

#[test]
fn add_seals_and_records() {
    let mut a = Archive::new();
    a.add(doc("small", encoded_of_len(30)), true).unwrap();
    a.add(doc("large", encoded_of_len(3000)), true).unwrap();
    assert_eq!(a.table[0].entry, HeaderEntry { offset: 0, length: 30 });
    assert_eq!(a.table[1].entry.offset, 30);
    assert!(a.table[1].entry.length < 3000);
    assert_eq!(a.extract(a.table[0].entry).unwrap(), encoded_of_len(30));
    assert_eq!(a.extract(a.table[1].entry).unwrap(), encoded_of_len(3000));
}

#[test]
fn small_and_large_document_scenario() {
    let a_text = "{\"x\":1}".to_string();
    let b_text = format!("{{\"text\":\"{}\"}}", "lorem ".repeat(167));
    let mut docs = Vec::new();
    for (name, text) in [("a", &a_text), ("b", &b_text)] {
        let value: rmpv::Value = serde_json::from_str(text).unwrap();
        docs.push(doc(name, rmp_serde::to_vec(&value).unwrap()));
    }
    let bytes = pack(&docs, true).unwrap().to_bytes().unwrap();
    let archive = Archive::from_bytes(&bytes).unwrap();
    assert_eq!(archive.table.len(), 2);
    let a = archive.table[0].entry;
    let b = archive.table[1].entry;
    assert_eq!(&archive.body[..a.length as usize], &docs[0].plain[..]);
    let stored_b = &archive.body[b.offset as usize..(b.offset + b.length) as usize];
    let wrapped: rmpv::Value = rmp_serde::from_slice(stored_b).unwrap();
    assert_eq!(wrapped.as_ext().unwrap().0, 99);
    let out = archive.unpack().unwrap();
    for (i, text) in [&a_text, &b_text].iter().enumerate() {
        let value: rmpv::Value = rmp_serde::from_slice(&out[i].plain).unwrap();
        assert_eq!(&serde_json::to_string(&value).unwrap(), *text);
    }
}

#[test]
fn messages_name_the_failure() {
    assert_eq!(ArchiveError::Decode.message(), "malformed encoded value");
    assert_eq!(ArchiveError::Compression.message(), "compressed block is corrupt");
    assert_eq!(ArchiveError::OutOfRange.message(), "entry lies outside the archive body");
    assert_eq!(ArchiveError::TooLarge.message(), "archive body exceeds 32-bit offsets");
    assert_eq!(ArchiveError::Text.message(), "document is not valid text");
    assert_eq!(ArchiveError::Encode.message(), "value cannot be encoded");
}
