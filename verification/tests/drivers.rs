use docpack::archive::{Archive, Document, HeaderEntry};
use docpack::driver::{repack, unpack};
use docpack::error::ArchiveError;
use docpack::token::read_ext_head;
use docpack::value::{decode_text, encode_text};

fn text_doc(name: &str, text: &str) -> Document {
    let value: rmpv::Value = serde_json::from_str(text).unwrap();
    Document { name: name.to_string(), plain: rmp_serde::to_vec(&value).unwrap() }
}

#[test]
fn repack_then_unpack_gives_the_documents_back() {
    let long = format!("[{}]", vec!["\"abcdefgh\""; 200].join(","));
    let docs = vec![
        text_doc("nil", "null"),
        text_doc("nums", "[0,-1,255,65536,-70000,1.5,true,false]"),
        text_doc("long", &long),
        text_doc("nested", "{\"a\":{\"b\":[1,{\"c\":\"d\"}]},\"e\":\"\"}"),
    ];
    for compress in [true, false] {
        let bytes = repack(&docs, compress).unwrap();
        let out = unpack(&bytes).unwrap();
        assert_eq!(out.len(), docs.len());
        for i in 0..docs.len() {
            assert_eq!(out[i].name, docs[i].name);
            assert_eq!(out[i].plain, docs[i].plain);
        }
    }
}

#[test]
fn repack_of_nothing_is_an_empty_map() {
    let bytes = repack(&Vec::new(), true).unwrap();
    assert_eq!(bytes, vec![0x80]);
    assert_eq!(unpack(&bytes).unwrap().len(), 0);
}

#[test]
fn repack_layout_is_exact_without_compression() {
    let docs = vec![
        Document { name: "a".to_string(), plain: vec![0x01] },
        Document { name: "b".to_string(), plain: vec![0x92, 0x02, 0x03] },
    ];
    let bytes = repack(&docs, false).unwrap();
    assert_eq!(
        bytes,
        vec![0x82, 0xa1, b'a', 0x92, 0, 1, 0xa1, b'b', 0x92, 1, 3, 0x01, 0x92, 0x02, 0x03]
    );
}

#[test]
fn unpack_reports_the_first_failure() {
    assert!(matches!(unpack(&[0xc0]), Err(ArchiveError::Decode)));
    let far = vec![0x81, 0xa1, b'a', 0x92, 0, 5, 1, 2];
    assert!(matches!(unpack(&far), Err(ArchiveError::OutOfRange)));
    let both = vec![0x82, 0xa1, b'a', 0x92, 0, 7, 0xa1, b'b', 0x92, 0, 9, 0xd7, 99, 0xc0, 0, 0, 0, 0, 0, 0];
    assert!(matches!(unpack(&both), Err(ArchiveError::Decode)));
}

#[test]
fn json_goes_in_and_comes_out_byte_for_byte() {
    let a_text = "{\"x\":1}".to_string();
    let b_text = format!("\"{}\"", "z".repeat(1000));
    let mut archive = Archive::new();
    archive.add_json("a".to_string(), a_text.as_bytes(), true).unwrap();
    archive.add_json("b".to_string(), b_text.as_bytes(), true).unwrap();
    let bytes = archive.to_bytes().unwrap();
    let back = Archive::from_bytes(&bytes).unwrap();
    assert_eq!(back.table.len(), 2);
    assert_eq!(back.table[0].name, "a");
    assert_eq!(back.table[1].name, "b");
    let a = back.table[0].entry;
    let b = back.table[1].entry;
    assert_eq!(a, HeaderEntry { offset: 0, length: 4 });
    assert_eq!(&back.body[..4], &[0x81, 0xa1, b'x', 0x01][..]);
    assert_eq!(b.offset, 4);
    let head = read_ext_head(&back.body[b.offset as usize..]).unwrap();
    assert_eq!(head.tag, 99);
    assert_eq!(head.start + head.len, b.length as usize);
    assert!((b.length as usize) < 1003);
    assert_eq!(back.json_at(a).unwrap(), a_text.as_bytes());
    assert_eq!(back.json_at(b).unwrap(), b_text.as_bytes());
}

#[test]
fn value_at_decodes_the_entry() {
    let mut archive = Archive::new();
    let value = rmpv::Value::Array(vec![
        rmpv::Value::from(1),
        rmpv::Value::from("two"),
        rmpv::Value::Binary(vec![3; 100]),
    ]);
    archive.add_value("v".to_string(), &value, true).unwrap();
    archive.add_value("w".to_string(), &rmpv::Value::Nil, true).unwrap();
    assert_eq!(archive.value_at(archive.table[0].entry).unwrap(), value);
    assert_eq!(archive.value_at(archive.table[1].entry).unwrap(), rmpv::Value::Nil);
    assert_eq!(
        archive.value_at(HeaderEntry { offset: 0, length: u32::MAX }),
        Err(ArchiveError::OutOfRange)
    );
    let broken = Archive { table: Vec::new(), body: vec![0x92, 0x01] };
    assert_eq!(
        broken.value_at(HeaderEntry { offset: 0, length: 2 }),
        Err(ArchiveError::Decode)
    );
}

#[test]
fn bad_text_is_a_text_error() {
    let mut archive = Archive::new();
    assert_eq!(
        archive.add_json("bad".to_string(), b"{\"x\":", true),
        Err(ArchiveError::Text)
    );
    assert_eq!(
        archive.add_json("bad".to_string(), b"1 2", true),
        Err(ArchiveError::Text)
    );
    assert_eq!(archive.table.len(), 0);
    assert_eq!(archive.body.len(), 0);
    let keyed = Archive { table: Vec::new(), body: vec![0x81, 0x90, 0x01] };
    assert_eq!(
        keyed.json_at(HeaderEntry { offset: 0, length: 3 }),
        Err(ArchiveError::Text)
    );
}

#[test]
fn the_last_document_of_a_name_is_kept() {
    let docs = vec![
        Document { name: "a".to_string(), plain: vec![0x01] },
        Document { name: "b".to_string(), plain: vec![0x02, 0x03] },
        Document { name: "a".to_string(), plain: vec![0xc3] },
    ];
    let bytes = repack(&docs, true).unwrap();
    assert_eq!(
        bytes,
        vec![0x82, 0xa1, b'b', 0x92, 1, 2, 0xa1, b'a', 0x92, 3, 1, 0x01, 0x02, 0x03, 0xc3]
    );
    let out = unpack(&bytes).unwrap();
    assert_eq!(out.len(), 2);
    assert_eq!(out[0].name, "b");
    assert_eq!(out[0].plain, vec![0x02, 0x03]);
    assert_eq!(out[1].name, "a");
    assert_eq!(out[1].plain, vec![0xc3]);
}

#[test]
fn unpacking_twice_gives_the_same() {
    let docs = vec![text_doc("p", "[1,2,3]"), text_doc("q", &format!("\"{}\"", "q".repeat(400)))];
    let bytes = repack(&docs, true).unwrap();
    let first = unpack(&bytes).unwrap();
    let second = unpack(&bytes).unwrap();
    assert_eq!(first.len(), second.len());
    for i in 0..first.len() {
        assert_eq!(first[i].name, second[i].name);
        assert_eq!(first[i].plain, second[i].plain);
    }
    let broken = vec![0x81, 0xa1, b'a', 0x92, 0, 9, 0xc0];
    assert_eq!(unpack(&broken).err(), unpack(&broken).err());
    assert_eq!(unpack(&broken).err(), Some(ArchiveError::OutOfRange));
}

#[test]
fn a_table_with_a_repeated_name_is_malformed() {
    let twice = vec![0x82, 0xa1, b'a', 0x92, 0, 1, 0xa1, b'a', 0x92, 1, 1, 0xc0, 0xc3];
    assert!(matches!(Archive::from_bytes(&twice), Err(ArchiveError::Decode)));
    assert!(matches!(unpack(&twice), Err(ArchiveError::Decode)));
    let once = vec![0x82, 0xa1, b'a', 0x92, 0, 1, 0xa1, b'b', 0x92, 1, 1, 0xc0, 0xc3];
    assert_eq!(unpack(&once).unwrap().len(), 2);
}

#[test]
fn text_to_plain_and_back() {
    assert_eq!(encode_text(b"{\"x\":1}"), Ok(vec![0x81, 0xa1, b'x', 0x01]));
    assert_eq!(encode_text(b"[1,2]"), Ok(vec![0x92, 0x01, 0x02]));
    assert_eq!(encode_text(b"null"), Ok(vec![0xc0]));
    assert_eq!(encode_text(b"{"), Err(ArchiveError::Text));
    assert_eq!(encode_text(b""), Err(ArchiveError::Text));
    assert_eq!(decode_text(&[0x81, 0xa1, b'x', 0x01]), Ok(b"{\"x\":1}".to_vec()));
    assert_eq!(decode_text(&[0x92, 0x01]), Err(ArchiveError::Decode));
    assert_eq!(decode_text(&[0x81, 0x90, 0x01]), Err(ArchiveError::Text));
}

fn from_text(name: &str, text: &str) -> Document {
    Document { name: name.to_string(), plain: encode_text(text.as_bytes()).unwrap() }
}

#[test]
fn a_document_of_64_bytes_is_packed_plain() {
    let docs = vec![from_text("a", &format!("\"{}\"", "a".repeat(62)))];
    let bytes = repack(&docs, true).unwrap();
    let mut expected = vec![0x81, 0xa1, b'a', 0x92, 0, 64, 0xd9, 0x3e];
    expected.extend_from_slice(&[0x61; 62]);
    assert_eq!(bytes, expected);
}

#[test]
fn a_document_of_65_bytes_is_packed_wrapped() {
    let docs = vec![from_text("a", &format!("\"{}\"", "a".repeat(63)))];
    let mut plain = vec![0xd9, 0x3f];
    plain.extend_from_slice(&[0x61; 63]);
    assert_eq!(docs[0].plain, plain);
    let bytes = repack(&docs, true).unwrap();
    let archive = Archive::from_bytes(&bytes).unwrap();
    assert_eq!(archive.table.len(), 1);
    assert_eq!(archive.table[0].name, "a");
    assert_eq!(archive.table[0].entry.offset, 0);
    assert_eq!(archive.table[0].entry.length as usize, archive.body.len());
    assert_ne!(archive.body, plain);
    let value: rmpv::Value = rmp_serde::from_slice(&archive.body).unwrap();
    assert_eq!(rmp_serde::to_vec(&value).unwrap(), archive.body);
    let (tag, payload) = value.as_ext().unwrap();
    assert_eq!(tag, 99);
    assert_eq!(&payload[..5], &[0xd2, 0, 0, 0, 65]);
    assert_eq!(archive.extract(archive.table[0].entry), Ok(plain));
}

#[test]
fn three_small_documents_are_packed_side_by_side() {
    let docs = vec![from_text("A", "1"), from_text("B", "[1,2]"), from_text("C", "null")];
    let bytes = repack(&docs, true).unwrap();
    assert_eq!(
        bytes,
        vec![
            0x83, 0xa1, b'A', 0x92, 0, 1, 0xa1, b'B', 0x92, 1, 3, 0xa1, b'C', 0x92, 4, 1, 0x01,
            0x92, 0x01, 0x02, 0xc0
        ]
    );
}

#[test]
fn a_small_and_a_large_document_are_packed() {
    let docs = vec![
        from_text("a", "{\"x\":1}"),
        from_text("b", &format!("\"{}\"", "a".repeat(1000))),
    ];
    let bytes = repack(&docs, true).unwrap();
    let archive = Archive::from_bytes(&bytes).unwrap();
    assert_eq!(archive.table.len(), 2);
    assert_eq!(archive.table[0].name, "a");
    assert_eq!(archive.table[1].name, "b");
    let a = archive.table[0].entry;
    let b = archive.table[1].entry;
    assert_eq!(a, HeaderEntry { offset: 0, length: 4 });
    assert_eq!(&archive.body[..4], &[0x81, 0xa1, 0x78, 0x01]);
    assert_eq!(b.offset, 4);
    assert_eq!(archive.body.len() as u32, a.length + b.length);
    let value: rmpv::Value = rmp_serde::from_slice(&archive.body[4..]).unwrap();
    assert_eq!(rmp_serde::to_vec(&value).unwrap().len() as u32, b.length);
    let (tag, payload) = value.as_ext().unwrap();
    assert_eq!(tag, 99);
    assert_eq!(&payload[..5], &[0xd2, 0, 0, 0x03, 0xeb]);
    let mut plain = vec![0xda, 0x03, 0xe8];
    plain.extend_from_slice(&[0x61; 1000]);
    assert_eq!(archive.extract(b), Ok(plain));
    let out = unpack(&bytes).unwrap();
    assert_eq!(decode_text(&out[0].plain).unwrap(), b"{\"x\":1}");
    assert_eq!(decode_text(&out[1].plain).unwrap(), format!("\"{}\"", "a".repeat(1000)).as_bytes());
}

#[test]
fn a_bad_document_stops_packing() {
    let mut archive = Archive::new();
    archive.add_json("a".to_string(), b"1", true).unwrap();
    let before = archive.body.clone();
    assert_eq!(archive.add_json("b".to_string(), b"{", true), Err(ArchiveError::Text));
    assert_eq!(archive.body, before);
    assert_eq!(archive.table.len(), 1);
}
