use std::collections::BTreeMap;

use ipld_core::ipld::Ipld;
use iroh_car::content_id::Cid;
use iroh_car::error::Error;
use iroh_car::frame::{ld_read, ld_write};
use iroh_car::header::{CarHeader, CarHeaderV1};
use iroh_car::reader::CarReader;
use iroh_car::varint::{encode_uvarint, read_uvarint, VarintRead};
use iroh_car::writer::CarWriter;

fn outside_cid(seed: u8) -> cid::Cid {
    let digest = [seed; 32];
    let mh = cid::multihash::Multihash::<64>::wrap(0x1e, &digest).unwrap();
    cid::Cid::new_v1(0x71, mh)
}

fn lib_cid(c: &cid::Cid) -> Cid {
    Cid::from_bytes(&c.to_bytes()).unwrap()
}

fn encode_header(roots: &[cid::Cid], version: i128, label: Option<&str>) -> Vec<u8> {
    let mut map = BTreeMap::new();
    map.insert(
        "roots".to_string(),
        Ipld::List(roots.iter().map(|c| Ipld::Link(*c)).collect()),
    );
    map.insert("version".to_string(), Ipld::Integer(version));
    if let Some(l) = label {
        map.insert("label".to_string(), Ipld::String(l.to_string()));
    }
    serde_ipld_dagcbor::to_vec(&Ipld::Map(map)).unwrap()
}

fn decode_header(bytes: &[u8]) -> Result<CarHeaderV1, Error> {
    let value: Ipld =
        serde_ipld_dagcbor::from_slice(bytes).map_err(|e| Error::Cbor(e.to_string()))?;
    let map = match value {
        Ipld::Map(m) => m,
        _ => return Err(Error::Parsing("header is not a map".to_string())),
    };
    let roots = match map.get("roots") {
        Some(Ipld::List(l)) => l
            .iter()
            .map(|i| match i {
                Ipld::Link(c) => Ok(lib_cid(c)),
                _ => Err(Error::Parsing("root is not a link".to_string())),
            })
            .collect::<Result<Vec<_>, _>>()?,
        _ => return Err(Error::Parsing("roots missing".to_string())),
    };
    let version = match map.get("version") {
        Some(Ipld::Integer(v)) => *v as u64,
        _ => return Err(Error::Parsing("version missing".to_string())),
    };
    Ok(CarHeaderV1::new(roots, version))
}

fn write_archive(header: Vec<u8>, blocks: &[(Cid, Vec<u8>)]) -> Vec<u8> {
    let mut writer = CarWriter::new(header);
    let mut out = Vec::new();
    for (c, p) in blocks {
        out.extend(writer.write(c, p));
    }
    out.extend(writer.finish());
    out
}

#[test]
fn car_write_read() {
    let cid_test = lib_cid(&outside_cid(1));
    let cid_foo = lib_cid(&outside_cid(2));
    let header = encode_header(&[outside_cid(2)], 1, None);
    let buffer = write_archive(
        header,
        &[(cid_test.clone(), b"test".to_vec()), (cid_foo.clone(), b"foo".to_vec())],
    );

    let car_reader = CarReader::new(buffer).unwrap();
    let h = car_reader.header(decode_header).unwrap();
    assert_eq!(h.roots(), &vec![cid_foo.clone()]);
    assert_eq!(h.version(), 1);
    let files: Vec<_> = car_reader.stream().into_iter().collect::<Result<_, _>>().unwrap();
    assert_eq!(files.len(), 2);
    assert_eq!(files[0].0, cid_test);
    assert_eq!(files[0].1, b"test");
    assert_eq!(files[1].0, cid_foo);
    assert_eq!(files[1].1, b"foo");
}

#[test]
fn symmetric_header_v1() {
    let header = encode_header(&[outside_cid(3)], 1, None);
    let decoded = decode_header(&header).unwrap();
    assert_eq!(decoded, CarHeaderV1::from(vec![lib_cid(&outside_cid(3))]));
}

#[test]
fn empty_archive() {
    let buffer = write_archive(encode_header(&[], 1, None), &[]);
    let mut reader = CarReader::new(buffer).unwrap();
    let h = reader.header(decode_header).unwrap();
    assert!(h.roots().is_empty());
    assert_eq!(reader.next_block().unwrap(), None);
    assert_eq!(reader.next_block().unwrap(), None);
}

#[test]
fn unused_writer_emits_nothing_until_finish() {
    let header = encode_header(&[], 1, None);
    let writer = CarWriter::new(header.clone());
    let out = writer.finish();
    let mut expected = encode_uvarint(header.len() as u64);
    expected.extend_from_slice(&header);
    assert_eq!(out, expected);
}

#[test]
fn truncated_mid_frame() {
    let c = lib_cid(&outside_cid(4));
    let mut buffer = write_archive(encode_header(&[], 1, None), &[(c.clone(), b"abcdef".to_vec())]);
    buffer.truncate(buffer.len() - 3);
    let mut reader = CarReader::new(buffer).unwrap();
    assert!(matches!(reader.next_block(), Err(Error::Parsing(_))));
    assert!(matches!(reader.next_block(), Err(Error::Parsing(_))));
}

#[test]
fn cid_only_frame() {
    let c = lib_cid(&outside_cid(5));
    let buffer = write_archive(encode_header(&[], 1, None), &[(c.clone(), Vec::new())]);
    let mut reader = CarReader::new(buffer).unwrap();
    assert_eq!(reader.next_block().unwrap(), Some((c, Vec::new())));
    assert_eq!(reader.next_block().unwrap(), None);
}

#[test]
fn unknown_header_version() {
    let buffer = write_archive(encode_header(&[], 2, None), &[]);
    let reader = CarReader::new(buffer).unwrap();
    let r = reader.header(decode_header);
    assert!(matches!(r, Err(Error::InvalidFile(_))));
}

#[test]
fn decode_error_passes_through() {
    let r = CarHeader::from_decoded(Err(Error::Cbor("bad".to_string())));
    assert_eq!(r, Err(Error::Cbor("bad".to_string())));
}

#[test]
fn oversized_frame() {
    let c = lib_cid(&outside_cid(6));
    let size = 10 * 1024 * 1024;
    let payload = vec![7u8; size - c.to_bytes().len()];
    let buffer = write_archive(encode_header(&[], 1, None), &[(c, payload)]);
    let mut reader = CarReader::with_max_frame_size(buffer, 1024 * 1024).unwrap();
    assert_eq!(reader.next_block(), Err(Error::LdReadTooLarge(size as u64)));
}

#[test]
fn oversized_header() {
    let buffer = write_archive(vec![0u8; 100], &[]);
    let r = CarReader::with_max_frame_size(buffer, 99);
    assert!(matches!(r, Err(Error::LdReadTooLarge(100))));
}

#[test]
fn truncation_of_last_byte() {
    let a = lib_cid(&outside_cid(7));
    let b = lib_cid(&outside_cid(8));
    let mut buffer = write_archive(
        encode_header(&[outside_cid(7)], 1, None),
        &[(a.clone(), b"first".to_vec()), (b, b"second".to_vec())],
    );
    buffer.pop();
    let mut reader = CarReader::new(buffer).unwrap();
    assert!(reader.header(decode_header).is_ok());
    assert_eq!(reader.next_block().unwrap(), Some((a, b"first".to_vec())));
    assert!(matches!(reader.next_block(), Err(Error::Parsing(_))));
}

#[test]
fn stream_ends_with_error() {
    let a = lib_cid(&outside_cid(9));
    let mut buffer = write_archive(
        encode_header(&[], 1, None),
        &[(a.clone(), b"one".to_vec()), (a.clone(), b"two".to_vec())],
    );
    buffer.pop();
    let items = CarReader::new(buffer).unwrap().stream();
    assert_eq!(items.len(), 2);
    assert_eq!(items[0], Ok((a, b"one".to_vec())));
    assert!(matches!(items[1], Err(Error::Parsing(_))));
}

#[test]
fn custom_header_schema() {
    let buffer = write_archive(encode_header(&[outside_cid(10)], 1, Some("x")), &[]);
    let reader = CarReader::new(buffer).unwrap();
    let h = reader.header(decode_header).unwrap();
    assert_eq!(h.roots(), &vec![lib_cid(&outside_cid(10))]);
    let value: Ipld = serde_ipld_dagcbor::from_slice(reader.header_bytes()).unwrap();
    match value {
        Ipld::Map(m) => assert_eq!(m.get("label"), Some(&Ipld::String("x".to_string()))),
        _ => panic!("header is not a map"),
    }
}

#[test]
fn varint_boundary_block() {
    let c = lib_cid(&outside_cid(11));
    let payload: Vec<u8> = (0..(16384 - c.to_bytes().len())).map(|i| (i % 251) as u8).collect();
    let buffer = write_archive(encode_header(&[], 1, None), &[(c.clone(), payload.clone())]);
    let reader = CarReader::new(buffer.clone()).unwrap();
    let hlen = reader.header_bytes().len();
    let prefix_at = encode_uvarint(hlen as u64).len() + hlen;
    assert_eq!(&buffer[prefix_at..prefix_at + 3], &[0x80, 0x80, 0x01]);
    let mut reader = reader;
    assert_eq!(reader.next_block().unwrap(), Some((c, payload)));
    assert_eq!(reader.next_block().unwrap(), None);
}

#[test]
fn varint_encodings() {
    assert_eq!(encode_uvarint(0), vec![0]);
    assert_eq!(encode_uvarint(127), vec![0x7f]);
    assert_eq!(encode_uvarint(128), vec![0x80, 0x01]);
    assert_eq!(encode_uvarint(300), vec![0xac, 0x02]);
    assert_eq!(encode_uvarint(16384), vec![0x80, 0x80, 0x01]);
    assert_eq!(encode_uvarint(u64::MAX).len(), 10);
}

#[test]
fn varint_reads() {
    assert_eq!(read_uvarint(&[0xac, 0x02, 0x55], 0), VarintRead::Value(300, 2));
    assert_eq!(read_uvarint(&[0x55, 0x01], 1), VarintRead::Value(1, 1));
    assert_eq!(read_uvarint(&[], 0), VarintRead::Eof);
    assert_eq!(read_uvarint(&[1, 2], 2), VarintRead::Eof);
    assert_eq!(read_uvarint(&[0x80, 0x80], 0), VarintRead::Truncated);
    assert_eq!(read_uvarint(&[0xff; 11], 0), VarintRead::Overflow);
    assert_eq!(read_uvarint(&[0x80, 0x00], 0), VarintRead::Value(0, 2));
    let max = encode_uvarint(u64::MAX);
    assert_eq!(read_uvarint(&max, 0), VarintRead::Value(u64::MAX, 10));
    let mut too_big = vec![0xff; 9];
    too_big.push(0x7f);
    assert_eq!(read_uvarint(&too_big, 0), VarintRead::Overflow);
}

#[test]
fn varint_round_trip_many() {
    for n in [0u64, 1, 127, 128, 255, 16383, 16384, 1 << 35, u64::MAX - 1] {
        let e = encode_uvarint(n);
        assert_eq!(read_uvarint(&e, 0), VarintRead::Value(n, e.len()));
    }
}

#[test]
fn frame_round_trip() {
    let mut out = vec![9u8];
    ld_write(&mut out, b"hello");
    assert_eq!(out, vec![9, 5, b'h', b'e', b'l', b'l', b'o']);
    assert_eq!(ld_read(&out, 1, 5), Ok(Some((2, 7))));
    assert_eq!(ld_read(&out, 1, 4), Err(Error::LdReadTooLarge(5)));
    assert_eq!(ld_read(&out, 7, 4), Ok(None));
    assert!(matches!(ld_read(&out[..6], 1, 5), Err(Error::Parsing(_))));
}

#[test]
fn missing_header_frame() {
    assert!(matches!(CarReader::new(Vec::new()), Err(Error::Parsing(_))));
    assert!(matches!(CarReader::new(vec![0x80]), Err(Error::Parsing(_))));
}

#[test]
fn cid_parsing() {
    let v1 = outside_cid(12);
    let bytes = v1.to_bytes();
    assert_eq!(lib_cid(&v1).to_bytes(), bytes);
    let mut v0 = vec![0x12, 0x20];
    v0.extend_from_slice(&[3u8; 32]);
    assert_eq!(Cid::from_bytes(&v0).unwrap().as_bytes(), &v0[..]);
    let mut longer = bytes.clone();
    longer.push(0);
    assert!(matches!(Cid::from_bytes(&longer), Err(Error::Parsing(_))));
    assert!(matches!(Cid::from_bytes(&[0x05, 0x01]), Err(Error::Parsing(_))));
    assert_eq!(iroh_car::content_id::split_cid(&longer), Ok(bytes.len()));
}

#[test]
fn bad_cid_in_block_frame() {
    let mut buffer = write_archive(encode_header(&[], 1, None), &[]);
    buffer.extend_from_slice(&[3, 0x05, 0x01, 0x02]);
    let mut reader = CarReader::new(buffer).unwrap();
    assert!(matches!(reader.next_block(), Err(Error::Parsing(_))));
}
