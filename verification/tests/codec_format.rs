use mda::block::DataBlock;
use mda::codec::entry::{decode_entry, encode_entry};
use mda::codec::header::{encode_header, read_header, HEADER_SIZE};
use mda::codec::wire::{read_bytes, read_i32, read_u32, read_u64, write_bytes, write_i32, write_u64};
use mda::container::format::{
    decode_training, read_index, write_index, write_training, DataType, MDAIndex, TrainingData,
    INDEX_SIZE,
};
use mda::error::{CorruptReason, MdaError};
use mda::revlog::model::{Entry, RevlogHeader};

fn sample_header() -> RevlogHeader {
    let mut parent = [0u8; 20];
    let mut node = [0u8; 20];
    for i in 0..20 {
        parent[i] = i as u8;
        node[i] = 0xf0 + (i as u8 % 16);
    }
    RevlogHeader {
        rev: 7,
        offset: 0x0102030405060708,
        length: 0xa1b2c3d4,
        baserev: -2,
        linkrev: 6,
        p1rev: parent,
        p2rev: [0u8; 20],
        nodeid: node,
    }
}

fn sample_entry() -> Entry {
    Entry {
        id: 3,
        index: vec![0, 5, 5, 1_000_000],
        blocks: vec![
            DataBlock { block_number: 5, data: b"0123456789".to_vec() },
            DataBlock { block_number: 1_000_000, data: Vec::new() },
            DataBlock { block_number: 6, data: vec![0xff, 0x00] },
        ],
    }
}

fn entry_as_tuple(e: &Entry) -> (u8, Vec<usize>, Vec<(usize, Vec<u8>)>) {
    (e.id, e.index.clone(), e.blocks.iter().map(|b| (b.block_number, b.data.clone())).collect())
}

#[test]
fn header_record_has_fixed_size() {
    let bytes = encode_header(&sample_header());
    assert_eq!(bytes.len(), HEADER_SIZE);
    assert_eq!(HEADER_SIZE, 81);
}

#[test]
fn header_record_layout_is_little_endian_in_field_order() {
    let h = sample_header();
    let bytes = encode_header(&h);
    assert_eq!(bytes[0], 7);
    assert_eq!(&bytes[1..9], &[8, 7, 6, 5, 4, 3, 2, 1]);
    assert_eq!(&bytes[9..13], &[0xd4, 0xc3, 0xb2, 0xa1]);
    assert_eq!(&bytes[13..17], &[0xfe, 0xff, 0xff, 0xff]);
    assert_eq!(&bytes[17..21], &[6, 0, 0, 0]);
    assert_eq!(&bytes[21..41], &h.p1rev[..]);
    assert_eq!(&bytes[41..61], &h.p2rev[..]);
    assert_eq!(&bytes[61..81], &h.nodeid[..]);
}

#[test]
fn header_record_agrees_with_bincode() {
    let h = sample_header();
    let expected =
        bincode::serialize(&(h.rev, h.offset, h.length, h.baserev, h.linkrev, h.p1rev, h.p2rev, h.nodeid))
            .unwrap();
    assert_eq!(encode_header(&h), expected);
}

#[test]
fn header_record_reads_back() {
    let h = sample_header();
    let mut bytes = vec![9u8; 3];
    bytes.extend_from_slice(&encode_header(&h));
    bytes.push(1);
    assert_eq!(read_header(&bytes, 3), Some((h, 3 + HEADER_SIZE)));
    assert_eq!(read_header(&bytes, 5), None);
    assert_eq!(read_header(&bytes[..83], 3), None);
    assert_eq!(read_header(&bytes, usize::MAX), None);
}

#[test]
fn entry_encoding_agrees_with_bincode() {
    let e = sample_entry();
    assert_eq!(encode_entry(&e), bincode::serialize(&entry_as_tuple(&e)).unwrap());
}

#[test]
fn entry_encoding_of_hello() {
    let (_headers, entries) = Entry::init_with_block_size(b"hello", 2);
    let bytes = encode_entry(&entries[0]);
    assert_eq!(bytes.len(), 94);
    assert_eq!(bytes[0], 0);
    assert_eq!(&bytes[1..9], &[3, 0, 0, 0, 0, 0, 0, 0]);
}

#[test]
fn entry_decoding_agrees_with_bincode() {
    let e = sample_entry();
    let bytes = encode_entry(&e);
    let decoded: (u8, Vec<usize>, Vec<(usize, Vec<u8>)>) = bincode::deserialize(&bytes).unwrap();
    assert_eq!(decoded, entry_as_tuple(&e));
    assert_eq!(decode_entry(&bytes), Ok(e));
}

#[test]
fn entry_decoding_inverts_encoding() {
    let empty = Entry { id: 0, index: Vec::new(), blocks: Vec::new() };
    assert_eq!(encode_entry(&empty).len(), 17);
    assert_eq!(decode_entry(&encode_entry(&empty)), Ok(empty));
    let e = sample_entry();
    assert_eq!(decode_entry(&encode_entry(&e)), Ok(e));
}

#[test]
fn entry_decoding_rejects_damage() {
    let bad = Err(MdaError::CorruptArchive(CorruptReason::BadEntry));
    let bytes = encode_entry(&sample_entry());
    assert_eq!(decode_entry(&[]), bad);
    assert_eq!(decode_entry(&bytes[..bytes.len() - 1]), bad);
    let mut longer = bytes.clone();
    longer.push(0);
    assert_eq!(decode_entry(&longer), bad);
    let mut huge_count = bytes.clone();
    huge_count[8] = 0xff;
    assert_eq!(decode_entry(&huge_count), bad);
    assert_eq!(decode_entry(&bytes[..10]), bad);
}

#[test]
fn integers_are_little_endian() {
    let mut out = vec![0xaau8];
    write_u64(&mut out, 0x1122334455667788);
    write_i32(&mut out, -1);
    assert_eq!(out, vec![0xaa, 0x88, 0x77, 0x66, 0x55, 0x44, 0x33, 0x22, 0x11, 0xff, 0xff, 0xff, 0xff]);
    assert_eq!(read_u64(&out, 1), Some((0x1122334455667788, 9)));
    assert_eq!(read_i32(&out, 9), Some((-1, 13)));
    assert_eq!(read_u32(&out, 9), Some((u32::MAX, 13)));
    assert_eq!(read_u64(&out, 6), None);
    assert_eq!(read_u32(&out, 10), None);
    assert_eq!(read_u64(&out, usize::MAX), None);
}

#[test]
fn byte_strings_carry_a_length_prefix() {
    let mut out = Vec::new();
    write_bytes(&mut out, b"abc");
    assert_eq!(out, vec![3, 0, 0, 0, 0, 0, 0, 0, b'a', b'b', b'c']);
    assert_eq!(out, bincode::serialize(&b"abc".to_vec()).unwrap());
    assert_eq!(read_bytes(&out, 0), Some((b"abc".to_vec(), 11)));
    assert_eq!(read_bytes(&out[..10], 0), None);
}

#[test]
fn index_record_agrees_with_bincode() {
    let index = MDAIndex {
        header_offset: 32,
        train_data_offset: 40,
        anno_headers_offset: 53,
        anno_entries_offset: 134,
    };
    let mut out = Vec::new();
    write_index(&mut out, &index);
    assert_eq!(out.len(), INDEX_SIZE);
    assert_eq!(out, bincode::serialize(&(32u64, 40u64, 53u64, 134u64)).unwrap());
    out.resize(134, 0);
    assert_eq!(read_index(&out), Ok(index));
}

#[test]
fn index_is_validated() {
    assert_eq!(read_index(&[0u8; 31]), Err(MdaError::CorruptArchive(CorruptReason::TruncatedIndex)));
    let out_of_range = Err(MdaError::CorruptArchive(CorruptReason::RegionOutOfRange));
    let write = |h: u64, t: u64, ah: u64, ae: u64, len: usize| {
        let mut out = Vec::new();
        write_index(
            &mut out,
            &MDAIndex { header_offset: h, train_data_offset: t, anno_headers_offset: ah, anno_entries_offset: ae },
        );
        out.resize(len, 0);
        out
    };
    assert_eq!(read_index(&write(31, 40, 50, 60, 100)), out_of_range);
    assert_eq!(read_index(&write(32, 31, 50, 60, 100)), out_of_range);
    assert_eq!(read_index(&write(32, 40, 39, 60, 100)), out_of_range);
    assert_eq!(read_index(&write(32, 40, 50, 49, 100)), out_of_range);
    assert_eq!(read_index(&write(32, 40, 50, 101, 100)), out_of_range);
    assert!(read_index(&write(32, 32, 32, 32, 32)).is_ok());
}

#[test]
fn training_data_agrees_with_bincode() {
    let mut text = Vec::new();
    write_training(&mut text, &TrainingData::Text("héllo".to_string()));
    let mut expected = bincode::serialize(&0u32).unwrap();
    expected.extend_from_slice(&bincode::serialize(&"héllo".to_string()).unwrap());
    assert_eq!(text, expected);
    let mut audio = Vec::new();
    write_training(&mut audio, &TrainingData::Audio(vec![1, 2, 3]));
    assert_eq!(audio, bincode::serialize(&(3u32, vec![1u8, 2, 3])).unwrap());
}

#[test]
fn training_data_reads_back_every_kind() {
    let samples = vec![
        TrainingData::Text("T".to_string()),
        TrainingData::Image(vec![0x89, b'P', b'N', b'G']),
        TrainingData::Video(Vec::new()),
        TrainingData::Audio(vec![0; 100]),
    ];
    let kinds = vec![DataType::Text, DataType::Image, DataType::Video, DataType::Audio];
    for (sample, kind) in samples.into_iter().zip(kinds) {
        let mut region = Vec::new();
        write_training(&mut region, &sample);
        assert_eq!(sample.kind(), kind);
        assert_eq!(decode_training(&region), Ok(sample));
    }
}

#[test]
fn training_data_rejects_damage() {
    let bad = Err(MdaError::CorruptArchive(CorruptReason::BadTrainingData));
    let mut region = Vec::new();
    write_training(&mut region, &TrainingData::Image(vec![1, 2, 3]));
    assert_eq!(decode_training(&region[..3]), bad);
    assert_eq!(decode_training(&region[..11]), bad);
    assert_eq!(decode_training(&region[..region.len() - 1]), bad);
    let mut longer = region.clone();
    longer.push(0);
    assert_eq!(decode_training(&longer), bad);
    let mut unknown = region.clone();
    unknown[0] = 4;
    assert_eq!(decode_training(&unknown), Err(MdaError::MediaKindUnknown));
    let mut not_text = region.clone();
    not_text[0] = 0;
    not_text[12] = 0xff;
    assert_eq!(decode_training(&not_text), Err(MdaError::CorruptArchive(CorruptReason::InvalidText)));
}

#[test]
fn text_payload_must_be_utf8() {
    assert_eq!(
        TrainingData::from_parts(DataType::Text, vec![0xc3, 0x28]),
        Err(MdaError::CorruptArchive(CorruptReason::InvalidText))
    );
    assert_eq!(
        TrainingData::from_parts(DataType::Text, "héllo".as_bytes().to_vec()),
        Ok(TrainingData::Text("héllo".to_string()))
    );
    assert_eq!(
        TrainingData::from_parts(DataType::Video, vec![0xc3, 0x28]),
        Ok(TrainingData::Video(vec![0xc3, 0x28]))
    );
    assert_eq!(TrainingData::Text("héllo".to_string()).payload(), "héllo".as_bytes());
}
