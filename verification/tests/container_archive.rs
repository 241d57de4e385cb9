use mda::container::archive::{
    extract_anno_from_mda, extract_data_from_mda, extract_train_from_mda, get_anno_revlog_from_mda,
    read_info_from_mda, update_anno_in_mda, update_revlog, write_data_to_mda,
};
use mda::container::format::{Header, MDAIndex, TrainingData};
use mda::codec::entry::encode_entry;
use mda::codec::header::HEADER_SIZE;
use mda::error::{CorruptReason, MdaError};
use mda::revlog::model::{Entry, Revlog, RevlogIndex};
use mda::revlog::ops::reconstruct;

fn generate(train: TrainingData, anno: &[u8]) -> Vec<u8> {
    let (headers, entries) = Entry::init(anno);
    let mut revlog = Revlog::new(headers, entries);
    write_data_to_mda(&Header { record: b"descriptor".to_vec() }, &train, &mut revlog).unwrap()
}

#[test]
fn round_trip_of_text_and_annotation() {
    let file = generate(TrainingData::Text("T".to_string()), b"A");
    let (index, header) = read_info_from_mda(&file).unwrap();
    assert_eq!(header.record, b"descriptor".to_vec());
    assert_eq!(index.header_offset, 32);
    assert_eq!(index.train_data_offset, 42);
    assert_eq!(index.anno_headers_offset, 42 + 4 + 8 + 1);
    assert_eq!(index.anno_entries_offset, 55 + HEADER_SIZE as u64);
    assert_eq!(extract_train_from_mda(&file), Ok(TrainingData::Text("T".to_string())));
    assert_eq!(extract_anno_from_mda(&file, -1), Ok(b"A".to_vec()));
    assert_eq!(extract_anno_from_mda(&file, 0), Ok(b"A".to_vec()));
    assert_eq!(
        extract_data_from_mda(&file, -1),
        Ok((TrainingData::Text("T".to_string()), b"A".to_vec()))
    );
}

#[test]
fn update_persists_history() {
    let file = generate(TrainingData::Text("T".to_string()), b"v1");
    let updated = update_anno_in_mda(&file, b"v2").unwrap();
    assert_eq!(extract_anno_from_mda(&updated, 0), Ok(b"v1".to_vec()));
    assert_eq!(extract_anno_from_mda(&updated, -1), Ok(b"v2".to_vec()));
    assert_eq!(extract_anno_from_mda(&updated, 1), Ok(b"v2".to_vec()));
    assert_eq!(extract_anno_from_mda(&updated, 2), Err(MdaError::RevisionNotFound));
    assert_eq!(extract_train_from_mda(&updated), Ok(TrainingData::Text("T".to_string())));
    assert_eq!(read_info_from_mda(&updated).unwrap().1.record, b"descriptor".to_vec());
    assert_eq!(extract_anno_from_mda(&file, -1), Ok(b"v1".to_vec()));
}

#[test]
fn written_regions_are_contiguous() {
    let (headers, entries) = Entry::init(b"first annotation");
    let (headers, entries) = Entry::add(b"second annotation", entries, headers).unwrap();
    let first = encode_entry(&entries[0]);
    let second = encode_entry(&entries[1]);
    let mut revlog = Revlog::new(headers, entries);
    let header = Header { record: vec![1, 2, 3] };
    let file = write_data_to_mda(&header, &TrainingData::Image(vec![9; 5]), &mut revlog).unwrap();
    let index = read_info_from_mda(&file).unwrap().0;
    assert_eq!(
        index,
        MDAIndex {
            header_offset: 32,
            train_data_offset: 35,
            anno_headers_offset: 35 + 17,
            anno_entries_offset: 52 + 2 * HEADER_SIZE as u64,
        }
    );
    assert_eq!(file.len(), 52 + 2 * HEADER_SIZE + first.len() + second.len());
    assert_eq!(&file[32..35], &[1, 2, 3]);
    let entries_at = index.anno_entries_offset as usize;
    assert_eq!(&file[entries_at..entries_at + first.len()], &first[..]);
    assert_eq!(&file[entries_at + first.len()..], &second[..]);
    assert_eq!(
        revlog.revlog_index,
        RevlogIndex { headers_offset: 52, entries_offset: 52 + 2 * HEADER_SIZE as u64 }
    );
}

#[test]
fn stored_headers_carry_the_entry_lengths() {
    let (headers, entries) = Entry::init_with_block_size(b"hello", 2);
    assert_eq!(headers[0].length, 5);
    let mut revlog = Revlog::new(headers, entries);
    let file =
        write_data_to_mda(&Header { record: Vec::new() }, &TrainingData::Audio(vec![]), &mut revlog)
            .unwrap();
    assert_eq!(revlog.headers[0].length, 94);
    let read = get_anno_revlog_from_mda(&file, -1).unwrap();
    assert_eq!(read.headers, revlog.headers);
    assert_eq!(read.entries, revlog.entries);
    assert_eq!(read.revlog_index, RevlogIndex { headers_offset: 0, entries_offset: 0 });
    assert_ne!(revlog.revlog_index, read.revlog_index);
    for (header, entry) in read.headers.iter().zip(read.entries.iter()) {
        assert_eq!(header.length as usize, encode_entry(entry).len());
    }
}

#[test]
fn reading_what_was_written_gives_it_back() {
    let (mut headers, mut entries) = Entry::init(b"one");
    for payload in [&b"two"[..], b"three and some more text", b"", b"three and some more"] {
        let grown = Entry::add(payload, entries, headers).unwrap();
        headers = grown.0;
        entries = grown.1;
    }
    let mut revlog = Revlog::new(headers, entries);
    let header = Header { record: b"\x00\x01header".to_vec() };
    let train = TrainingData::Video(vec![7; 33]);
    let file = write_data_to_mda(&header, &train, &mut revlog).unwrap();
    assert_eq!(read_info_from_mda(&file).unwrap().1, header);
    assert_eq!(extract_train_from_mda(&file), Ok(train));
    assert_eq!(
        get_anno_revlog_from_mda(&file, -1),
        Ok(Revlog::new(revlog.headers.clone(), revlog.entries.clone()))
    );
    let partial = get_anno_revlog_from_mda(&file, 2).unwrap();
    assert_eq!(partial.headers, revlog.headers[..3].to_vec());
    assert_eq!(partial.entries, revlog.entries[..3].to_vec());
    assert_eq!(partial.revlog_index, RevlogIndex { headers_offset: 0, entries_offset: 0 });
    assert_eq!(reconstruct(2, &partial.entries), Ok(b"three and some more text".to_vec()));
    let mut again = get_anno_revlog_from_mda(&file, -1).unwrap();
    assert_eq!(update_revlog(&file, &mut again), Ok(file.clone()));
}

#[test]
fn unpaired_log_is_not_written() {
    let (headers, mut entries) = Entry::init(b"one");
    entries.push(Entry { id: 1, index: Vec::new(), blocks: Vec::new() });
    let mut revlog = Revlog::new(headers, entries);
    let before = revlog.clone();
    assert_eq!(
        write_data_to_mda(&Header { record: Vec::new() }, &TrainingData::Audio(vec![]), &mut revlog),
        Err(MdaError::InvariantViolated)
    );
    assert_eq!(revlog, before);
}

#[test]
fn missing_revision_is_reported() {
    let file = generate(TrainingData::Audio(vec![1]), b"anno");
    assert_eq!(extract_anno_from_mda(&file, 1), Err(MdaError::RevisionNotFound));
    assert_eq!(extract_anno_from_mda(&file, -2), Err(MdaError::RevisionNotFound));
    assert_eq!(get_anno_revlog_from_mda(&file, 5).err(), Some(MdaError::RevisionNotFound));
    assert_eq!(extract_data_from_mda(&file, 1), Err(MdaError::RevisionNotFound));
}

#[test]
fn damaged_archives_are_rejected() {
    let file = generate(TrainingData::Text("T".to_string()), b"annotation");
    let index = read_info_from_mda(&file).unwrap().0;

    assert_eq!(
        read_info_from_mda(&file[..20]).err(),
        Some(MdaError::CorruptArchive(CorruptReason::TruncatedIndex))
    );
    assert_eq!(
        extract_anno_from_mda(&file[..file.len() - 1], -1),
        Err(MdaError::CorruptArchive(CorruptReason::BadEntryRegion))
    );
    assert_eq!(
        extract_train_from_mda(&file[..40]),
        Err(MdaError::CorruptArchive(CorruptReason::RegionOutOfRange))
    );

    let mut bad_entry = file.clone();
    let entries_at = index.anno_entries_offset as usize;
    bad_entry[entries_at + 1] = 0xff;
    assert_eq!(
        extract_anno_from_mda(&bad_entry, -1),
        Err(MdaError::CorruptArchive(CorruptReason::BadEntry))
    );

    let mut bad_headers = file.clone();
    bad_headers[24] = bad_headers[24].wrapping_add(1);
    assert_eq!(
        get_anno_revlog_from_mda(&bad_headers, -1).err(),
        Some(MdaError::CorruptArchive(CorruptReason::BadHeaderRegion))
    );

    let mut unknown_kind = file.clone();
    unknown_kind[index.train_data_offset as usize] = 9;
    assert_eq!(extract_train_from_mda(&unknown_kind), Err(MdaError::MediaKindUnknown));
    assert_eq!(extract_data_from_mda(&unknown_kind, -1), Err(MdaError::MediaKindUnknown));
    assert_eq!(extract_anno_from_mda(&unknown_kind, -1), Ok(b"annotation".to_vec()));
    assert_eq!(update_anno_in_mda(&unknown_kind, b"next"), Err(MdaError::MediaKindUnknown));
}

#[test]
fn updating_with_the_latest_annotation_adds_an_empty_revision() {
    let file = generate(TrainingData::Text("T".to_string()), b"the same annotation text");
    let latest = extract_anno_from_mda(&file, -1).unwrap();
    let updated = update_anno_in_mda(&file, &latest).unwrap();
    let revlog = get_anno_revlog_from_mda(&updated, -1).unwrap();
    assert_eq!(revlog.entries.len(), 2);
    assert!(revlog.entries[1].blocks.is_empty());
    assert_eq!(revlog.entries[1].index, revlog.entries[0].index);
    assert_eq!(extract_anno_from_mda(&updated, -1), Ok(latest.clone()));
    assert_eq!(extract_anno_from_mda(&updated, 0), Ok(latest));
}

#[test]
fn archive_without_a_header_record_is_corrupt() {
    let mut revlog = Revlog::new(Vec::new(), Vec::new());
    let file =
        write_data_to_mda(&Header { record: vec![1] }, &TrainingData::Audio(vec![2]), &mut revlog)
            .unwrap();
    let index = read_info_from_mda(&file).unwrap().0;
    assert_eq!(index.anno_headers_offset, index.anno_entries_offset);
    let empty = MdaError::CorruptArchive(CorruptReason::EmptyHeaderRegion);
    assert_eq!(get_anno_revlog_from_mda(&file, -1).err(), Some(empty));
    assert_eq!(get_anno_revlog_from_mda(&file, 0).err(), Some(empty));
    assert_eq!(get_anno_revlog_from_mda(&file, -7).err(), Some(empty));
    assert_eq!(extract_anno_from_mda(&file, -1), Err(empty));
    assert_eq!(extract_data_from_mda(&file, 0), Err(empty));
    assert_eq!(update_anno_in_mda(&file, b"next"), Err(empty));
    assert_eq!(extract_train_from_mda(&file), Ok(TrainingData::Audio(vec![2])));
}
