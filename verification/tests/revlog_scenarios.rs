use mda::block::{split_data_into_blocks, DataBlock};
use mda::error::MdaError;
use mda::hash::{compute_nodeid, NULLID};
use mda::container::archive::{get_anno_revlog_from_mda, update_anno_in_mda, write_data_to_mda};
use mda::container::format::{Header, TrainingData};
use mda::revlog::model::{Entry, Revlog};
use mda::revlog::validate::{entries_well_formed, numbers_ascend, validate_log};
use mda::error::CorruptReason;
use mda::revlog::ops::{get_full_data, reconstruct};
use mda::revlog::pool::{
    add_to_block_list, combine_data_blocks, combine_data_blocks_to_text, extract_index,
    find_different_blocks, find_index_by_id, get_data_blocks_by_index, get_data_blocks_up_to_id,
};
use sha1::{Digest, Sha1};

fn block(number: usize, data: &[u8]) -> DataBlock {
    DataBlock { block_number: number, data: data.to_vec() }
}

fn sha1_of_parts(parts: &[&[u8]]) -> [u8; 20] {
    let mut hasher = Sha1::new();
    for part in parts {
        hasher.update(part);
    }
    hasher.finalize().into()
}

#[test]
fn split_hello_in_twos() {
    let (blocks, numbers) = split_data_into_blocks(b"hello", 2);
    assert_eq!(blocks, vec![block(0, b"he"), block(1, b"ll"), block(2, b"o")]);
    assert_eq!(numbers, vec![0, 1, 2]);
}

#[test]
fn split_empty_buffer() {
    let (blocks, numbers) = split_data_into_blocks(b"", 10);
    assert!(blocks.is_empty());
    assert!(numbers.is_empty());
}

#[test]
fn split_exact_multiple() {
    let (blocks, numbers) = split_data_into_blocks(b"abcdef", 3);
    assert_eq!(blocks, vec![block(0, b"abc"), block(1, b"def")]);
    assert_eq!(numbers, vec![0, 1]);
}

#[test]
fn init_hello_block_size_two() {
    let (headers, entries) = Entry::init_with_block_size(b"hello", 2);
    assert_eq!(entries.len(), 1);
    assert_eq!(entries[0].id, 0);
    assert_eq!(entries[0].index, vec![0, 1, 2]);
    assert_eq!(entries[0].blocks, vec![block(0, b"he"), block(1, b"ll"), block(2, b"o")]);
    assert_eq!(headers.len(), 1);
    assert_eq!(headers[0].rev, 0);
    assert_eq!(headers[0].length, 5);
    assert_eq!(headers[0].linkrev, 0);
    assert_eq!(headers[0].offset, 0);
    assert_eq!(headers[0].baserev, 0);
    assert_eq!(headers[0].p1rev, NULLID);
    assert_eq!(headers[0].p2rev, NULLID);
    assert_eq!(headers[0].nodeid, sha1_of_parts(&[&[0u8; 20], &[0u8; 20], b"hello"]));
}

#[test]
fn init_default_block_size_is_ten() {
    let (_headers, entries) = Entry::init(b"0123456789abc");
    assert_eq!(entries[0].index, vec![0, 1]);
    assert_eq!(entries[0].blocks, vec![block(0, b"0123456789"), block(1, b"abc")]);
}

#[test]
fn init_empty_content() {
    let (headers, entries) = Entry::init(b"");
    assert_eq!(entries.len(), 1);
    assert!(entries[0].index.is_empty());
    assert!(entries[0].blocks.is_empty());
    assert_eq!(headers[0].length, 0);
    assert_eq!(headers[0].nodeid, sha1_of_parts(&[&[0u8; 20], &[0u8; 20], b""]));
    assert_eq!(reconstruct(0, &entries), Ok(Vec::new()));
}

#[test]
fn add_with_partial_overlap() {
    let (headers, entries) = Entry::init_with_block_size(b"hello", 2);
    let (headers, entries) = Entry::add_with_block_size(b"help", entries, headers, 2).unwrap();
    assert_eq!(entries.len(), 2);
    assert_eq!(entries[1].id, 1);
    assert_eq!(entries[1].index, vec![0, 3]);
    assert_eq!(entries[1].blocks, vec![block(3, b"lp")]);
    assert_eq!(headers.len(), 2);
    assert_eq!(headers[1].rev, 1);
    assert_eq!(headers[1].linkrev, 0);
    assert_eq!(headers[1].length, 4);
    assert_eq!(headers[1].p1rev, headers[0].nodeid);
    assert_eq!(headers[1].p2rev, NULLID);
    assert_eq!(headers[1].nodeid, sha1_of_parts(&[&[0u8; 20], &[0u8; 20], b"help"]));
}

#[test]
fn add_identical_content() {
    let (headers, entries) = Entry::init_with_block_size(b"hello", 2);
    let (headers, entries) = Entry::add_with_block_size(b"hello", entries, headers, 2).unwrap();
    assert_eq!(entries[1].id, 1);
    assert_eq!(entries[1].index, vec![0, 1, 2]);
    assert!(entries[1].blocks.is_empty());
    assert_eq!(headers[1].length, 5);
    assert_eq!(headers[1].nodeid, headers[0].nodeid);
}

#[test]
fn reconstruct_latest_and_first() {
    let (headers, entries) = Entry::init_with_block_size(b"hello", 2);
    let (_headers, entries) = Entry::add_with_block_size(b"help", entries, headers, 2).unwrap();
    assert_eq!(reconstruct(-1, &entries), Ok(b"help".to_vec()));
    assert_eq!(reconstruct(0, &entries), Ok(b"hello".to_vec()));
    assert_eq!(reconstruct(1, &entries), Ok(b"help".to_vec()));
    assert_eq!(get_full_data(0, &entries), Ok(b"hello".to_vec()));
    assert_eq!(get_full_data(1, &entries), Ok(b"help".to_vec()));
}

#[test]
fn reconstruct_out_of_range() {
    let (_headers, entries) = Entry::init(b"hello");
    assert_eq!(reconstruct(1, &entries), Err(MdaError::RevisionNotFound));
    assert_eq!(reconstruct(-2, &entries), Err(MdaError::RevisionNotFound));
    assert_eq!(reconstruct(-1, &Vec::new()), Err(MdaError::RevisionNotFound));
    assert_eq!(get_full_data(7, &entries), Err(MdaError::RevisionNotFound));
}

#[test]
fn reconstruct_reports_missing_block() {
    let entries = vec![Entry { id: 0, index: vec![0, 9], blocks: vec![block(0, b"he")] }];
    assert_eq!(reconstruct(0, &entries), Err(MdaError::InvariantViolated));
}

#[test]
fn reconstruct_reports_misplaced_id() {
    let entries = vec![Entry { id: 3, index: vec![], blocks: vec![] }];
    assert_eq!(reconstruct(0, &entries), Err(MdaError::InvariantViolated));
}

#[test]
fn add_to_empty_log_is_rejected() {
    assert_eq!(Entry::add(b"x", Vec::new(), Vec::new()), Err(MdaError::InvariantViolated));
}

#[test]
fn add_without_matching_header_is_rejected() {
    let (_headers, entries) = Entry::init(b"hello");
    assert_eq!(Entry::add(b"x", entries, Vec::new()), Err(MdaError::InvariantViolated));
}

#[test]
fn add_stops_at_the_last_revision_number() {
    let (mut headers, mut entries) = Entry::init(b"0");
    for _ in 0..255 {
        let grown = Entry::add(b"1", entries, headers).unwrap();
        headers = grown.0;
        entries = grown.1;
    }
    assert_eq!(entries.len(), 256);
    assert_eq!(entries[255].id, 255);
    assert_eq!(Entry::add(b"2", entries, headers), Err(MdaError::LimitExceeded));
}

#[test]
fn add_numbers_from_one_after_an_empty_pool() {
    let (headers, entries) = Entry::init_with_block_size(b"", 2);
    let (_headers, entries) = Entry::add_with_block_size(b"abc", entries, headers, 2).unwrap();
    assert_eq!(entries[1].blocks, vec![block(1, b"ab"), block(2, b"c")]);
    assert_eq!(entries[1].index, vec![1, 2]);
    assert_eq!(reconstruct(-1, &entries), Ok(b"abc".to_vec()));
}

#[test]
fn add_aliases_repeated_blocks() {
    let (headers, entries) = Entry::init_with_block_size(b"xy", 2);
    let (_headers, entries) = Entry::add_with_block_size(b"ababxy", entries, headers, 2).unwrap();
    assert_eq!(entries[1].blocks, vec![block(1, b"ab"), block(2, b"ab")]);
    assert_eq!(entries[1].index, vec![1, 1, 0]);
    assert_eq!(reconstruct(1, &entries), Ok(b"ababxy".to_vec()));
}

#[test]
fn third_revision_keeps_the_first_parent_of_the_second() {
    let (headers, entries) = Entry::init(b"one");
    let (headers, entries) = Entry::add(b"two", entries, headers).unwrap();
    let (headers, _entries) = Entry::add(b"three", entries, headers).unwrap();
    assert_eq!(headers[2].linkrev, 1);
    assert_eq!(headers[2].p1rev, headers[1].p1rev);
    assert_eq!(headers[2].p1rev, headers[0].nodeid);
}

#[test]
fn every_revision_rebuilds_to_its_payload() {
    let payloads: Vec<&[u8]> = vec![b"The quick brown fox", b"The quick red fox", b"", b"The quick brown fox jumps"];
    let (mut headers, mut entries) = Entry::init(payloads[0]);
    for payload in &payloads[1..] {
        let grown = Entry::add(payload, entries, headers).unwrap();
        headers = grown.0;
        entries = grown.1;
    }
    assert_eq!(headers.len(), entries.len());
    for (i, payload) in payloads.iter().enumerate() {
        assert_eq!(reconstruct(i as i32, &entries), Ok(payload.to_vec()));
        assert_eq!(headers[i].rev as usize, i);
        assert_eq!(entries[i].id as usize, i);
        assert_eq!(headers[i].nodeid, compute_nodeid(&NULLID, &NULLID, payload));
    }
    for j in 0..entries.len() {
        for i in 0..j {
            for later in &entries[j].blocks {
                for earlier in &entries[i].blocks {
                    assert_ne!(later.data, earlier.data);
                }
            }
        }
    }
}

#[test]
fn adding_the_latest_payload_again_adds_no_blocks() {
    let (headers, entries) = Entry::init(b"some annotation text that spans blocks");
    let (headers, entries) = Entry::add(b"some annotation text that changed", entries, headers).unwrap();
    let latest = reconstruct(-1, &entries).unwrap();
    let before = entries.clone();
    let (headers, entries) = Entry::add(&latest, entries, headers).unwrap();
    assert_eq!(entries.len(), 3);
    assert_eq!(headers.len(), 3);
    assert!(entries[2].blocks.is_empty());
    assert_eq!(entries[2].index, entries[1].index);
    assert_eq!(&entries[..2], &before[..]);
    assert_eq!(reconstruct(-1, &entries), Ok(latest));
}

#[test]
fn nodeid_is_sha1_of_ordered_parents_and_payload() {
    let low = [1u8; 20];
    let mut high = [1u8; 20];
    high[19] = 2;
    let expected = sha1_of_parts(&[&low, &high, b"payload"]);
    assert_eq!(compute_nodeid(&low, &high, b"payload"), expected);
    assert_eq!(compute_nodeid(&high, &low, b"payload"), expected);
}

#[test]
fn nodeid_of_known_input() {
    let mut input = vec![0u8; 40];
    input.extend_from_slice(b"hello");
    let digest: [u8; 20] = Sha1::digest(&input).into();
    assert_eq!(compute_nodeid(&NULLID, &NULLID, b"hello"), digest);
    assert_ne!(&compute_nodeid(&NULLID, &NULLID, b"hello")[..], &input[..20]);
}

#[test]
fn logs_made_by_init_and_add_are_valid() {
    let (headers, entries) = Entry::init(b"first payload of the history");
    assert_eq!(validate_log(&headers, &entries), Ok(()));
    let (headers, entries) = Entry::add(b"second payload of the history", entries, headers).unwrap();
    let (headers, entries) = Entry::add(b"", entries, headers).unwrap();
    let (headers, entries) = Entry::add(b"first payload", entries, headers).unwrap();
    assert!(entries_well_formed(&entries));
    assert_eq!(validate_log(&headers, &entries), Ok(()));
}

#[test]
fn broken_logs_are_reported() {
    let violated = Err(MdaError::InvariantViolated);
    let (headers, entries) = Entry::init_with_block_size(b"hello", 2);
    let (headers, entries) = Entry::add_with_block_size(b"help", entries, headers, 2).unwrap();
    assert_eq!(validate_log(&headers, &entries), Ok(()));
    assert_eq!(validate_log(&Vec::new(), &Vec::new()), violated);
    assert_eq!(validate_log(&headers[..1].to_vec(), &entries), violated);

    let mut wrong_id = entries.clone();
    wrong_id[1].id = 2;
    assert!(!entries_well_formed(&wrong_id));
    assert_eq!(validate_log(&headers, &wrong_id), violated);

    let mut repeated = entries.clone();
    repeated[1].blocks.push(block(4, b"ll"));
    assert!(!entries_well_formed(&repeated));

    let mut descending = entries.clone();
    descending[1].blocks[0].block_number = 1;
    assert!(!entries_well_formed(&descending));
    assert!(!numbers_ascend(&vec![block(0, b"a"), block(0, b"b")]));
    assert!(numbers_ascend(&vec![block(0, b"a"), block(7, b"b")]));
    assert!(numbers_ascend(&Vec::new()));

    let mut dangling = entries.clone();
    dangling[0].index.push(3);
    assert!(!entries_well_formed(&dangling));

    let mut wrong_node = headers.clone();
    wrong_node[1].nodeid[0] ^= 1;
    assert_eq!(validate_log(&wrong_node, &entries), violated);
    let mut wrong_parent = headers.clone();
    wrong_parent[1].p1rev = NULLID;
    assert_eq!(validate_log(&wrong_parent, &entries), violated);
    let mut wrong_link = headers.clone();
    wrong_link[1].linkrev = 1;
    assert_eq!(validate_log(&wrong_link, &entries), violated);
    let mut wrong_rev = headers.clone();
    wrong_rev[0].rev = 1;
    assert_eq!(validate_log(&wrong_rev, &entries), violated);
    let mut wrong_second_parent = headers.clone();
    wrong_second_parent[0].p2rev[3] = 1;
    assert_eq!(validate_log(&wrong_second_parent, &entries), violated);
}

#[test]
fn stored_log_stays_valid() {
    let (headers, entries) = Entry::init(b"v1");
    let mut revlog = Revlog::new(headers, entries);
    let file = write_data_to_mda(&Header { record: Vec::new() }, &TrainingData::Audio(vec![1]), &mut revlog)
        .unwrap();
    let updated = update_anno_in_mda(&file, b"v2 is longer than ten bytes").unwrap();
    let read = get_anno_revlog_from_mda(&updated, -1).unwrap();
    assert_eq!(validate_log(&read.headers, &read.entries), Ok(()));
}

#[test]
fn blocks_join_to_text_across_block_boundaries() {
    let (_headers, entries) = Entry::init_with_block_size("héllo".as_bytes(), 2);
    assert_eq!(entries[0].blocks[0].data, vec![b'h', 0xc3]);
    assert_eq!(combine_data_blocks(&entries[0].blocks), "héllo".as_bytes().to_vec());
    assert_eq!(combine_data_blocks_to_text(&entries[0].blocks), Ok("héllo".to_string()));
    assert_eq!(
        combine_data_blocks_to_text(&entries[0].blocks[..1].to_vec()),
        Err(MdaError::CorruptArchive(CorruptReason::InvalidText))
    );
}

#[test]
fn pool_helpers_on_a_two_revision_log() {
    let (headers, entries) = Entry::init_with_block_size(b"hello", 2);
    let (_headers, entries) = Entry::add_with_block_size(b"help", entries, headers, 2).unwrap();
    assert_eq!(find_index_by_id(1, &entries), Some(vec![0, 3]));
    assert_eq!(find_index_by_id(2, &entries), None);
    let first = get_data_blocks_up_to_id(0, &entries);
    assert_eq!(first, vec![block(0, b"he"), block(1, b"ll"), block(2, b"o")]);
    let all = get_data_blocks_up_to_id(1, &entries);
    assert_eq!(all.len(), 4);
    assert_eq!(all[3], block(3, b"lp"));
    assert_eq!(get_data_blocks_by_index(&vec![3, 0], &all), Ok(vec![block(3, b"lp"), block(0, b"he")]));
    assert_eq!(get_data_blocks_by_index(&vec![3], &first), Err(MdaError::InvariantViolated));
    assert_eq!(find_different_blocks(0, &entries, b"hexxo", 2), vec![block(1, b"xx")]);
    assert_eq!(find_different_blocks(1, &entries, b"helpll", 2), Vec::new());
    let current = vec![block(0, b"lp"), block(1, b"zz"), block(2, b"he")];
    assert_eq!(extract_index(&current, &all), vec![3, 0]);
}

#[test]
fn new_blocks_are_numbered_after_the_last() {
    let list = vec![block(4, b"a"), block(9, b"b")];
    let (grown, numbers) = add_to_block_list(list, &vec![block(0, b"c"), block(1, b"d")]).unwrap();
    assert_eq!(numbers, vec![10, 11]);
    assert_eq!(grown, vec![block(4, b"a"), block(9, b"b"), block(10, b"c"), block(11, b"d")]);
    let (grown, numbers) = add_to_block_list(Vec::new(), &vec![block(7, b"x")]).unwrap();
    assert_eq!(numbers, vec![1]);
    assert_eq!(grown, vec![block(1, b"x")]);
    let full = vec![block(usize::MAX, b"a")];
    assert_eq!(add_to_block_list(full, &vec![block(0, b"c")]), Err(MdaError::LimitExceeded));
}
