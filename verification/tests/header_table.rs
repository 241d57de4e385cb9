use mda::container::archive::write_data_to_mda;
use mda::container::format::{Header, TrainingData};
use mda::error::{CorruptReason, MdaError};
use mda::revlog::model::{Entry, Revlog, RevlogHeader};
use mda::table::{hex_digit, nodeid_to_short_hex, print_revlog_headers, read_anno_from_mda};
use mda::text::string_of;

fn expected_line(header: &RevlogHeader, latest: bool) -> String {
    let short = |id: &[u8; 20]| id.iter().take(6).map(|b| format!("{:02x}", b)).collect::<String>();
    let mut rev = header.rev.to_string();
    if latest {
        rev.push('*');
    }
    format!(
        "{:<6} {:<8} {:<7} {:<6} {:<7} {:<12} {:<12} {:<40}",
        rev,
        header.offset,
        header.length,
        header.baserev,
        header.linkrev,
        short(&header.nodeid),
        short(&header.p1rev),
        short(&header.p2rev),
    )
}

fn title_line() -> String {
    format!(
        "{:<6} {:<8} {:<7} {:<6} {:<7} {:<12} {:<12} {:<40}",
        "rev", "offset", "length", "delta", "linkrev", "nodeid", "p1", "p2"
    )
}

#[test]
fn short_hex_of_a_node_id() {
    let mut id = [0u8; 20];
    id[0] = 0x00;
    id[1] = 0x0f;
    id[2] = 0xa0;
    id[3] = 0xff;
    id[4] = 0x5c;
    id[5] = 0x10;
    id[6] = 0x99;
    assert_eq!(nodeid_to_short_hex(&id), "000fa0ff5c10");
}

#[test]
fn hex_digits_are_lower_case() {
    let digits: String = (0u8..16).map(hex_digit).collect();
    assert_eq!(digits, "0123456789abcdef");
}

#[test]
fn table_of_no_headers_is_the_title() {
    let lines = print_revlog_headers(&Vec::new());
    assert_eq!(lines, vec![title_line()]);
    assert_eq!(
        lines[0],
        "rev    offset   length  delta  linkrev nodeid       p1           p2                                      "
    );
}

#[test]
fn table_marks_the_latest_revision() {
    let (headers, entries) = Entry::init(b"one");
    let (headers, entries) = Entry::add(b"two", entries, headers).unwrap();
    let (headers, _entries) = Entry::add(b"three", entries, headers).unwrap();
    let lines = print_revlog_headers(&headers);
    assert_eq!(lines.len(), 4);
    assert_eq!(lines[0], title_line());
    assert_eq!(lines[1], expected_line(&headers[0], false));
    assert_eq!(lines[2], expected_line(&headers[1], false));
    assert_eq!(lines[3], expected_line(&headers[2], true));
    assert!(lines[1].starts_with("0      0        3       0      0       "));
    assert!(lines[3].starts_with("2*     0        5       0      1       "));
}

#[test]
fn table_renders_wide_and_negative_numbers() {
    let header = RevlogHeader {
        rev: 255,
        offset: u64::MAX,
        length: u32::MAX,
        baserev: i32::MIN,
        linkrev: -1,
        p1rev: [0xab; 20],
        p2rev: [0; 20],
        nodeid: [0x01; 20],
    };
    let lines = print_revlog_headers(&vec![header]);
    assert_eq!(lines[1], expected_line(&header, true));
    assert!(lines[1].starts_with("255*   18446744073709551615 4294967295 -2147483648 -1      010101010101 abababababab 000000000000"));
}

#[test]
fn table_of_an_archive() {
    let (headers, entries) = Entry::init(b"v1");
    let (headers, entries) = Entry::add(b"v2", entries, headers).unwrap();
    let mut revlog = Revlog::new(headers, entries);
    let file =
        write_data_to_mda(&Header { record: Vec::new() }, &TrainingData::Text("T".into()), &mut revlog)
            .unwrap();
    let all = read_anno_from_mda(&file, -1).unwrap();
    assert_eq!(all, print_revlog_headers(&revlog.headers));
    assert_eq!(all.len(), 3);
    let first = read_anno_from_mda(&file, 0).unwrap();
    assert_eq!(first, vec![title_line(), expected_line(&revlog.headers[0], true)]);
    assert_eq!(read_anno_from_mda(&file, 2), Err(MdaError::RevisionNotFound));
}

#[test]
fn string_of_characters() {
    assert_eq!(string_of(&vec!['h', 'é', '*']), "hé*");
    assert_eq!(string_of(&Vec::new()), "");
}

#[test]
fn table_of_an_archive_without_a_header_record() {
    let mut revlog = Revlog::new(Vec::new(), Vec::new());
    let file =
        write_data_to_mda(&Header { record: Vec::new() }, &TrainingData::Text("T".into()), &mut revlog)
            .unwrap();
    assert_eq!(
        read_anno_from_mda(&file, -1),
        Err(MdaError::CorruptArchive(CorruptReason::EmptyHeaderRegion))
    );
}
