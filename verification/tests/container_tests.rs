use renamelayer::bytes::{push_be_u64, read_be_u64};
use renamelayer::container::{concat_sql, extract_store, layout, render, save_sql_only, Part};
use renamelayer::error::ClipError;
use renamelayer::scan::{find_pattern, find_sqlite, pattern_at, Scanner};

const FOOT: [u8; 16] = [0x43, 0x48, 0x4E, 0x4B, 0x46, 0x6F, 0x6F, 0x74, 0, 0, 0, 0, 0, 0, 0, 0];

fn store(extra: usize) -> Vec<u8> {
    let mut s: Vec<u8> = b"SQLite format 3\0".to_vec();
    for i in 0..extra {
        s.push((i % 251) as u8);
    }
    s
}

fn container(prefix: &[u8], payload: &[u8]) -> Vec<u8> {
    let mut c: Vec<u8> = prefix.to_vec();
    c.extend_from_slice(b"CHNKSQLi");
    c.extend_from_slice(&(payload.len() as u64).to_be_bytes());
    c.extend_from_slice(payload);
    c.extend_from_slice(&FOOT);
    c
}

fn scan_in_blocks(data: &[u8], block: usize) -> Option<(u64, usize)> {
    let mut s = Scanner::new();
    let mut last = None;
    for chunk in data.chunks(block) {
        last = s.feed(chunk);
    }
    assert_eq!(last, s.result());
    s.result()
}

#[test]
fn big_endian_bytes_are_written_and_read() {
    let mut out: Vec<u8> = vec![9];
    push_be_u64(&mut out, 0x0102_0304_0506_0708);
    assert_eq!(out, vec![9, 1, 2, 3, 4, 5, 6, 7, 8]);
    assert_eq!(read_be_u64(&out, 1), 0x0102_0304_0506_0708);
    let mut z: Vec<u8> = Vec::new();
    push_be_u64(&mut z, 0);
    assert_eq!(z, vec![0u8; 8]);
    let mut m: Vec<u8> = Vec::new();
    push_be_u64(&mut m, u64::MAX);
    assert_eq!(m, vec![0xffu8; 8]);
    assert_eq!(read_be_u64(&m, 0), u64::MAX);
    assert_eq!(read_be_u64(&300u64.to_be_bytes(), 0), 300);
}

#[test]
fn find_sqlite_reports_length_and_offset() {
    let payload = store(100);
    let c = container(b"CSFCHUNK-some-leading-bytes", &payload);
    assert_eq!(find_sqlite(&c), Some((116, 27 + 16)));
    assert_eq!(find_pattern(&c), Some(27));
    assert!(pattern_at(&c, 27));
    assert!(!pattern_at(&c, 26));
}

#[test]
fn find_sqlite_at_offset_zero() {
    let c = container(b"", &store(0));
    assert_eq!(find_sqlite(&c), Some((16, 16)));
}

#[test]
fn find_sqlite_takes_the_first_of_two() {
    let first = container(b"ab", &store(3));
    let c = container(&first, &store(7));
    assert_eq!(find_sqlite(&c), Some((19, 18)));
}

#[test]
fn missing_signature_is_not_found() {
    assert_eq!(find_sqlite(b""), None);
    assert_eq!(find_sqlite(b"CHNKSQLi"), None);
    let mut c = container(b"xyz", &store(10));
    c[3] = b'c';
    assert_eq!(find_sqlite(&c), None);
    let mut d = container(b"xyz", &store(10));
    d[3 + 16 + 15] = 1;
    assert_eq!(find_sqlite(&d), None);
    assert_eq!(extract_store(&d), Err(ClipError::NotClipFile));
    assert_eq!(scan_in_blocks(&d, 7), None);
}

#[test]
fn signature_cut_before_the_header_ends_is_not_found() {
    let c = container(b"xyz", &store(0));
    assert_eq!(find_sqlite(&c[..3 + 31]), None);
    assert_eq!(find_sqlite(&c[..3 + 32]), Some((16, 19)));
}

#[test]
fn scanner_agrees_with_whole_search_for_every_block_size() {
    let mut prefix: Vec<u8> = Vec::new();
    for i in 0..1500usize {
        prefix.push((i * 7 % 256) as u8);
    }
    prefix.extend_from_slice(b"CHNKSQLiCHNKSQ");
    let c = container(&prefix, &store(64));
    let whole = find_sqlite(&c);
    assert_eq!(whole, Some((80, 1514 + 16)));
    for block in 1..80usize {
        assert_eq!(scan_in_blocks(&c, block), whole);
    }
    assert_eq!(scan_in_blocks(&c, 1024), whole);
    assert_eq!(scan_in_blocks(&c, 4096), whole);
}

#[test]
fn scanner_finds_a_pattern_across_two_blocks() {
    let c = container(&[0u8; 1000], &store(40));
    let mut s = Scanner::new();
    assert_eq!(s.result(), None);
    assert_eq!(s.feed(&c[..1010]), None);
    assert_eq!(s.feed(&c[1010..1031]), None);
    assert_eq!(s.feed(&c[1031..1032]), Some((56, 1016)));
    assert_eq!(s.feed(&c[1032..]), Some((56, 1016)));
    assert_eq!(s.result(), Some((56, 1016)));
}

#[test]
fn scanner_of_nothing_finds_nothing() {
    let mut s = Scanner::new();
    assert_eq!(s.feed(b""), None);
    assert_eq!(s.feed(b"short"), None);
    assert_eq!(s.result(), None);
}

#[test]
fn save_sql_only_copies_the_range() {
    let payload = store(50);
    let c = container(b"prefix", &payload);
    assert_eq!(save_sql_only(&c, 66, 22), Ok(payload.clone()));
    assert_eq!(save_sql_only(&c, 0, 22), Ok(Vec::new()));
    assert_eq!(save_sql_only(&c, 0, c.len()), Ok(Vec::new()));
    assert_eq!(save_sql_only(&c, 3, 1), Ok(b"ref".to_vec()));
}

#[test]
fn save_sql_only_refuses_a_range_past_the_end() {
    let c = container(b"prefix", &store(50));
    assert_eq!(save_sql_only(&c, (c.len() - 22 + 1) as u64, 22), Err(ClipError::FileReadError));
    assert_eq!(save_sql_only(&c, 1, c.len()), Err(ClipError::FileReadError));
    assert_eq!(save_sql_only(&c, 0, c.len() + 1), Err(ClipError::FileReadError));
    assert_eq!(save_sql_only(&c, u64::MAX, 5), Err(ClipError::FileReadError));
}

#[test]
fn extract_store_finds_and_cuts() {
    let payload = store(33);
    let c = container(b"0123456789", &payload);
    assert_eq!(extract_store(&c), Ok((payload, 26)));
}

#[test]
fn extract_store_refuses_a_store_cut_short() {
    let c = container(b"0123456789", &store(33));
    assert_eq!(extract_store(&c[..c.len() - 17]), Err(ClipError::FileReadError));
    assert_eq!(extract_store(&c[..c.len() - 16]).map(|r| r.1), Ok(26));
}

#[test]
fn concat_sql_of_the_same_store_gives_the_same_container() {
    let payload = store(77);
    let c = container(b"leading bytes of the container", &payload);
    let (sql, index) = extract_store(&c).unwrap();
    assert_eq!(concat_sql(&c, &sql, index), Ok(c.clone()));
}

#[test]
fn concat_sql_patches_the_length_field() {
    let c = container(b"head", &store(10));
    let new_store = store(300);
    let out = concat_sql(&c, &new_store, 20).unwrap();
    assert_eq!(&out[..12], &c[..12]);
    assert_eq!(&out[12..20], &316u64.to_be_bytes());
    assert_eq!(&out[20..336], &new_store[..]);
    assert_eq!(&out[336..], &FOOT);
    assert_eq!(out.len(), 352);
    assert_eq!(find_sqlite(&out), Some((316, 20)));
}

#[test]
fn concat_sql_with_an_empty_store() {
    let c = container(b"head", &store(10));
    let out = concat_sql(&c, &[], 20).unwrap();
    let mut expected: Vec<u8> = c[..12].to_vec();
    expected.extend_from_slice(&[0u8; 8]);
    expected.extend_from_slice(&FOOT);
    assert_eq!(out, expected);
}

#[test]
fn concat_sql_refuses_an_offset_outside_the_container() {
    let c = container(b"head", &store(10));
    assert_eq!(concat_sql(&c, &store(1), 7), Err(ClipError::FileReadError));
    assert_eq!(concat_sql(&c, &store(1), 0), Err(ClipError::FileReadError));
    assert_eq!(concat_sql(&c, &store(1), c.len() + 9), Err(ClipError::FileReadError));
    assert!(concat_sql(&c, &store(1), c.len() + 8).is_ok());
    assert!(concat_sql(&c, &store(1), 8).is_ok());
}

#[test]
fn every_error_has_its_message() {
    assert_eq!(ClipError::FileOpenError.message(), "file open failed");
    assert_eq!(ClipError::TmpDirError.message(), "tempolary directory create failed");
    assert_eq!(ClipError::FileSaveError.message(), "file save failed");
    assert_eq!(ClipError::CreateDirectoryError.message(), "create directories failed");
    assert_eq!(ClipError::FileReadError.message(), "file read failed");
    assert_eq!(ClipError::SQLError.message(), "SQLite data base operation error");
    assert_eq!(
        ClipError::UnknownFileStruct.message(),
        "Fail to analyze layer.May be unsupported version."
    );
    assert_eq!(ClipError::IOError.message(), "unknonw file io error occured");
    assert_eq!(ClipError::NotClipFile.message(), "not a clip studio file format.");
}

#[test]
fn layout_names_the_four_parts() {
    let parts = layout(20, 316).unwrap();
    assert_eq!(
        parts,
        vec![
            Part::SourcePrefix(12),
            Part::Bytes(vec![0, 0, 0, 0, 0, 0, 1, 60]),
            Part::Store,
            Part::Bytes(FOOT.to_vec()),
        ]
    );
    assert_eq!(layout(8, 0).unwrap()[0], Part::SourcePrefix(0));
    assert_eq!(layout(8, 0).unwrap()[1], Part::Bytes(vec![0; 8]));
    assert_eq!(layout(7, 0), Err(ClipError::FileReadError));
    assert_eq!(layout(0, 5), Err(ClipError::FileReadError));
}

#[test]
fn render_copies_the_parts_in_order() {
    let parts = vec![Part::Store, Part::SourcePrefix(2), Part::Bytes(vec![7, 7]), Part::Store];
    assert_eq!(render(&parts, b"abc", b"xy"), b"xyab\x07\x07xy".to_vec());
    assert_eq!(render(&Vec::new(), b"abc", b"xy"), Vec::<u8>::new());
    let c = container(b"head", &store(10));
    let sql = store(5);
    assert_eq!(Ok(render(&layout(20, 21).unwrap(), &c, &sql)), concat_sql(&c, &sql, 20));
}
