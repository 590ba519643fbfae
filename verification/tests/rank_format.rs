use bigfolders::FileEntry;
use bigfolders::format::format_size;
use bigfolders::rank::rerank;
use bigfolders::session::parse_usize;

fn entry(file: &str, size: u64) -> FileEntry {
    FileEntry { file: file.to_string(), size, accessed: None }
}

#[test]
fn rerank_sorts_descending() {
    let mut v = vec![entry("a", 3), entry("b", 100), entry("c", 7), entry("d", 0)];
    rerank(&mut v);
    let sizes: Vec<u64> = v.iter().map(|e| e.size).collect();
    assert_eq!(sizes, vec![100, 7, 3, 0]);
    let names: Vec<&str> = v.iter().map(|e| e.file.as_str()).collect();
    assert_eq!(names, vec!["b", "c", "a", "d"]);
}

#[test]
fn rerank_is_idempotent_on_sorted_input() {
    let mut v = vec![entry("big", 500), entry("mid", 500), entry("small", 1)];
    rerank(&mut v);
    let names_first: Vec<String> = v.iter().map(|e| e.file.clone()).collect();
    let sizes_first: Vec<u64> = v.iter().map(|e| e.size).collect();
    rerank(&mut v);
    let names_second: Vec<String> = v.iter().map(|e| e.file.clone()).collect();
    let sizes_second: Vec<u64> = v.iter().map(|e| e.size).collect();
    assert_eq!(names_first, names_second);
    assert_eq!(sizes_first, sizes_second);
}

#[test]
fn rerank_empty_and_single() {
    let mut empty: Vec<FileEntry> = Vec::new();
    rerank(&mut empty);
    assert!(empty.is_empty());
    let mut one = vec![entry("x", 9)];
    rerank(&mut one);
    assert_eq!(one.len(), 1);
    assert_eq!(one[0].file, "x");
}

#[test]
fn format_size_exact_values() {
    assert_eq!(format_size(0), "0.0 B");
    assert_eq!(format_size(1), "1.0 B");
    assert_eq!(format_size(1023), "1023.0 B");
    assert_eq!(format_size(1024), "1.0 KB");
    assert_eq!(format_size(1536), "1.5 KB");
    assert_eq!(format_size(1048576), "1.0 MB");
    assert_eq!(format_size(104857600), "100.0 MB");
    assert_eq!(format_size(1073741824), "1.0 GB");
    assert_eq!(format_size(1099511627776), "1.0 TB");
}

#[test]
fn format_size_rounds_ties_to_even() {
    // 1280 bytes is exactly 12.5 tenths of a KB: the tie keeps the even 12
    assert_eq!(format_size(1280), "1.2 KB");
    // 1792 bytes is exactly 17.5 tenths of a KB: the tie goes to the even 18
    assert_eq!(format_size(1792), "1.8 KB");
    // 1408 bytes is 13.75 tenths of a KB: an ordinary round up to 14
    assert_eq!(format_size(1408), "1.4 KB");
}

#[test]
fn format_size_largest_value() {
    assert_eq!(format_size(u64::MAX), "16777216.0 TB");
}

#[test]
fn parse_usize_accepts_plain_and_plus() {
    assert_eq!(parse_usize("0"), Some(0));
    assert_eq!(parse_usize("123"), Some(123));
    assert_eq!(parse_usize("+7"), Some(7));
}

#[test]
fn parse_usize_rejects_malformed_input() {
    assert_eq!(parse_usize(""), None);
    assert_eq!(parse_usize("+"), None);
    assert_eq!(parse_usize("12a"), None);
    assert_eq!(parse_usize("-3"), None);
    assert_eq!(parse_usize(" 5"), None);
    assert_eq!(parse_usize("99999999999999999999999999"), None);
}
