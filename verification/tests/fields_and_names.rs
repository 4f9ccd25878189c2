use peekaboo::digits::{format_decimal, parse_decimal, pow10_u64};
use peekaboo::mime::{get_mime_type, split_extension};
use peekaboo::naming::collision_free_name;

#[test]
fn decimal_fields_are_zero_padded() {
    assert_eq!(format_decimal(5, 3), b"005".to_vec());
    assert_eq!(format_decimal(0, 3), b"000".to_vec());
    assert_eq!(format_decimal(999, 3), b"999".to_vec());
    assert_eq!(format_decimal(50, 10), b"0000000050".to_vec());
}

#[test]
fn decimal_field_wider_than_configured_grows() {
    // A value that does not fit the width is written at its natural
    // length, as the embed path does.
    assert_eq!(format_decimal(12345, 3), b"12345".to_vec());
}

#[test]
fn decimal_parsing_round_trips() {
    assert_eq!(parse_decimal(b"005"), Some(5));
    assert_eq!(parse_decimal(b"0000000050"), Some(50));
    assert_eq!(parse_decimal(b"999"), Some(999));
    for v in [0u64, 1, 9, 10, 123, 9999] {
        let field = format_decimal(v, 4);
        assert_eq!(parse_decimal(field.as_slice()), Some(v));
    }
}

#[test]
fn malformed_decimal_fields_are_rejected() {
    assert_eq!(parse_decimal(b""), None);
    assert_eq!(parse_decimal(b"12a"), None);
    assert_eq!(parse_decimal(b" 12"), None);
    assert_eq!(parse_decimal(b"-12"), None);
}

#[test]
fn powers_of_ten() {
    assert_eq!(pow10_u64(0), 1);
    assert_eq!(pow10_u64(3), 1000);
    assert_eq!(pow10_u64(10), 10_000_000_000);
}

#[test]
fn mime_types_follow_the_extension() {
    assert_eq!(get_mime_type("txt"), "text/plain");
    assert_eq!(get_mime_type("html"), "text/html");
    assert_eq!(get_mime_type("jpg"), "image/jpeg");
    assert_eq!(get_mime_type("jpeg"), "image/jpeg");
    assert_eq!(get_mime_type("png"), "image/png");
    assert_eq!(get_mime_type("gif"), "image/gif");
    assert_eq!(get_mime_type("mp3"), "audio/mpeg");
    assert_eq!(get_mime_type("mp4"), "video/mp4");
    assert_eq!(get_mime_type("pdf"), "application/pdf");
    assert_eq!(get_mime_type("gz"), "application/x-tar");
    assert_eq!(get_mime_type("exe"), "application/octet-stream");
    assert_eq!(get_mime_type(""), "application/octet-stream");
}

#[test]
fn extensions_split_at_the_last_dot() {
    let (base, ext) = split_extension(&b"archive.tar.gz".to_vec());
    assert_eq!(base, b"archive.tar".to_vec());
    assert_eq!(ext, b"gz".to_vec());
    let (base2, ext2) = split_extension(&b"noext".to_vec());
    assert_eq!(base2, b"noext".to_vec());
    assert_eq!(ext2, Vec::<u8>::new());
}

#[test]
fn collision_keeps_a_free_name() {
    let taken: Vec<Vec<u8>> = vec![b"other.txt".to_vec()];
    let name = collision_free_name(&b"a.txt".to_vec(), &taken);
    assert_eq!(name, b"a.txt".to_vec());
}

#[test]
fn collision_suffixes_the_second_extraction() {
    // Extracting the same file name twice: the second lands beside the
    // first under a -001 suffix before the extension.
    let taken: Vec<Vec<u8>> = vec![b"a.txt".to_vec()];
    let name = collision_free_name(&b"a.txt".to_vec(), &taken);
    assert_eq!(name, b"a-001.txt".to_vec());
}

#[test]
fn collision_probes_successive_suffixes() {
    let taken: Vec<Vec<u8>> = vec![
        b"a.txt".to_vec(),
        b"a-001.txt".to_vec(),
        b"a-002.txt".to_vec(),
    ];
    let name = collision_free_name(&b"a.txt".to_vec(), &taken);
    assert_eq!(name, b"a-003.txt".to_vec());
}

#[test]
fn collision_suffix_without_extension() {
    let taken: Vec<Vec<u8>> = vec![b"report".to_vec()];
    let name = collision_free_name(&b"report".to_vec(), &taken);
    assert_eq!(name, b"report-001".to_vec());
}
