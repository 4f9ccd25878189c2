use peekaboo::settings::Settings;
use peekaboo::steg::{FilePayload, Steganography, SteganographyError};

fn test_settings() -> Settings {
    Settings {
        program_name: String::from("peekaboo"),
        program_ver: String::from("0.1"),
        program_devs: Vec::new(),
        program_web: String::new(),
        prog_code: b"PICCODER".to_vec(),
        byte_chunk: 16,
        secret_folder: String::from("secrets"),
        thumb_folder: String::from("thumbs"),
        num_files_chars: 3,
        len_filename_chars: 3,
        file_len_chars: 10,
        pw_protected_chars: 1,
        pw_chars: 32,
    }
}

fn rgb_image(w: u32, h: u32) -> Vec<u8> {
    vec![0u8; (w * h * 3) as usize]
}

fn payload(name: &[u8], contents: Vec<u8>) -> FilePayload {
    FilePayload { file_name: name.to_vec(), contents }
}

/// Embeds into a loaded session and reloads the resulting image into a
/// fresh session, as the save/upload cycle does.
fn reload(steg: &mut Steganography) {
    let w = steg.pic_width;
    let h = steg.pic_height;
    let planes = steg.pic_col_planes;
    let data = steg.image.take().unwrap();
    steg.load_new_file(w, h, planes, data);
}

#[test]
fn concrete_capacity_and_overhead() {
    // A 100 x 100 three-plane image holds 30,000 raw bytes; the signature,
    // flag, hash and count fields reserve 44, leaving 29,956.
    let mut steg = Steganography::init(test_settings());
    steg.load_new_file(100, 100, 3, rgb_image(100, 100));
    assert_eq!(steg.embed_capacity, 29_956);
    assert_eq!(steg.overhead_per_file, 3 + 1000 + 10);
    assert!(!steg.pic_coded);
    assert!(!steg.pic_has_pw);
}

#[test]
fn concrete_round_trip_single_file() {
    let mut steg = Steganography::init(test_settings());
    steg.load_new_file(100, 100, 3, rgb_image(100, 100));
    let files = vec![payload(b"a.txt", vec![7u8; 50])];
    // Overhead 1013 plus 50 data bytes fits far under 29,956.
    assert!(steg.embed_files(false, "", &files).is_ok());
    reload(&mut steg);
    assert!(steg.pic_coded);
    assert!(!steg.pic_has_pw);
    let out = steg.extract_data(String::new()).unwrap();
    assert_eq!(out.len(), 1);
    assert_eq!(out[0].file_name, b"a.txt".to_vec());
    assert_eq!(out[0].contents, vec![7u8; 50]);
    assert_eq!(steg.embedded_files.len(), 1);
    assert_eq!(steg.embedded_files[0].file_name, "a.txt");
    assert_eq!(steg.embedded_files[0].file_type, "text/plain");
    assert!(steg.embedded_files[0].file_extracted);
    assert!(!steg.embedded_files[0].file_coded);
}

#[test]
fn round_trip_multiple_files_keeps_order_and_bytes() {
    let mut steg = Steganography::init(test_settings());
    steg.load_new_file(64, 64, 3, rgb_image(64, 64));
    let files = vec![
        payload(b"first.bin", (0u8..=255).collect()),
        payload(b"second.txt", b"hello steganography".to_vec()),
        payload(b"third", vec![0u8; 100]),
    ];
    assert!(steg.embed_files(false, "", &files).is_ok());
    reload(&mut steg);
    let out = steg.extract_data(String::new()).unwrap();
    assert_eq!(out.len(), 3);
    assert_eq!(out[0].file_name, b"first.bin".to_vec());
    assert_eq!(out[0].contents, (0u8..=255).collect::<Vec<u8>>());
    assert_eq!(out[1].file_name, b"second.txt".to_vec());
    assert_eq!(out[1].contents, b"hello steganography".to_vec());
    assert_eq!(out[2].file_name, b"third".to_vec());
    assert_eq!(out[2].contents, vec![0u8; 100]);
    assert_eq!(steg.embedded_files[0].file_type, "application/octet-stream");
    assert_eq!(steg.embedded_files[1].file_type, "text/plain");
    assert_eq!(steg.embedded_files[2].file_type, "application/octet-stream");
}

#[test]
fn round_trip_with_password() {
    let mut steg = Steganography::init(test_settings());
    steg.load_new_file(64, 64, 3, rgb_image(64, 64));
    let files = vec![payload(b"secret.txt", b"attack at dawn".to_vec())];
    assert!(steg.embed_files(true, "hunter2", &files).is_ok());
    reload(&mut steg);
    assert!(steg.pic_coded);
    assert!(steg.pic_has_pw);
    let out = steg.extract_data(String::from("hunter2")).unwrap();
    assert_eq!(out.len(), 1);
    assert_eq!(out[0].contents, b"attack at dawn".to_vec());
}

#[test]
fn wrong_password_then_right_password() {
    let mut steg = Steganography::init(test_settings());
    steg.load_new_file(64, 64, 3, rgb_image(64, 64));
    let files = vec![payload(b"s.bin", vec![42u8; 10])];
    assert!(steg.embed_files(true, "correct", &files).is_ok());
    reload(&mut steg);
    // The wrong password is rejected and nothing is produced.
    let err = steg.extract_data(String::from("wrong")).unwrap_err();
    assert_eq!(err, SteganographyError::IncorrectPassword);
    assert!(steg.embedded_files.is_empty());
    assert!(steg.retry_extract);
    // A second wrong attempt still fails.
    let err2 = steg.extract_data(String::from("also wrong")).unwrap_err();
    assert_eq!(err2, SteganographyError::IncorrectPassword);
    // The retry with the correct password succeeds on the same session.
    let out = steg.extract_data(String::from("correct")).unwrap();
    assert_eq!(out.len(), 1);
    assert_eq!(out[0].contents, vec![42u8; 10]);
    assert!(!steg.retry_extract);
}

#[test]
fn detection_is_idempotent() {
    let mut steg = Steganography::init(test_settings());
    steg.load_new_file(64, 64, 3, rgb_image(64, 64));
    let files = vec![payload(b"x", vec![1u8, 2, 3])];
    assert!(steg.embed_files(true, "pw", &files).is_ok());
    reload(&mut steg);
    let coded1 = steg.pic_coded;
    let pw1 = steg.pic_has_pw;
    // Run detection again on the same loaded image.
    steg.check_for_code();
    let coded2 = steg.pic_coded;
    if coded2 {
        steg.check_for_password();
    }
    let pw2 = steg.pic_has_pw;
    assert_eq!(coded1, coded2);
    assert_eq!(pw1, pw2);
    assert!(coded1 && pw1);
}

#[test]
fn zero_capacity_is_not_coded() {
    // One pixel of three samples cannot hold the 44 reserved bytes.
    let mut steg = Steganography::init(test_settings());
    steg.load_new_file(1, 1, 3, rgb_image(1, 1));
    assert_eq!(steg.embed_capacity, 0);
    assert!(!steg.pic_coded);
    // Exactly zero net capacity: 11 four-plane pixels give 44 raw bytes,
    // matching the 44 reserved ones.
    let mut steg2 = Steganography::init(test_settings());
    steg2.load_new_file(11, 1, 4, vec![0u8; 44]);
    assert_eq!(steg2.embed_capacity, 0);
    assert!(!steg2.pic_coded);
}

#[test]
fn capacity_exceeded_is_reported_before_writing() {
    let mut steg = Steganography::init(test_settings());
    steg.load_new_file(4, 4, 3, rgb_image(4, 4));
    // Raw 48 bytes less 44 reserved leaves 4; offer 5.
    assert_eq!(steg.embed_capacity, 4);
    let before = steg.image.clone().unwrap();
    let files = vec![payload(b"big", vec![9u8; 5])];
    let err = steg.embed_files(false, "", &files).unwrap_err();
    assert_eq!(err, SteganographyError::CapacityExceeded);
    // Nothing was written.
    assert_eq!(steg.image.clone().unwrap(), before);
}

#[test]
fn container_that_cannot_fit_fails_cleanly() {
    // Four-plane images claim capacity over all four planes, but payload
    // bits live in three: a container can pass the capacity check and
    // still not fit the stream.
    let mut steg = Steganography::init(test_settings());
    steg.load_new_file(12, 1, 4, vec![0u8; 48]);
    assert_eq!(steg.embed_capacity, 4);
    // Payload of 4 bytes passes the capacity check, but the container
    // (12 header + 3 + 8 + 10 + 4 = 37 bytes) exceeds the 36-byte stream.
    let files = vec![payload(b"abcdefgh", vec![1u8; 4])];
    let err = steg.embed_files(false, "", &files).unwrap_err();
    assert_eq!(err, SteganographyError::FieldLengthMismatch);
}

#[test]
fn cursor_write_then_read_returns_same_bytes() {
    let mut steg = Steganography::init(test_settings());
    steg.load_new_file(16, 16, 3, rgb_image(16, 16));
    steg.init_embed_params();
    let written = steg.write_data_to_image(b"steganographic payload");
    assert_eq!(written, 22);
    // Re-seek to the pre-write position and read the same count back.
    steg.init_embed_params();
    steg.read_data_from_image(22);
    assert_eq!(steg.bytes_read, 22);
    assert_eq!(steg.code_bytes, b"steganographic payload".to_vec());
}

#[test]
fn chunked_reads_resume_where_the_last_stopped() {
    let mut steg = Steganography::init(test_settings());
    steg.load_new_file(16, 16, 3, rgb_image(16, 16));
    steg.init_embed_params();
    steg.write_data_to_image(b"0123456789");
    steg.init_embed_params();
    steg.read_data_from_image(4);
    assert_eq!(steg.code_bytes, b"0123".to_vec());
    steg.read_data_from_image(6);
    assert_eq!(steg.code_bytes, b"456789".to_vec());
}

#[test]
fn rgba_round_trip_normalizes_alpha() {
    let mut steg = Steganography::init(test_settings());
    // Alpha starts at 0 everywhere; the embed path must set it opaque on
    // every pixel it touches and never store payload bits in it.
    steg.load_new_file(32, 32, 4, vec![0u8; 32 * 32 * 4]);
    let files = vec![payload(b"n.bin", vec![0xA5u8; 16])];
    assert!(steg.embed_files(false, "", &files).is_ok());
    let grid = steg.image.clone().unwrap();
    // The very first pixel carried a payload bit, so its alpha is opaque.
    assert_eq!(grid[3], 255);
    reload(&mut steg);
    let out = steg.extract_data(String::new()).unwrap();
    assert_eq!(out[0].contents, vec![0xA5u8; 16]);
}

#[test]
fn embed_overwrites_previous_container() {
    let mut steg = Steganography::init(test_settings());
    steg.load_new_file(64, 64, 3, rgb_image(64, 64));
    let first = vec![payload(b"old.txt", b"old contents".to_vec())];
    assert!(steg.embed_files(false, "", &first).is_ok());
    // Embedding again replaces the previous container wholesale.
    let second = vec![payload(b"new.txt", b"new contents".to_vec())];
    assert!(steg.embed_files(false, "", &second).is_ok());
    reload(&mut steg);
    let out = steg.extract_data(String::new()).unwrap();
    assert_eq!(out.len(), 1);
    assert_eq!(out[0].file_name, b"new.txt".to_vec());
    assert_eq!(out[0].contents, b"new contents".to_vec());
}

#[test]
fn error_messages_name_the_failure() {
    assert_eq!(
        SteganographyError::IncorrectPassword.message(),
        "Incorrect password provided"
    );
    assert_eq!(
        SteganographyError::CapacityExceeded.message(),
        "Embedding capacity exceeded"
    );
    assert_eq!(
        SteganographyError::FieldLengthMismatch.message(),
        "Field length mismatch"
    );
}

#[test]
fn truncated_container_keeps_records_already_recovered() {
    // A container that announces five files but holds bytes for one: the
    // first record is recovered, and the pass stops when the stream ends.
    let mut steg = Steganography::init(test_settings());
    steg.load_new_file(5, 2, 3, rgb_image(5, 2));
    steg.init_embed_params();
    let mut container = Vec::new();
    container.extend_from_slice(b"PICCODERN005");
    container.extend_from_slice(b"002ab0000000003xyz");
    assert_eq!(container.len(), 30);
    assert_eq!(steg.write_data_to_image(&container), 30);
    // Re-seek past signature and flag, then extract.
    steg.init_embed_params();
    steg.read_data_from_image(9);
    let out = steg.extract_data(String::new()).unwrap();
    assert_eq!(out.len(), 1);
    assert_eq!(out[0].file_name, b"ab".to_vec());
    assert_eq!(out[0].contents, b"xyz".to_vec());
}

#[test]
fn malformed_count_field_yields_no_records() {
    let mut steg = Steganography::init(test_settings());
    steg.load_new_file(5, 2, 3, rgb_image(5, 2));
    steg.init_embed_params();
    assert_eq!(steg.write_data_to_image(b"PICCODERN0A5"), 12);
    steg.init_embed_params();
    steg.read_data_from_image(9);
    let out = steg.extract_data(String::new()).unwrap();
    assert!(out.is_empty());
}

#[test]
fn uncoded_image_extracts_nothing() {
    // A plain image has no signature: detection reports not coded, and an
    // extraction pass finds no records.
    let mut steg = Steganography::init(test_settings());
    steg.load_new_file(32, 32, 3, rgb_image(32, 32));
    assert!(!steg.pic_coded);
}
