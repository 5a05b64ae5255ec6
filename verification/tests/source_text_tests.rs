use metrowrap::is_plain_file_path;
use metrowrap::source_text::{encode_source, EncodeError};

#[test]
fn utf8_source_keeps_its_bytes() {
    assert_eq!(Ok("héllo".as_bytes().to_vec()), encode_source(b"utf-8", "héllo"));
}

#[test]
fn shift_jis_source_is_converted() {
    assert_eq!(Ok(vec![0x82, 0xA0, b'a']), encode_source(b"shift_jis", "あa"));
    assert_eq!(Ok(vec![0x82, 0xA0]), encode_source(b" Shift_JIS ", "あ"));
}

#[test]
fn unmappable_characters_and_unknown_labels_are_errors() {
    assert_eq!(Err(EncodeError::Unmappable), encode_source(b"windows-1252", "あ"));
    assert_eq!(Err(EncodeError::UnknownEncoding), encode_source(b"no-such-encoding", "a"));
    assert_eq!(Err(EncodeError::UnknownEncoding), encode_source(b"", ""));
}

#[test]
fn plain_file_paths() {
    assert!(is_plain_file_path("build/a.o"));
    assert!(is_plain_file_path("a"));
    assert!(!is_plain_file_path(""));
    assert!(!is_plain_file_path("dir/"));
    assert!(!is_plain_file_path("dir/."));
    assert!(!is_plain_file_path(".."));
    assert!(is_plain_file_path("dir/..a"));
}
