use openai_token::file_error::ParseFileError;
use openai_token::file_error::ParseFileErrorKind;
use openai_token::rankfile::mergeable_ranks;

#[test]
fn listing_parses_decoded_entries() {
    // "YQ==" is the base64 of "a", "Yg==" of "b": the parsed entries
    // must hold the decoded bytes, not the base64 text.
    let data = b"YQ== 0\nYg== 1\n".to_vec();
    let entries = mergeable_ranks(&data).unwrap();
    assert_eq!(entries, vec![(b"a".to_vec(), 0), (b"b".to_vec(), 1)]);
}

#[test]
fn listing_accepts_crlf_lines() {
    let data = b"YQ== 7\r\nYg== 8".to_vec();
    let entries = mergeable_ranks(&data).unwrap();
    assert_eq!(entries, vec![(b"a".to_vec(), 7), (b"b".to_vec(), 8)]);
}

#[test]
fn listing_ignores_text_after_second_space() {
    let data = b"YQ== 7 trailing".to_vec();
    let entries = mergeable_ranks(&data).unwrap();
    assert_eq!(entries, vec![(b"a".to_vec(), 7)]);
}

#[test]
fn empty_listing_is_empty() {
    let data = Vec::new();
    assert_eq!(mergeable_ranks(&data).unwrap(), Vec::new());
}

#[test]
fn line_without_space_is_rejected() {
    let data = b"YQ==\n".to_vec();
    assert!(mergeable_ranks(&data).is_err());
}

#[test]
fn line_with_bad_rank_is_rejected() {
    let data = b"YQ== x1\n".to_vec();
    assert!(mergeable_ranks(&data).is_err());
}

#[test]
fn line_with_bad_base64_is_rejected() {
    let data = b"!!!! 3\n".to_vec();
    assert!(mergeable_ranks(&data).is_err());
}

#[test]
fn empty_line_is_rejected() {
    let data = b"YQ== 0\n\nYg== 1\n".to_vec();
    assert!(mergeable_ranks(&data).is_err());
}

#[test]
fn parse_file_error_carries_path_and_kind() {
    let e = ParseFileError::notfound("/tmp/absent");
    assert_eq!(e.path(), "/tmp/absent");
    assert_eq!(e.kind(), ParseFileErrorKind::NotFound);

    let e = ParseFileError::denied("/tmp/locked");
    assert_eq!(e.kind(), ParseFileErrorKind::PermissionDenied);

    let e = ParseFileError::format("/tmp/binary");
    assert_eq!(e.kind(), ParseFileErrorKind::InvalidFormat);

    let e = ParseFileError::limit("/tmp/big", 4321);
    assert_eq!(e.kind(), ParseFileErrorKind::TokenLimit(4321));
}
