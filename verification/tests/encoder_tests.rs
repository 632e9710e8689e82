use service_bridge::encoder::sanitize_and_checksum;

#[test]
fn empty_input_is_prefix_plus_zero_checksum() {
    assert_eq!(sanitize_and_checksum(""), "ros2_0");
}

#[test]
fn dots_and_slashes_become_underscores() {
    assert_eq!(sanitize_and_checksum("a.b/c"), "ros2_a_b_c91047657");
}

#[test]
fn plain_topic_name() {
    assert_eq!(sanitize_and_checksum("topic.name"), "ros2_topic_name534448438");
}

#[test]
fn space_becomes_underscore() {
    assert_eq!(sanitize_and_checksum("hello world"), "ros2_hello_world204910434");
}

#[test]
fn non_ascii_characters_become_one_underscore_each() {
    // one multi-byte character: one underscore in the body, but both of its
    // bytes feed the checksum
    assert_eq!(sanitize_and_checksum("h\u{e9}llo"), "ros2_h_llo162660204");
}

#[test]
fn identifier_characters_pass_through_unchanged() {
    let r = sanitize_and_checksum("AZaz09_");
    assert!(r.starts_with("ros2_AZaz09_"));
}

#[test]
fn encoding_is_deterministic_across_calls() {
    let inputs = ["", "a.b/c", "some/endpoint.name", "h\u{e9}llo"];
    for input in inputs {
        assert_eq!(sanitize_and_checksum(input), sanitize_and_checksum(input));
    }
}

#[test]
fn output_never_exceeds_maximum_length() {
    let long = "a".repeat(300);
    let r = sanitize_and_checksum(&long);
    assert!(r.len() <= 256);
    let longer = "x".repeat(5000);
    assert!(sanitize_and_checksum(&longer).len() <= 256);
}

#[test]
fn long_input_fills_exactly_to_the_maximum() {
    // checksum of 300 bytes of 'a' is 935750867: nine digits, so the body
    // keeps 256 - 5 - 9 = 242 characters
    let long = "a".repeat(300);
    let r = sanitize_and_checksum(&long);
    assert_eq!(r.len(), 256);
    let expected = format!("ros2_{}935750867", "a".repeat(242));
    assert_eq!(r, expected);
}

#[test]
fn checksum_covers_bytes_beyond_the_truncation_point() {
    // the two inputs sanitize and truncate to the same body, but their
    // checksums differ, so the encodings differ
    let mut first = "a".repeat(300);
    let mut second = "a".repeat(300);
    first.push('b');
    second.push('c');
    let r1 = sanitize_and_checksum(&first);
    let r2 = sanitize_and_checksum(&second);
    assert_eq!(&r1[..5 + 242], &r2[..5 + 242]);
    assert_ne!(r1, r2);
}

#[test]
fn output_after_prefix_holds_only_identifier_characters() {
    let inputs = ["a.b/c", "h\u{e9}llo", "!@#$%^&*()", "with space", "\u{1f600}emoji"];
    for input in inputs {
        let r = sanitize_and_checksum(input);
        assert!(r.starts_with("ros2_"));
        for c in r[5..].chars() {
            assert!(c.is_ascii_alphanumeric() || c == '_');
        }
    }
}

#[test]
fn body_of_punctuation_only_input_is_all_underscores() {
    let r = sanitize_and_checksum("...");
    // checksum of b"..." = (46 * 31 + 46) * 31 + 46 = 45678
    assert_eq!(r, "ros2____45678");
}
