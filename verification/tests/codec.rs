//! The compact string codec on concrete byte sequences.

use fellows::codec::data_to_str;

#[test]
fn absent_tag_decodes_to_none() {
    assert_eq!(data_to_str(&[0]), None);
    assert_eq!(data_to_str(&[0, b'a', b'b']), None);
}

#[test]
fn empty_input_decodes_to_none() {
    assert_eq!(data_to_str(&[]), None);
}

#[test]
fn inline_tag_decodes_to_string() {
    assert_eq!(data_to_str(&[5, b'a', b'b', b'c', b'd']), Some("abcd".to_string()));
    assert_eq!(data_to_str(&[1]), Some(String::new()));
    assert_eq!(data_to_str(&[33, b'x']), Some("x".to_string()));
}

#[test]
fn inline_tag_with_unicode_payload() {
    let bytes = [4, 0xc3, 0xa9, b'!'];
    assert_eq!(data_to_str(&bytes), Some("\u{e9}!".to_string()));
}

#[test]
fn inline_tag_with_invalid_utf8_decodes_to_none() {
    assert_eq!(data_to_str(&[3, 0xff, 0xfe]), None);
}

#[test]
fn inline_tag_takes_the_remaining_bytes_whatever_the_count() {
    assert_eq!(data_to_str(&[5, b'a', b'b']), Some("ab".to_string()));
}

#[test]
fn opaque_tags_decode_to_none() {
    assert_eq!(data_to_str(&[34, b'a', b'b']), None);
    assert_eq!(data_to_str(&[200, 1, 2, 3]), None);
    assert_eq!(data_to_str(&[255]), None);
}
