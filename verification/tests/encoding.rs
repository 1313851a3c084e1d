use wallflower::escape;
use wallflower::encoding::{percent_encode_bytes, percent_decode_bytes, bytes_eq, is_unreserved_byte};

#[test]
fn escape_keeps_unreserved_text_unchanged() {
    let s = "AZaz09-._~";
    assert_eq!(escape(s), s);
}

#[test]
fn escape_slash_and_colon() {
    assert_eq!(escape("/"), "%2F");
    assert_eq!(escape(":"), "%3A");
}

#[test]
fn escape_space_and_url() {
    assert_eq!(escape(" "), "%20");
    assert_eq!(
        escape("https://www.flickr.com/services/oauth/request_token"),
        "https%3A%2F%2Fwww.flickr.com%2Fservices%2Foauth%2Frequest_token"
    );
}

#[test]
fn escape_multibyte_utf8_byte_by_byte() {
    assert_eq!(escape("é"), "%C3%A9");
}

#[test]
fn escape_double_encoding_escapes_the_percent() {
    assert_eq!(escape("%2F"), "%252F");
}

#[test]
fn percent_encode_bytes_uses_uppercase_hex() {
    let out = percent_encode_bytes(&[0xABu8, b'a']);
    assert_eq!(out, b"%ABa".to_vec());
}

#[test]
fn percent_decode_reverses_encoding() {
    let encoded = percent_encode_bytes(b"a b/c:d".as_slice());
    let decoded = percent_decode_bytes(encoded.as_slice());
    assert_eq!(decoded, b"a b/c:d".to_vec());
}

#[test]
fn percent_decode_is_lenient_with_bad_escapes() {
    assert_eq!(percent_decode_bytes(b"a%zz".as_slice()), b"a%zz".to_vec());
    assert_eq!(percent_decode_bytes(b"100%".as_slice()), b"100%".to_vec());
    assert_eq!(percent_decode_bytes(b"%2fx".as_slice()), b"/x".to_vec());
}

#[test]
fn unreserved_set_is_exactly_the_oauth_one() {
    for b in 0u8..=255 {
        let expected = (b as char).is_ascii_alphanumeric()
            || b == b'-'
            || b == b'.'
            || b == b'_'
            || b == b'~';
        assert_eq!(is_unreserved_byte(b), expected);
    }
}

#[test]
fn bytes_eq_compares_contents() {
    assert!(bytes_eq(b"abc", b"abc"));
    assert!(!bytes_eq(b"abc", b"abd"));
    assert!(!bytes_eq(b"abc", b"ab"));
}
