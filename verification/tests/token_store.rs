use wallflower::token_store::{access_token_json, parse_access_token_json};
use wallflower::flickr::{AccessToken, TokenSecret};
use wallflower::WallflowerError;

fn token(t: &str, s: &str) -> AccessToken {
    AccessToken::new(t.to_string(), TokenSecret::new(s.to_string()))
}

#[test]
fn credential_blob_is_pretty_printed_json() {
    let blob = access_token_json(&token("72157626318069415-087bfc7b5816092c", "a202d1f853ec69de"));
    let expected = "{\n  \"token\": \"72157626318069415-087bfc7b5816092c\",\n  \"secret\": \"a202d1f853ec69de\"\n}";
    assert_eq!(blob, expected.as_bytes().to_vec());
}

#[test]
fn access_token_round_trips_through_the_blob() {
    let original = token("tok-123", "sec-456");
    let blob = access_token_json(&original);
    let back = parse_access_token_json(blob.as_slice()).unwrap();
    assert_eq!(back.token(), "tok-123");
    assert_eq!(back.secret().value(), "sec-456");
}

#[test]
fn round_trip_preserves_escaped_characters() {
    let original = token("a\"b\\c", "line\nbreak\ttab");
    let blob = access_token_json(&original);
    let back = parse_access_token_json(blob.as_slice()).unwrap();
    assert_eq!(back.token(), "a\"b\\c");
    assert_eq!(back.secret().value(), "line\nbreak\ttab");
}

#[test]
fn round_trip_preserves_multibyte_text() {
    let original = token("jeté", "črn");
    let back = parse_access_token_json(access_token_json(&original).as_slice()).unwrap();
    assert_eq!(back.token(), "jeté");
    assert_eq!(back.secret().value(), "črn");
}

#[test]
fn quotes_are_escaped_in_the_blob() {
    let blob = access_token_json(&token("a\"b", "c\\d"));
    let expected = "{\n  \"token\": \"a\\\"b\",\n  \"secret\": \"c\\\\d\"\n}";
    assert_eq!(blob, expected.as_bytes().to_vec());
}

#[test]
fn control_bytes_use_unicode_escapes() {
    let blob = access_token_json(&token("a\nb", ""));
    let expected = "{\n  \"token\": \"a\\u000Ab\",\n  \"secret\": \"\"\n}";
    assert_eq!(blob, expected.as_bytes().to_vec());
}

#[test]
fn malformed_blob_is_a_json_error() {
    assert!(matches!(
        parse_access_token_json(b"{}"),
        Err(WallflowerError::JsonError(_))
    ));
    assert!(matches!(
        parse_access_token_json(b""),
        Err(WallflowerError::JsonError(_))
    ));
    assert!(matches!(
        parse_access_token_json(b"{\n  \"token\": \"a\",\n  \"secret\": \"b\""),
        Err(WallflowerError::JsonError(_))
    ));
}

#[test]
fn unclosed_string_is_a_json_error() {
    assert!(parse_access_token_json(b"{\n  \"token\": \"abc").is_err());
}

#[test]
fn bad_escape_is_a_json_error() {
    assert!(parse_access_token_json(b"{\n  \"token\": \"a\\qb\",\n  \"secret\": \"\"\n}").is_err());
}
