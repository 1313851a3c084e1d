use wallflower::signature::{signature_base_string, sign, signature};
use wallflower::flickr::{ConsumerSecret, TokenSecret};

fn params(list: &[(&str, &str)]) -> Vec<(String, String)> {
    list.iter().map(|(k, v)| (k.to_string(), v.to_string())).collect()
}

#[test]
fn test_signature_base_string() {
    // The canonical flow example from the provider's documentation.
    let params = params(&[
        ("oauth_nonce", "95613465"),
        ("oauth_timestamp", "1305586162"),
        ("oauth_consumer_key", "653e7a6ecc1d528c516cc8f92cf98611"),
        ("oauth_signature_method", "HMAC-SHA1"),
        ("oauth_version", "1.0"),
        ("oauth_callback", "http://www.example.com"),
    ]);

    assert_eq!(
        signature_base_string(
            "GET",
            "https://www.flickr.com/services/oauth/request_token",
            &params
        ),
        "GET&https%3A%2F%2Fwww.flickr.com%2Fservices%2Foauth%2Frequest_token&oauth_callback%3Dhttp%253A%252F%252Fwww.example.com%26oauth_consumer_key%3D653e7a6ecc1d528c516cc8f92cf98611%26oauth_nonce%3D95613465%26oauth_signature_method%3DHMAC-SHA1%26oauth_timestamp%3D1305586162%26oauth_version%3D1.0"
    );
}

#[test]
fn base_string_is_deterministic_across_calls() {
    let p = params(&[("b", "2"), ("a", "1")]);
    let r1 = signature_base_string("GET", "https://example.com/x", &p);
    let r2 = signature_base_string("GET", "https://example.com/x", &p);
    assert_eq!(r1, r2);
}

#[test]
fn base_string_ignores_parameter_order() {
    let p1 = params(&[("a", "1"), ("b", "2"), ("c", "3")]);
    let p2 = params(&[("c", "3"), ("a", "1"), ("b", "2")]);
    let p3 = params(&[("b", "2"), ("c", "3"), ("a", "1")]);
    let r1 = signature_base_string("GET", "https://example.com/x", &p1);
    let r2 = signature_base_string("GET", "https://example.com/x", &p2);
    let r3 = signature_base_string("GET", "https://example.com/x", &p3);
    assert_eq!(r1, r2);
    assert_eq!(r1, r3);
}

#[test]
fn base_string_sorts_encoded_pieces() {
    let p = params(&[("z", "1"), ("a", "2")]);
    let r = signature_base_string("GET", "https://example.com", &p);
    assert_eq!(r, "GET&https%3A%2F%2Fexample.com&a%3D2%26z%3D1");
}

#[test]
fn sign_matches_known_hmac_sha1_vector() {
    // Checked against an independent HMAC-SHA1 + base64 implementation.
    let base = "GET&https%3A%2F%2Fwww.flickr.com%2Fservices%2Foauth%2Frequest_token&oauth_callback%3Dhttp%253A%252F%252Fwww.example.com%26oauth_consumer_key%3D653e7a6ecc1d528c516cc8f92cf98611%26oauth_nonce%3D95613465%26oauth_signature_method%3DHMAC-SHA1%26oauth_timestamp%3D1305586162%26oauth_version%3D1.0";
    let cs = ConsumerSecret("consumer-secret".to_string());
    let ts = TokenSecret::default();
    assert_eq!(sign(base, &cs, &ts), "17K9U8Y81BV/aUDlvotqRup6D9w=");
}

#[test]
fn sign_uses_the_token_secret() {
    let cs = ConsumerSecret("s".to_string());
    let ts = TokenSecret::new("t".to_string());
    assert_eq!(sign("hello", &cs, &ts), "lNfvCeS+2WfHtyYujqcyJ7TFdgk=");
}

#[test]
fn signature_composes_base_string_and_sign() {
    let p = params(&[
        ("oauth_nonce", "n0nce"),
        ("oauth_timestamp", "1700000000"),
        ("oauth_consumer_key", "ckey"),
        ("oauth_signature_method", "HMAC-SHA1"),
        ("oauth_version", "1.0"),
        ("oauth_callback", "oob"),
    ]);
    let cs = ConsumerSecret("csecret".to_string());
    let ts = TokenSecret::default();
    let s = signature(
        "GET",
        "https://www.flickr.com/services/oauth/request_token",
        &p,
        &cs,
        &ts,
    );
    assert_eq!(s, "vCGB3zbTEmi4Gow2WfNre5cN2dU=");
}
