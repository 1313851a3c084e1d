use wallflower::flickr::{
    Client, AuthenticatedClient, AccessToken, RequestToken, TokenSecret, Dimension, PhotoRaw,
    Photo, PhotosResponse, PhotosResponsePhotos, Stat, CheckTokenResponse,
    CheckTokenResponseOauth, Element, User, OauthToken, dimension_to_u32, photo_from_raw,
    photos_from_response, parse_oauth_response, parse_request_token_response,
    parse_access_token_response, generate_nonce, timestamp, photos_arguments, TryFrom,
};
use wallflower::FlickrError;

#[test]
fn dimension_integer_coerces() {
    assert_eq!(dimension_to_u32(&Dimension::Integer(42)), Ok(42));
}

#[test]
fn dimension_digit_string_coerces() {
    assert_eq!(dimension_to_u32(&Dimension::Text("42".to_string())), Ok(42));
}

#[test]
fn dimension_plus_prefix_parses_like_std() {
    assert_eq!(dimension_to_u32(&Dimension::Text("+42".to_string())), Ok(42));
}

#[test]
fn dimension_non_numeric_fails() {
    assert!(matches!(
        dimension_to_u32(&Dimension::Text("wide".to_string())),
        Err(FlickrError::ParseError(_))
    ));
}

#[test]
fn dimension_overflow_fails() {
    assert!(dimension_to_u32(&Dimension::Text("4294967295".to_string())).is_ok());
    assert!(dimension_to_u32(&Dimension::Text("4294967296".to_string())).is_err());
}

#[test]
fn dimension_try_from_matches_the_helper() {
    let v = <u32 as TryFrom<Dimension>>::try_from(Dimension::Text("7".to_string()));
    assert_eq!(v, Ok(7));
}

fn raw(title: &str, h: Dimension, w: Dimension) -> PhotoRaw {
    PhotoRaw {
        title: title.to_string(),
        public: 1,
        url_k: "https://live.example.com/1/2_k.jpg".to_string(),
        height_k: h,
        width_k: w,
        secret: Some("s3cr".to_string()),
    }
}

#[test]
fn photo_normalizes_mixed_dimensions() {
    let p = photo_from_raw(raw(
        "t",
        Dimension::Integer(1080),
        Dimension::Text("1620".to_string()),
    ))
    .unwrap();
    assert_eq!(p.title, "t");
    assert!(p.public);
    assert_eq!(p.height_k, 1080);
    assert_eq!(p.width_k, 1620);
    assert_eq!(p.secret, Some("s3cr".to_string()));
}

#[test]
fn photo_with_bad_dimension_is_rejected() {
    let r = photo_from_raw(raw("t", Dimension::Text("tall".to_string()), Dimension::Integer(1)));
    assert!(matches!(r, Err(FlickrError::ParseError(_))));
}

#[test]
fn photo_with_malformed_url_is_rejected() {
    let mut r = raw("t", Dimension::Integer(1), Dimension::Integer(1));
    r.url_k = "2_k.jpg".to_string();
    assert!(matches!(photo_from_raw(r), Err(FlickrError::UrlError(_))));
    let mut r = raw("t", Dimension::Integer(1), Dimension::Integer(1));
    r.url_k = String::new();
    assert!(matches!(photo_from_raw(r), Err(FlickrError::UrlError(_))));
}

#[test]
fn photo_public_zero_is_private() {
    let mut r = raw("t", Dimension::Integer(1), Dimension::Integer(1));
    r.public = 0;
    assert!(!photo_from_raw(r).unwrap().public);
}

#[test]
fn photos_response_maps_every_record() {
    let res = PhotosResponse {
        photos: PhotosResponsePhotos {
            photo: vec![
                raw("a", Dimension::Integer(1), Dimension::Integer(2)),
                raw("b", Dimension::Text("3".to_string()), Dimension::Integer(4)),
            ],
        },
        stat: Stat::Okay,
    };
    let photos: Vec<Photo> = photos_from_response(res).unwrap();
    assert_eq!(photos.len(), 2);
    assert_eq!(photos[0].title, "a");
    assert_eq!(photos[1].width_k, 4);
}

#[test]
fn photos_response_one_bad_record_rejects_the_page() {
    let res = PhotosResponse {
        photos: PhotosResponsePhotos {
            photo: vec![
                raw("a", Dimension::Integer(1), Dimension::Integer(2)),
                raw("b", Dimension::Text("x".to_string()), Dimension::Integer(4)),
            ],
        },
        stat: Stat::Okay,
    };
    assert!(photos_from_response(res).is_err());
}

#[test]
fn photos_response_failed_status_is_protocol_error() {
    let res = PhotosResponse {
        photos: PhotosResponsePhotos { photo: vec![] },
        stat: Stat::Fail,
    };
    assert!(matches!(photos_from_response(res), Err(FlickrError::AuthenticationError)));
}

#[test]
fn parse_oauth_response_splits_pairs() {
    let pairs = parse_oauth_response(
        "oauth_callback_confirmed=true&oauth_token=xxxxxx&oauth_token_secret=yyyyyy",
    )
    .unwrap();
    assert_eq!(
        pairs,
        vec![
            ("oauth_callback_confirmed".to_string(), "true".to_string()),
            ("oauth_token".to_string(), "xxxxxx".to_string()),
            ("oauth_token_secret".to_string(), "yyyyyy".to_string()),
        ]
    );
}

#[test]
fn parse_oauth_response_keeps_the_whole_value_after_the_first_equals() {
    let pairs = parse_oauth_response("a=b=c&d=e").unwrap();
    assert_eq!(
        pairs,
        vec![("a".to_string(), "b=c".to_string()), ("d".to_string(), "e".to_string())]
    );
}

#[test]
fn parse_oauth_response_rejects_piece_without_equals() {
    assert!(matches!(
        parse_oauth_response("garbage"),
        Err(FlickrError::AuthenticationError)
    ));
    assert!(matches!(parse_oauth_response(""), Err(FlickrError::AuthenticationError)));
    assert!(matches!(
        parse_oauth_response("a=b&oops&c=d"),
        Err(FlickrError::AuthenticationError)
    ));
}

#[test]
fn request_token_response_round_trips_fields() {
    let t = parse_request_token_response(
        "oauth_callback_confirmed=true&oauth_token=tok123&oauth_token_secret=sec456",
    )
    .unwrap();
    assert_eq!(t.token(), "tok123");
    assert_eq!(t.secret().value(), "sec456");
}

#[test]
fn request_token_response_missing_field_fails() {
    assert!(matches!(
        parse_request_token_response("oauth_token=tok123&other=1"),
        Err(FlickrError::AuthenticationError)
    ));
}

#[test]
fn request_token_response_last_occurrence_wins() {
    let t = parse_request_token_response("oauth_token=a&oauth_token_secret=s&oauth_token=b")
        .unwrap();
    assert_eq!(t.token(), "b");
}

#[test]
fn access_token_response_parses_provider_shape() {
    let t = parse_access_token_response(
        "fullname=Jamal%20Fanaian&oauth_token=72157626318069415-087bfc7b5816092c&oauth_token_secret=a202d1f853ec69de&user_nsid=21207597%40N07&username=jamalfanaian",
    )
    .unwrap();
    assert_eq!(t.token(), "72157626318069415-087bfc7b5816092c");
    assert_eq!(t.secret().value(), "a202d1f853ec69de");
}

#[test]
fn request_token_params_carry_the_expected_signature() {
    let client = Client::new("ckey", "csecret");
    let params = client.request_token_params_with("n0nce", 1700000000);
    let expect: Vec<(String, String)> = vec![
        ("oauth_nonce".to_string(), "n0nce".to_string()),
        ("oauth_timestamp".to_string(), "1700000000".to_string()),
        ("oauth_consumer_key".to_string(), "ckey".to_string()),
        ("oauth_signature_method".to_string(), "HMAC-SHA1".to_string()),
        ("oauth_version".to_string(), "1.0".to_string()),
        ("oauth_callback".to_string(), "oob".to_string()),
        ("oauth_signature".to_string(), "vCGB3zbTEmi4Gow2WfNre5cN2dU=".to_string()),
    ];
    assert_eq!(params, expect);
}

#[test]
fn access_token_params_are_signed_with_the_request_secret() {
    let client = Client::new("ckey", "csecret");
    let rt = RequestToken::new("rtok".to_string(), TokenSecret::new("rsec".to_string()));
    let params = client.access_token_params_with(&rt, "12345", "n0nce", 1700000000);
    assert_eq!(params.len(), 8);
    assert_eq!(params[2], ("oauth_token".to_string(), "rtok".to_string()));
    assert_eq!(params[3], ("oauth_verifier".to_string(), "12345".to_string()));
    assert_eq!(
        params[7],
        ("oauth_signature".to_string(), "pueXzOTlewDomTTKSjEyPjV+Mog=".to_string())
    );
}

#[test]
fn call_params_carry_the_standard_set_and_arguments() {
    let client = AuthenticatedClient::new(
        Client::new("ckey", "csecret"),
        AccessToken::new("atok".to_string(), TokenSecret::new("asec".to_string())),
    );
    let arguments = vec![("user_id".to_string(), "u".to_string())];
    let params = client.call_params_with("flickr.test.echo", &arguments, "n0nce", 1700000000);
    assert_eq!(params.len(), 12);
    assert_eq!(params[0], ("api_key".to_string(), "ckey".to_string()));
    assert_eq!(params[3], ("oauth_token".to_string(), "atok".to_string()));
    assert_eq!(params[7], ("format".to_string(), "json".to_string()));
    assert_eq!(params[8], ("nojsoncallback".to_string(), "1".to_string()));
    assert_eq!(params[9], ("method".to_string(), "flickr.test.echo".to_string()));
    assert_eq!(params[10], ("user_id".to_string(), "u".to_string()));
    assert_eq!(
        params[11],
        ("oauth_signature".to_string(), "d4jg7+FxALLBaI6QDxd0FzYlcKs=".to_string())
    );
}

#[test]
fn photos_arguments_append_the_user() {
    let arguments = vec![("per_page".to_string(), "100".to_string())];
    let merged = photos_arguments("12345@N00", &arguments);
    assert_eq!(
        merged,
        vec![
            ("per_page".to_string(), "100".to_string()),
            ("user_id".to_string(), "12345@N00".to_string()),
        ]
    );
}

#[test]
fn nonce_has_the_hyphenated_random_uuid_shape() {
    let a = generate_nonce();
    let b = generate_nonce();
    assert_eq!(a.len(), 36);
    assert_eq!(b.len(), 36);
    assert_ne!(a, b);
    let bytes = a.as_bytes();
    assert_eq!(bytes[8], b'-');
    assert_eq!(bytes[13], b'-');
    assert_eq!(bytes[18], b'-');
    assert_eq!(bytes[23], b'-');
    assert_eq!(bytes[14], b'4');
}

#[test]
fn timestamp_is_after_the_epoch() {
    assert!(timestamp() > 1_000_000_000);
}

#[test]
fn oauth_token_flattens_the_check_response() {
    let res = CheckTokenResponse {
        oauth: CheckTokenResponseOauth {
            token: Element { content: "72157698-fc8f".to_string() },
            perms: Element { content: "read".to_string() },
            user: User {
                nsid: "40215689@N00".to_string(),
                username: "someone".to_string(),
                fullname: "Some One".to_string(),
            },
        },
        stat: Stat::Okay,
    };
    let flat = OauthToken::from(res);
    assert_eq!(flat.token, "72157698-fc8f");
    assert_eq!(flat.perms, "read");
    assert_eq!(flat.user.username, "someone");
}

#[test]
fn token_secret_defaults_to_empty() {
    assert_eq!(TokenSecret::default().value(), "");
}

#[test]
fn authenticated_client_exposes_its_access_token() {
    let client = AuthenticatedClient::new(
        Client::new("k", "s"),
        AccessToken::new("tok".to_string(), TokenSecret::new("sec".to_string())),
    );
    assert_eq!(client.access_token().token(), "tok");
    assert_eq!(client.access_token().secret().value(), "sec");
}
