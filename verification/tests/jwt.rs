use base64::Engine;

use rsjwt::DecodeError;
use rsjwt::EncodeError;
use rsjwt::Value;
use rsjwt::JWT;

const T: i64 = 1700000000;

fn basic_claims() -> Vec<(String, Value)> {
    vec![
        ("sub".to_string(), Value::String("alice".to_string())),
        ("admin".to_string(), Value::Bool(true)),
        ("level".to_string(), Value::Int(-42)),
        (
            "groups".to_string(),
            Value::List(vec![
                Value::String("dev".to_string()),
                Value::String("ops".to_string()),
            ]),
        ),
        (
            "meta".to_string(),
            Value::Dict(vec![
                ("id".to_string(), Value::Int(7)),
                ("note".to_string(), Value::String("a \"quoted\" \\ line\nü€🙂".to_string())),
            ]),
        ),
    ]
}

#[test]
fn round_trip_basic_claims() {
    let jwt = JWT::new("secret", None);
    let token = jwt.encode_at(&basic_claims(), T).unwrap();
    assert_eq!(token.matches('.').count(), 2);
    let data = jwt.decode_at(token.as_str(), T + 5).unwrap();
    assert_eq!(data.len(), 5);
    assert_eq!(data.get("sub"), Some(&Value::String("alice".to_string())));
    assert_eq!(data.get("admin"), Some(&Value::Bool(true)));
    assert_eq!(data.get("level"), Some(&Value::Int(-42)));
    assert_eq!(
        data.get("groups"),
        Some(&Value::List(vec![
            Value::String("dev".to_string()),
            Value::String("ops".to_string()),
        ]))
    );
    assert_eq!(
        data.get("meta"),
        Some(&Value::Dict(vec![
            ("id".to_string(), Value::Int(7)),
            ("note".to_string(), Value::String("a \"quoted\" \\ line\nü€🙂".to_string())),
        ]))
    );
}

#[test]
fn duration_becomes_absolute_instant() {
    let jwt = JWT::new("secret", None);
    let claims = vec![("exp".to_string(), Value::TimeDelta(60))];
    let token = jwt.encode_at(&claims, T).unwrap();
    let data = jwt.decode_at(token.as_str(), T).unwrap();
    assert_eq!(data.get("exp"), Some(&Value::Int(T + 60)));
}

#[test]
fn datetime_becomes_plain_number() {
    let jwt = JWT::new("secret", None);
    let claims = vec![("iat".to_string(), Value::DateTime(T - 10))];
    let token = jwt.encode_at(&claims, T).unwrap();
    let data = jwt.decode_at(token.as_str(), T).unwrap();
    assert_eq!(data.get("iat"), Some(&Value::Int(T - 10)));
}

#[test]
fn duration_overflow_is_an_encode_error() {
    let jwt = JWT::new("secret", None);
    let claims = vec![("exp".to_string(), Value::TimeDelta(u64::MAX))];
    assert_eq!(jwt.encode_at(&claims, T), Err(EncodeError::InvalidClaims));
}

#[test]
fn duplicate_claim_names_are_an_encode_error() {
    let jwt = JWT::new("secret", None);
    let claims = vec![
        ("a".to_string(), Value::Int(1)),
        ("a".to_string(), Value::Int(2)),
    ];
    assert_eq!(jwt.encode_at(&claims, T), Err(EncodeError::InvalidClaims));
}

#[test]
fn key_rotation_accepts_both_keys() {
    let old_engine = JWT::new("old-secret", None);
    let new_engine = JWT::new("new-secret", None);
    let rotating = JWT::new("new-secret", None).with_added_verification_secret("old-secret");

    let claims = vec![("sub".to_string(), Value::String("alice".to_string()))];
    let from_new = new_engine.encode_at(&claims, T).unwrap();
    let from_old = old_engine.encode_at(&claims, T).unwrap();

    let d1 = rotating.decode_at(from_new.as_str(), T).unwrap();
    assert_eq!(d1.get("sub"), Some(&Value::String("alice".to_string())));
    let d2 = rotating.decode_at(from_old.as_str(), T).unwrap();
    assert_eq!(d2.get("sub"), Some(&Value::String("alice".to_string())));
}

#[test]
fn key_rotation_rejects_unknown_key() {
    let new_engine = JWT::new("new-secret", None);
    let old_only = JWT::new("old-secret", None);
    let claims = vec![("sub".to_string(), Value::String("alice".to_string()))];
    let from_new = new_engine.encode_at(&claims, T).unwrap();
    assert_eq!(
        old_only.decode_at(from_new.as_str(), T).unwrap_err(),
        DecodeError::InvalidSignature
    );
}

#[test]
fn required_claim_missing_fails_decode() {
    let jwt = JWT::new("secret", Some(vec!["sub".to_string()]));
    let claims = vec![("foo".to_string(), Value::String("bar".to_string()))];
    let token = jwt.encode_at(&claims, T).unwrap();
    assert_eq!(
        jwt.decode_at(token.as_str(), T).unwrap_err(),
        DecodeError::MissingRequiredClaim
    );
}

#[test]
fn required_claim_present_succeeds() {
    let jwt = JWT::new("secret", Some(vec!["sub".to_string()]));
    let claims = vec![("sub".to_string(), Value::String("alice".to_string()))];
    let token = jwt.encode_at(&claims, T).unwrap();
    let data = jwt.decode_at(token.as_str(), T).unwrap();
    assert_eq!(data.get("sub"), Some(&Value::String("alice".to_string())));
}

#[test]
fn expired_token_fails_decode() {
    let jwt = JWT::new("secret", None);
    let claims = vec![("exp".to_string(), Value::TimeDelta(60))];
    let token = jwt.encode_at(&claims, T).unwrap();
    assert!(jwt.decode_at(token.as_str(), T + 30).is_ok());
    assert_eq!(
        jwt.decode_at(token.as_str(), T + 61).unwrap_err(),
        DecodeError::Expired
    );
}

#[test]
fn leeway_tolerates_small_skew() {
    let jwt = JWT::new("secret", None).with_leeway(120);
    let claims = vec![("exp".to_string(), Value::TimeDelta(60))];
    let token = jwt.encode_at(&claims, T).unwrap();
    assert!(jwt.decode_at(token.as_str(), T + 100).is_ok());
    assert_eq!(
        jwt.decode_at(token.as_str(), T + 181).unwrap_err(),
        DecodeError::Expired
    );
}

#[test]
fn not_yet_valid_token_fails_decode() {
    let jwt = JWT::new("secret", None);
    let claims = vec![("nbf".to_string(), Value::DateTime(T + 100))];
    let token = jwt.encode_at(&claims, T).unwrap();
    assert_eq!(
        jwt.decode_at(token.as_str(), T).unwrap_err(),
        DecodeError::ImmatureToken
    );
    assert!(jwt.decode_at(token.as_str(), T + 100).is_ok());
}

#[test]
fn tampering_with_any_signature_byte_fails_decode() {
    let jwt = JWT::new("secret", None);
    let claims = vec![("sub".to_string(), Value::String("alice".to_string()))];
    let token = jwt.encode_at(&claims, T).unwrap();
    let second_dot = token.rfind('.').unwrap();
    for pos in (second_dot + 1)..token.len() {
        let mut bytes = token.clone().into_bytes();
        bytes[pos] ^= 0x01;
        let tampered = String::from_utf8(bytes).unwrap();
        assert!(jwt.decode_at(tampered.as_str(), T).is_err(), "byte {} accepted", pos);
    }
}

#[test]
fn malformed_tokens_fail_decode() {
    let jwt = JWT::new("secret", None);
    for bad in [
        "",
        "abc",
        "a.b",
        "a.b.c.d",
        "!!!.???.###",
        "eyJh.eyJi.",
        "..",
    ] {
        assert_eq!(jwt.decode_at(bad, T).unwrap_err(), DecodeError::InvalidToken, "{:?}", bad);
    }
}

#[test]
fn non_object_payload_fails_decode() {
    // A token whose payload is a JSON array, signed with the right key.
    let header = base64::engine::general_purpose::URL_SAFE_NO_PAD
        .encode(b"{\"alg\":\"HS256\",\"typ\":\"JWT\"}");
    let payload = base64::engine::general_purpose::URL_SAFE_NO_PAD.encode(b"[1,2]");
    let message = format!("{}.{}", header, payload);
    let key = jsonwebtoken::EncodingKey::from_secret(b"secret");
    let sig =
        jsonwebtoken::crypto::sign(message.as_bytes(), &key, jsonwebtoken::Algorithm::HS256)
            .unwrap();
    let token = format!("{}.{}", message, sig);
    let jwt = JWT::new("secret", None);
    assert_eq!(
        jwt.decode_at(token.as_str(), T).unwrap_err(),
        DecodeError::InvalidToken
    );
}

#[test]
fn wrong_algorithm_header_fails_decode() {
    let header = base64::engine::general_purpose::URL_SAFE_NO_PAD
        .encode(b"{\"alg\":\"none\",\"typ\":\"JWT\"}");
    let payload = base64::engine::general_purpose::URL_SAFE_NO_PAD.encode(b"{\"a\":1}");
    let message = format!("{}.{}", header, payload);
    let key = jsonwebtoken::EncodingKey::from_secret(b"secret");
    let sig =
        jsonwebtoken::crypto::sign(message.as_bytes(), &key, jsonwebtoken::Algorithm::HS256)
            .unwrap();
    let token = format!("{}.{}", message, sig);
    let jwt = JWT::new("secret", None);
    assert_eq!(
        jwt.decode_at(token.as_str(), T).unwrap_err(),
        DecodeError::InvalidToken
    );
}

#[test]
fn missing_key_lookup() {
    let jwt = JWT::new("secret", None);
    let claims = vec![("sub".to_string(), Value::String("alice".to_string()))];
    let token = jwt.encode_at(&claims, T).unwrap();
    let data = jwt.decode_at(token.as_str(), T).unwrap();
    assert_eq!(data.get("nonexistent"), None);
    let err = data.get_item("nonexistent").unwrap_err();
    assert_eq!(err, "not found key nonexistent");
    assert_eq!(
        data.get_item("sub").unwrap(),
        &Value::String("alice".to_string())
    );
    assert!(data.contains_key("sub"));
    assert!(!data.contains_key("nonexistent"));
}

#[test]
fn container_views() {
    let jwt = JWT::new("secret", None);
    let claims = vec![
        ("a".to_string(), Value::Int(1)),
        ("b".to_string(), Value::Bool(false)),
    ];
    let token = jwt.encode_at(&claims, T).unwrap();
    let data = jwt.decode_at(token.as_str(), T).unwrap();
    assert_eq!(data.keys(), vec!["a".to_string(), "b".to_string()]);
    assert_eq!(data.values(), vec![Value::Int(1), Value::Bool(false)]);
    assert_eq!(data.items(), claims);
    assert_eq!(data.repr(), "{\"a\":1,\"b\":false}");
}

#[test]
fn empty_claims_round_trip() {
    let jwt = JWT::new("secret", None);
    let token = jwt.encode_at(&vec![], T).unwrap();
    let data = jwt.decode_at(token.as_str(), T).unwrap();
    assert_eq!(data.len(), 0);
    assert_eq!(data.keys(), Vec::<String>::new());
    assert_eq!(data.repr(), "{}");
}

#[test]
fn error_messages() {
    assert_eq!(EncodeError::InvalidClaims.message(), "invalid claims");
    assert_eq!(DecodeError::InvalidToken.message(), "not valid token");
    assert_eq!(DecodeError::InvalidSignature.message(), "invalid signature");
    assert_eq!(
        DecodeError::MissingRequiredClaim.message(),
        "missing required claim"
    );
    assert_eq!(DecodeError::Expired.message(), "token expired");
    assert_eq!(DecodeError::ImmatureToken.message(), "token not yet valid");
}

#[test]
fn encode_and_decode_with_ambient_clock() {
    let jwt = JWT::new("secret", None);
    let claims = vec![
        ("sub".to_string(), Value::String("alice".to_string())),
        ("exp".to_string(), Value::TimeDelta(3600)),
    ];
    let token = jwt.encode(&claims).unwrap();
    let data = jwt.decode(token.as_str()).unwrap();
    assert_eq!(data.get("sub"), Some(&Value::String("alice".to_string())));
    assert!(matches!(data.get("exp"), Some(Value::Int(_))));
}

#[test]
fn interop_their_decoder_reads_our_token() {
    let jwt = JWT::new("secret", None);
    let claims = vec![
        ("sub".to_string(), Value::String("alice".to_string())),
        ("n".to_string(), Value::Int(5)),
    ];
    let token = jwt.encode_at(&claims, T).unwrap();
    let mut validation = jsonwebtoken::Validation::new(jsonwebtoken::Algorithm::HS256);
    validation.validate_exp = false;
    validation.required_spec_claims = std::collections::HashSet::new();
    let decoded = jsonwebtoken::decode::<serde_json::Value>(
        &token,
        &jsonwebtoken::DecodingKey::from_secret(b"secret"),
        &validation,
    )
    .unwrap();
    assert_eq!(decoded.claims["sub"], serde_json::Value::String("alice".to_string()));
    assert_eq!(decoded.claims["n"], serde_json::Value::Number(serde_json::Number::from(5)));
}

#[test]
fn interop_our_decoder_reads_their_token() {
    let claims: serde_json::Value =
        serde_json::from_str("{\"n\":7,\"ok\":true,\"sub\":\"bob\"}").unwrap();
    let token = jsonwebtoken::encode(
        &jsonwebtoken::Header::default(),
        &claims,
        &jsonwebtoken::EncodingKey::from_secret(b"secret"),
    )
    .unwrap();
    let jwt = JWT::new("secret", None);
    let data = jwt.decode_at(token.as_str(), T).unwrap();
    assert_eq!(data.get("n"), Some(&Value::Int(7)));
    assert_eq!(data.get("ok"), Some(&Value::Bool(true)));
    assert_eq!(data.get("sub"), Some(&Value::String("bob".to_string())));
}
