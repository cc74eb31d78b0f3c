use sha3::Digest;
use trmnl::api_key::{
    decimal_u8, uuid_parse, secret_parse, ApiKey, ApiKeyPair, InvalidHash, ParseErr, ParsedToken, PayloadErr,
    SecretHash, TokenString, TokenSyntax,
};

fn encode(data: &[u8]) -> String {
    base32::encode(base32::Alphabet::Rfc4648Lower { padding: false }, data)
}

fn token_with(version: &str, data: &[u8]) -> TokenString {
    TokenString::new_from_string(format!("TRMV{}{}", version, encode(data)))
}

#[test]
fn issued_token_parses_and_verifies() {
    let owner = [0x10u8, 0x20, 0x30, 0x40, 0x50, 0x60];
    let pair = ApiKeyPair::new(owner, &owner);
    assert!(pair.token.as_str().starts_with("TRMV1"));
    let parsed = ParsedToken::parse(&pair.token).unwrap();
    assert_eq!(parsed.version(), 1);
    assert_eq!(parsed.uuid(), &pair.api_key.id);
    assert_eq!(pair.api_key.version, 1);
    assert_eq!(pair.api_key.id[6] >> 4, 7);
    assert_eq!(pair.api_key.id[8] >> 6, 0b10);
    assert_eq!(pair.api_key.hashed_secret.compare_hash(&parsed, &owner), Ok(()));
    assert_eq!(pair.api_key.hashed_secret.compare_hash(&parsed, &[1, 2, 3]), Err(InvalidHash));
}

#[test]
fn two_issued_keys_differ() {
    let a = ApiKeyPair::new((), &[]);
    let b = ApiKeyPair::new((), &[]);
    assert_ne!(a.token.as_str(), b.token.as_str());
    let parsed_b = ParsedToken::parse(&b.token).unwrap();
    assert_eq!(a.api_key.hashed_secret.compare_hash(&parsed_b, &[]), Err(InvalidHash));
}

#[test]
fn token_text_of_known_parts() {
    let pair = ApiKeyPair::from_parts((), b"dev", [0u8; 16], [0u8; 32]);
    let expected = format!("TRMV1{}", "a".repeat(77));
    assert_eq!(pair.token.as_str(), expected);
    let parsed = ParsedToken::parse(&pair.token).unwrap();
    assert_eq!(parsed.uuid(), &[0u8; 16]);
    assert_eq!(pair.api_key.hashed_secret.as_bytes().len(), 64);
    assert_eq!(pair.api_key.hashed_secret.compare_hash(&parsed, b"dev"), Ok(()));
    assert_eq!(pair.api_key.hashed_secret.compare_hash(&parsed, b"dew"), Err(InvalidHash));
}

#[test]
fn hash_is_sha3_of_the_key_material() {
    let id = [7u8; 16];
    let secret = [9u8; 32];
    let pair = ApiKeyPair::from_parts((), b"owner", id, secret);
    let mut material = Vec::new();
    material.extend_from_slice(&id);
    material.push(1);
    material.extend_from_slice(b"owner");
    material.extend_from_slice(&secret);
    let digest = sha3::Sha3_512::digest(&material);
    assert_eq!(pair.api_key.hashed_secret.as_bytes(), digest.as_slice());
}

#[test]
fn a_base32_text_starting_with_a_digit_runs_into_the_version() {
    // 0xd0 encodes to the digit '2', which the one-digit version absorbs.
    let mut id = [0u8; 16];
    id[0] = 0xd0;
    let pair = ApiKeyPair::from_parts((), b"dev", id, [0u8; 32]);
    assert!(pair.token.as_str().starts_with("TRMV12"));
    assert!(matches!(
        ParsedToken::parse(&pair.token),
        Err(ParseErr::InvalidVersion { received: 12, expected: 1 })
    ));
}

#[test]
fn parse_errors() {
    let cases: Vec<(TokenString, ParseErr)> = vec![
        (TokenString::new_from_str("XYZV1aaaa"), ParseErr::Syntax(TokenSyntax::MissingPrefix)),
        (TokenString::new_from_str("TR"), ParseErr::Syntax(TokenSyntax::MissingPrefix)),
        (TokenString::new_from_str("TRM"), ParseErr::Syntax(TokenSyntax::MissingVersionMarker)),
        (TokenString::new_from_str("TRMX1"), ParseErr::Syntax(TokenSyntax::MissingVersionMarker)),
        (TokenString::new_from_str("TRMV"), ParseErr::Syntax(TokenSyntax::MissingVersion)),
        (TokenString::new_from_str("TRMVabc"), ParseErr::Syntax(TokenSyntax::MissingVersion)),
        (TokenString::new_from_str("TRMV999"), ParseErr::Syntax(TokenSyntax::VersionOutOfRange)),
        (token_with("2", &[0; 48]), ParseErr::InvalidVersion { received: 2, expected: 1 }),
        (TokenString::new_from_str("TRMV1!!!!"), ParseErr::NoBytes),
        (token_with("1", &[0; 10]), ParseErr::Payload(PayloadErr::TruncatedId)),
        (token_with("1", &[0; 20]), ParseErr::Payload(PayloadErr::TruncatedSecret)),
        (token_with("1", &[0; 49]), ParseErr::Payload(PayloadErr::TrailingBytes)),
    ];
    for (token, expected) in cases {
        match ParsedToken::parse(&token) {
            Ok(_) => panic!("{} parsed", token.as_str()),
            Err(e) => assert_eq!(e, expected, "{}", token.as_str()),
        }
    }
}

#[test]
fn leading_zeros_in_the_version_are_accepted() {
    let token = token_with("001", &[3u8; 48]);
    let parsed = ParsedToken::parse(&token).unwrap();
    assert_eq!(parsed.version(), 1);
    assert_eq!(parsed.uuid(), &[3u8; 16]);
}

#[test]
fn decimal_prefixes() {
    assert_eq!(decimal_u8("7"), Ok((1, 7)));
    assert_eq!(decimal_u8("123abc"), Ok((3, 123)));
    assert_eq!(decimal_u8("1234"), Ok((3, 123)));
    assert_eq!(decimal_u8("255"), Ok((3, 255)));
    assert_eq!(decimal_u8("256"), Err(TokenSyntax::VersionOutOfRange));
    assert_eq!(decimal_u8("x1"), Err(TokenSyntax::MissingVersion));
    assert_eq!(decimal_u8(""), Err(TokenSyntax::MissingVersion));
}

#[test]
fn fixed_width_prefixes() {
    let bytes: Vec<u8> = (0..40).collect();
    assert_eq!(uuid_parse(&bytes).unwrap().to_vec(), (0..16).collect::<Vec<u8>>());
    assert!(uuid_parse(&bytes[..15]).is_none());
    assert!(secret_parse(&bytes).is_some());
    assert!(secret_parse(&bytes[..31]).is_none());
}

#[test]
fn a_stored_key_read_back_still_checks_its_token() {
    let pair = ApiKeyPair::from_parts("owner", b"dev", [9u8; 16], [4u8; 32]);
    let mut hash = [0u8; 64];
    hash.copy_from_slice(pair.api_key.hashed_secret.as_bytes());
    let stored: ApiKey<&str> = ApiKey::new(pair.api_key.id, SecretHash::from_bytes(hash), "owner", 1);
    assert_eq!(stored.id, [9u8; 16]);
    assert_eq!(stored.owner, "owner");
    assert_eq!(stored.version, 1);
    assert_eq!(stored.hashed_secret.as_bytes(), pair.api_key.hashed_secret.as_bytes());
    let parsed = ParsedToken::parse(&pair.token).unwrap();
    assert_eq!(stored.hashed_secret.compare_hash(&parsed, b"dev"), Ok(()));
    assert_eq!(SecretHash::from_bytes([0u8; 64]).compare_hash(&parsed, b"dev"), Err(InvalidHash));
}

#[test]
fn issued_tokens_have_82_characters_and_parse_back() {
    let pair = ApiKeyPair::new([7u8; 6], &[7u8; 6]);
    assert_eq!(pair.token.as_str().len(), 82);
    let mut id = [1u8; 16];
    id[0] = 0xcf;
    let pair = ApiKeyPair::from_parts((), b"o", id, [2u8; 32]);
    assert_eq!(pair.token.as_str().len(), 82);
    assert!(pair.token.as_str()[5..].starts_with('z'));
    let parsed = ParsedToken::parse(&pair.token).unwrap();
    assert_eq!(parsed.uuid(), &id);
    assert_eq!(parsed.version(), 1);
}

#[test]
fn base32_outside_the_lowercase_alphabet_is_no_bytes() {
    for text in ["TRMV1AAAA", "TRMV1aa=a", "TRMV1a1aa", "TRMV1aé"] {
        assert_eq!(ParsedToken::parse(&TokenString::new_from_str(text)).err(), Some(ParseErr::NoBytes), "{text}");
    }
    // 77 letters decode to 48 bytes: the id is the first 16.
    let text = format!("TRMV1{}", "a".repeat(77));
    let parsed = ParsedToken::parse(&TokenString::new_from_string(text)).unwrap();
    assert_eq!(parsed.uuid(), &[0u8; 16]);
}
