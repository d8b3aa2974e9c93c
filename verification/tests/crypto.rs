use peer_ledger::crypto::{
    canonical_json, hash_json, public_key_for_secret, seed_from_material, sha256_bytes, sha256_hex, short_hash,
    sign_hex, verify_hex,
};
use peer_ledger::models::{BlockHeader, TransactionPayload};

const SECRET: &str = "9d61b19deffd5a60ba844af492ec2cc44449c5697b326919703bac031cae7f60";
const PUBLIC: &str = "d75a980182b10ab7d54bfed3c964073a0ee172f3daa62325af021a68f707511a";
const EMPTY_SIGNATURE: &str = "e5564300c360ac729086e2cc806e828a84877f1eb8e5d974d873e065224901555fb8821590a33bacc61e39701cf9b46bd25bf5f0595bbe24655141438e7a100b";

#[test]
fn sha256_of_known_texts() {
    assert_eq!(sha256_hex("abc"), "ba7816bf8f01cfea414140de5dae2223b00361a396177a9cb410ff61f20015ad");
    assert_eq!(sha256_hex(""), "e3b0c44298fc1c149afbf4c8996fb92427ae41e4649b934ca495991b7852b855");
    let bytes = sha256_bytes(b"abc");
    assert_eq!(bytes.len(), 32);
    assert_eq!(bytes[0], 0xba);
    assert_eq!(bytes[31], 0xad);
}

#[test]
fn public_key_of_rfc8032_secret() {
    assert_eq!(public_key_for_secret(SECRET).unwrap(), PUBLIC);
}

#[test]
fn signature_of_empty_message_matches_rfc8032() {
    assert_eq!(sign_hex(SECRET, "").unwrap(), EMPTY_SIGNATURE);
    assert_eq!(verify_hex(PUBLIC, "", EMPTY_SIGNATURE), Ok(()));
}

#[test]
fn signature_verifies_only_for_its_message_and_key() {
    let signature = sign_hex(SECRET, "hello").unwrap();
    assert_eq!(signature.len(), 128);
    assert!(verify_hex(PUBLIC, "hello", &signature).is_ok());
    assert!(verify_hex(PUBLIC, "hellp", &signature).is_err());
    let other = public_key_for_secret("4ccd089b28ff96da9db6c346ec114e0f5b8a319f35aba624da8cf6ed4fb8a6fb").unwrap();
    assert!(verify_hex(&other, "hello", &signature).is_err());
}

#[test]
fn malformed_keys_are_rejected() {
    assert_eq!(public_key_for_secret("abcd").unwrap_err(), "expected 32-byte hex value");
    assert!(public_key_for_secret("zz").is_err());
    assert_eq!(sign_hex("00", "m").unwrap_err(), "expected 32-byte hex value");
    assert_eq!(verify_hex("00", "m", "00").unwrap_err(), "expected 32-byte hex value");
    assert!(verify_hex(PUBLIC, "m", "abc").is_err());
    assert!(verify_hex(PUBLIC, "m", "00").is_err());
}

#[test]
fn seed_is_sha256_of_material() {
    assert_eq!(seed_from_material("abc"), sha256_hex("abc"));
    assert_eq!(seed_from_material("abc").len(), 64);
    assert!(public_key_for_secret(&seed_from_material("node")).is_ok());
}

#[test]
fn short_hash_keeps_eight_characters() {
    assert_eq!(short_hash("0123456789abcdef"), "01234567");
    assert_eq!(short_hash("abc"), "abc");
    assert_eq!(short_hash(""), "");
}

fn payload() -> TransactionPayload {
    TransactionPayload {
        from: "a\"b".to_string(),
        to: "c\\d\n".to_string(),
        amount: 12,
        timestamp: 34,
        memo: "\u{1}é".to_string(),
    }
}

#[test]
fn canonical_json_follows_field_order_and_escapes() {
    assert_eq!(
        canonical_json(&payload()).unwrap(),
        "{\"from\":\"a\\\"b\",\"to\":\"c\\\\d\\n\",\"amount\":12,\"timestamp\":34,\"memo\":\"\\u0001é\"}"
    );
}

#[test]
fn canonical_json_strings_match_serde_json() {
    for text in ["plain", "quote\"", "back\\slash", "tab\tnew\nline\r", "\u{8}\u{c}\u{1f}", "ünïcode ✓", "/"] {
        let payload = TransactionPayload {
            from: text.to_string(),
            to: String::new(),
            amount: 0,
            timestamp: 0,
            memo: String::new(),
        };
        let expected = format!(
            "{{\"from\":{},\"to\":\"\",\"amount\":0,\"timestamp\":0,\"memo\":\"\"}}",
            serde_json::to_string(text).unwrap()
        );
        assert_eq!(canonical_json(&payload).unwrap(), expected);
    }
}

#[test]
fn header_json_and_hash() {
    let header = BlockHeader {
        height: 1,
        previous_hash: "p".to_string(),
        timestamp: 2,
        nonce: 3,
        difficulty: 4,
        creator: "c".to_string(),
        merkle_root: "m".to_string(),
        tx_count: 5,
    };
    let text = "{\"height\":1,\"previous_hash\":\"p\",\"timestamp\":2,\"nonce\":3,\"difficulty\":4,\"creator\":\"c\",\"merkle_root\":\"m\",\"tx_count\":5}";
    assert_eq!(canonical_json(&header).unwrap(), text);
    assert_eq!(hash_json(&header).unwrap(), sha256_hex(text));
}

#[test]
fn refusals_carry_the_decoder_and_verifier_messages() {
    assert_eq!(public_key_for_secret("abc").unwrap_err(), "Odd number of digits");
    assert_eq!(public_key_for_secret("zz").unwrap_err(), "Invalid character 'z' at position 0");
    assert_eq!(sign_hex("0g", "m").unwrap_err(), "Invalid character 'g' at position 1");
    assert_eq!(verify_hex(PUBLIC, "m", "abc").unwrap_err(), "Odd number of digits");
    assert_eq!(verify_hex(PUBLIC, "m", "00").unwrap_err(), "signature error");
    let signature = sign_hex(SECRET, "hello").unwrap();
    assert_eq!(
        verify_hex(PUBLIC, "hellp", &signature).unwrap_err(),
        "signature error: Verification equation was not satisfied"
    );
}
