use peer_ledger::crypto::{canonical_json, public_key_for_secret, sha256_hex};
use peer_ledger::models::{TransactionPayload, Wallet, WalletFile};
use peer_ledger::transaction::{
    create_signed_transaction, is_reward_transaction, reward_transaction, sign_payload, transaction_id,
    validate_normal_transaction, validate_reward_transaction, validate_transaction_id,
};
use peer_ledger::wallet::validate_wallet;

const SECRET: &str = "9d61b19deffd5a60ba844af492ec2cc44449c5697b326919703bac031cae7f60";

fn wallet() -> Wallet {
    Wallet { public_key: public_key_for_secret(SECRET).unwrap(), secret_key: SECRET.to_string() }
}

#[test]
fn transaction_id_hashes_payload_json_and_signature() {
    let payload = TransactionPayload {
        from: "a".to_string(),
        to: "b".to_string(),
        amount: 1,
        timestamp: 2,
        memo: "m".to_string(),
    };
    let json = canonical_json(&payload).unwrap();
    assert_eq!(transaction_id(&payload, "sig").unwrap(), sha256_hex(&format!("{json}sig")));
}

#[test]
fn created_transaction_is_valid() {
    let w = wallet();
    let tx = create_signed_transaction(&w, "friend".to_string(), 3, "memo".to_string()).unwrap();
    assert_eq!(tx.payload.from, w.public_key);
    assert_eq!(tx.payload.to, "friend");
    assert_eq!(tx.payload.amount, 3);
    assert_eq!(tx.payload.memo, "memo");
    assert!(!is_reward_transaction(&tx));
    assert_eq!(validate_transaction_id(&tx), Ok(()));
    assert_eq!(validate_normal_transaction(&tx), Ok(()));
}

#[test]
fn zero_amount_is_refused() {
    assert_eq!(
        create_signed_transaction(&wallet(), "friend".to_string(), 0, String::new()).unwrap_err(),
        "amount must be greater than zero"
    );
}

#[test]
fn tampered_transactions_are_refused() {
    let w = wallet();
    let tx = create_signed_transaction(&w, "friend".to_string(), 3, String::new()).unwrap();

    let mut changed = tx.clone();
    changed.payload.amount = 4;
    assert_eq!(
        validate_normal_transaction(&changed).unwrap_err(),
        "transaction id does not match payload and signature"
    );

    let mut resigned = tx.clone();
    resigned.payload.amount = 4;
    resigned.id = transaction_id(&resigned.payload, &resigned.signature).unwrap();
    assert!(validate_normal_transaction(&resigned).unwrap_err().starts_with("invalid signature: "));

    let mut zero = tx.clone();
    zero.payload.amount = 0;
    zero.id = transaction_id(&zero.payload, &zero.signature).unwrap();
    assert_eq!(validate_normal_transaction(&zero).unwrap_err(), "amount must be greater than zero");
}

#[test]
fn reward_transaction_shape() {
    let reward = reward_transaction("miner", 77).unwrap();
    assert_eq!(reward.payload.from, "0");
    assert_eq!(reward.payload.to, "miner");
    assert_eq!(reward.payload.amount, 1);
    assert_eq!(reward.payload.timestamp, 77);
    assert_eq!(reward.payload.memo, "block reward");
    assert_eq!(reward.signature, "");
    assert!(is_reward_transaction(&reward));
    assert_eq!(validate_reward_transaction(&reward, "miner"), Ok(()));
    assert_eq!(
        validate_reward_transaction(&reward, "other").unwrap_err(),
        "reward recipient must match block creator"
    );
    assert_eq!(
        validate_normal_transaction(&reward).unwrap_err(),
        "reward transactions are only valid inside mined blocks"
    );
}

#[test]
fn reward_rules_reject_wrong_kind_and_amount() {
    let w = wallet();
    let tx = create_signed_transaction(&w, "miner".to_string(), 1, String::new()).unwrap();
    assert_eq!(validate_reward_transaction(&tx, "miner").unwrap_err(), "expected reward transaction");
    let mut big = reward_transaction("miner", 1).unwrap();
    big.payload.amount = 2;
    big.id = transaction_id(&big.payload, "").unwrap();
    assert_eq!(validate_reward_transaction(&big, "miner").unwrap_err(), "invalid reward amount");
}

#[test]
fn sign_payload_needs_a_key() {
    let bad = Wallet { public_key: String::new(), secret_key: "12".to_string() };
    let payload = TransactionPayload {
        from: String::new(),
        to: String::new(),
        amount: 1,
        timestamp: 0,
        memo: String::new(),
    };
    assert_eq!(sign_payload(&bad, payload).unwrap_err(), "expected 32-byte hex value");
}

#[test]
fn wallet_keys_must_match() {
    let good = WalletFile { public_key: public_key_for_secret(SECRET).unwrap(), secret_key: SECRET.to_string() };
    let w = validate_wallet(good).unwrap();
    assert_eq!(w.secret_key, SECRET);
    let bad = WalletFile { public_key: "00".repeat(32), secret_key: SECRET.to_string() };
    assert_eq!(validate_wallet(bad).unwrap_err(), "wallet public key does not match secret key");
    let broken = WalletFile { public_key: String::new(), secret_key: "xyz".to_string() };
    assert!(validate_wallet(broken).is_err());
}
