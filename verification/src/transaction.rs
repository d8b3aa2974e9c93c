//! Signed transfers and block rewards: ids, signing and the validity rules.
use vstd::prelude::*;

use crate::crypto::{
    canonical_json, is_key_hex, key_hex_error, now_millis, sha256_hex, sign_hex, signature_holds,
    spec_public_key_hex, spec_sha256_hex, spec_sign_hex, spec_verify_hex, verify_hex, verify_hex_error,
};
use crate::json::CanonicalJson;
use crate::models::{SignedTransaction, TransactionPayload, Wallet, BLOCK_REWARD};
use crate::text::{concat, is_err_with, owned, str_equal};

verus! {

/// The id of a transaction: SHA-256 hex of the payload's canonical JSON
/// followed by the signature text.
pub open spec fn spec_transaction_id(payload: TransactionPayload, signature: Seq<char>) -> Seq<char> {
    spec_sha256_hex(payload.json_spec() + signature)
}

/// Whether a transaction's id matches its payload and signature.
pub open spec fn id_matches(tx: SignedTransaction) -> bool {
    tx.id@ == spec_transaction_id(tx.payload, tx.signature@)
}

/// A reward transaction: sent from account `"0"` with an empty signature.
pub open spec fn spec_is_reward(tx: SignedTransaction) -> bool {
    tx.payload.from@ == "0"@ && tx.signature@.len() == 0
}

/// The first rule a normal transfer breaks, apart from its signature.
pub open spec fn normal_transaction_error(tx: SignedTransaction) -> Option<Seq<char>> {
    if !id_matches(tx) {
        Some("transaction id does not match payload and signature"@)
    } else if spec_is_reward(tx) {
        Some("reward transactions are only valid inside mined blocks"@)
    } else if tx.payload.amount == 0 {
        Some("amount must be greater than zero"@)
    } else {
        None
    }
}

/// What checking a normal transfer refuses it with, if anything: the first
/// rule it breaks, or the signature check's error after "invalid signature: ".
pub open spec fn normal_validation_error(tx: SignedTransaction) -> Option<Seq<char>> {
    match normal_transaction_error(tx) {
        Some(message) => Some(message),
        None => match verify_hex_error(tx.payload.from@, tx.payload.json_spec(), tx.signature@) {
            Some(error) => Some("invalid signature: "@ + error),
            None => None,
        },
    }
}

/// A valid normal transfer: matching id, not a reward, a positive amount and a
/// signature by the sender's key over the payload's canonical JSON.
pub open spec fn spec_valid_normal(tx: SignedTransaction) -> bool {
    normal_transaction_error(tx) is None && spec_verify_hex(
        tx.payload.from@,
        tx.payload.json_spec(),
        tx.signature@,
    )
}

/// The first rule a reward transaction for `creator` breaks.
pub open spec fn reward_transaction_error(tx: SignedTransaction, creator: Seq<char>) -> Option<Seq<char>> {
    if !id_matches(tx) {
        Some("transaction id does not match payload and signature"@)
    } else if !spec_is_reward(tx) {
        Some("expected reward transaction"@)
    } else if tx.payload.to@ != creator {
        Some("reward recipient must match block creator"@)
    } else if tx.payload.amount != BLOCK_REWARD {
        Some("invalid reward amount"@)
    } else {
        None
    }
}

/// The signed transaction that `sign_payload` makes of a payload with a secret key.
pub open spec fn spec_signed_by(tx: SignedTransaction, secret_key: Seq<char>, payload: TransactionPayload) -> bool {
    &&& tx.payload == payload
    &&& tx.signature@ == spec_sign_hex(secret_key, payload.json_spec())
    &&& tx.id@ == spec_transaction_id(payload, tx.signature@)
}

/// A usable wallet: both keys are 32-byte hex values and the public key is
/// the one of the secret key.
pub open spec fn wallet_ok(w: Wallet) -> bool {
    &&& is_key_hex(w.secret_key@)
    &&& is_key_hex(w.public_key@)
    &&& w.public_key@ == spec_public_key_hex(w.secret_key@)
}

/// The id of a payload signed with `signature`.
pub fn transaction_id(payload: &TransactionPayload, signature: &str) -> (res: Result<String, String>)
    ensures
        res matches Ok(id) && id@ == spec_transaction_id(*payload, signature@),
{
    let payload_json = canonical_json(payload)?;
    let content = concat(&payload_json, signature);
    Ok(sha256_hex(&content))
}

/// Creates a transfer from the wallet's account, stamped with the current time
/// and signed with the wallet's secret key.
pub fn create_signed_transaction(wallet: &Wallet, to: String, amount: u64, memo: String) -> (res: Result<
    SignedTransaction,
    String,
>)
    ensures
        amount == 0 ==> is_err_with(res, "amount must be greater than zero"@),
        amount > 0 ==> (res is Ok <==> is_key_hex(wallet.secret_key@)),
        amount > 0 ==> (res matches Err(e) ==> e@ == key_hex_error(wallet.secret_key@)),
        res matches Ok(tx) ==> {
            &&& tx.payload.from == wallet.public_key
            &&& tx.payload.to == to
            &&& tx.payload.amount == amount
            &&& tx.payload.memo == memo
            &&& spec_signed_by(tx, wallet.secret_key@, tx.payload)
        },
        wallet_ok(*wallet) && amount > 0 ==> (res matches Ok(tx) && spec_valid_normal(tx)),
{
    if amount == 0 {
        return Err(owned("amount must be greater than zero"));
    }
    let payload = TransactionPayload {
        from: wallet.public_key.clone(),
        to,
        amount,
        timestamp: now_millis(),
        memo,
    };
    sign_payload(wallet, payload)
}

/// Signs a payload with the wallet's secret key and computes its id.
pub fn sign_payload(wallet: &Wallet, payload: TransactionPayload) -> (res: Result<SignedTransaction, String>)
    ensures
        res is Ok <==> is_key_hex(wallet.secret_key@),
        res matches Ok(tx) ==> spec_signed_by(tx, wallet.secret_key@, payload),
        res matches Ok(tx) ==> signature_holds(spec_public_key_hex(wallet.secret_key@), payload.json_spec(), tx.signature@),
        res matches Err(e) ==> e@ == key_hex_error(wallet.secret_key@),
{
    let payload_json = canonical_json(&payload)?;
    let signature = sign_hex(&wallet.secret_key, &payload_json)?;
    let id = transaction_id(&payload, &signature)?;
    Ok(SignedTransaction { id, payload, signature })
}

/// The reward transaction paid to `creator` in a block with this timestamp.
pub open spec fn spec_reward_payload(creator: Seq<char>, timestamp: u64, payload: TransactionPayload) -> bool {
    &&& payload.from@ == "0"@
    &&& payload.to@ == creator
    &&& payload.amount == BLOCK_REWARD
    &&& payload.timestamp == timestamp
    &&& payload.memo@ == "block reward"@
}

/// The reward transaction for a block's creator: from `"0"`, of `BLOCK_REWARD`,
/// with an empty signature.
pub fn reward_transaction(creator: &str, timestamp: u64) -> (res: Result<SignedTransaction, String>)
    ensures
        res matches Ok(tx) && {
            &&& spec_reward_payload(creator@, timestamp, tx.payload)
            &&& tx.signature@.len() == 0
            &&& id_matches(tx)
        },
{
    let payload = TransactionPayload {
        from: owned("0"),
        to: owned(creator),
        amount: BLOCK_REWARD,
        timestamp,
        memo: owned("block reward"),
    };
    let signature = String::new();
    let id = transaction_id(&payload, &signature)?;
    Ok(SignedTransaction { id, payload, signature })
}

/// Whether a transaction is a block reward.
pub fn is_reward_transaction(tx: &SignedTransaction) -> (res: bool)
    ensures
        res == spec_is_reward(*tx),
{
    str_equal(&tx.payload.from, "0") && tx.signature.as_str().is_empty()
}

/// Checks that a transaction's id matches its payload and signature.
pub fn validate_transaction_id(tx: &SignedTransaction) -> (res: Result<(), String>)
    ensures
        res is Ok <==> id_matches(*tx),
        !id_matches(*tx) ==> is_err_with(res, "transaction id does not match payload and signature"@),
{
    let expected = transaction_id(&tx.payload, &tx.signature)?;
    if tx.id != expected {
        return Err(owned("transaction id does not match payload and signature"));
    }
    Ok(())
}

/// Checks a normal transfer: id, not a reward, positive amount, and signature.
pub fn validate_normal_transaction(tx: &SignedTransaction) -> (res: Result<(), String>)
    ensures
        res is Ok <==> spec_valid_normal(*tx),
        normal_transaction_error(*tx) matches Some(msg) ==> is_err_with(res, msg),
        normal_transaction_error(*tx) is None && !spec_valid_normal(*tx) ==> (res matches Err(e)
            && "invalid signature: "@.is_prefix_of(e@)),
        res is Ok <==> normal_validation_error(*tx) is None,
        res matches Err(e) ==> normal_validation_error(*tx) == Some(e@),
{
    validate_transaction_id(tx)?;
    if is_reward_transaction(tx) {
        return Err(owned("reward transactions are only valid inside mined blocks"));
    }
    if tx.payload.amount == 0 {
        return Err(owned("amount must be greater than zero"));
    }
    let payload_json = canonical_json(&tx.payload)?;
    match verify_hex(&tx.payload.from, &payload_json, &tx.signature) {
        Ok(()) => Ok(()),
        Err(error) => Err(concat("invalid signature: ", &error)),
    }
}

/// Checks the reward transaction of a block made by `creator`.
pub fn validate_reward_transaction(tx: &SignedTransaction, creator: &str) -> (res: Result<(), String>)
    ensures
        res is Ok <==> reward_transaction_error(*tx, creator@) is None,
        reward_transaction_error(*tx, creator@) matches Some(msg) ==> is_err_with(res, msg),
{
    validate_transaction_id(tx)?;
    if !is_reward_transaction(tx) {
        return Err(owned("expected reward transaction"));
    }
    if !str_equal(&tx.payload.to, creator) {
        return Err(owned("reward recipient must match block creator"));
    }
    if tx.payload.amount != BLOCK_REWARD {
        return Err(owned("invalid reward amount"));
    }
    Ok(())
}

} // verus!
