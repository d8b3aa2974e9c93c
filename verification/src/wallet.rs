//! Checking a node's wallet: its public key must belong to its secret key.
use vstd::prelude::*;

use crate::crypto::{is_key_hex, public_key_for_secret, spec_public_key_hex};
use crate::models::{Wallet, WalletFile};
use crate::transaction::wallet_ok;
use crate::text::{is_err_with, owned};

verus! {

/// Accepts a wallet read from disk when its public key is the one of its
/// secret key.
pub fn validate_wallet(wallet: WalletFile) -> (res: Result<Wallet, String>)
    ensures
        res is Ok <==> is_key_hex(wallet.secret_key@) && wallet.public_key@ == spec_public_key_hex(
            wallet.secret_key@,
        ),
        res matches Ok(w) ==> w.public_key == wallet.public_key && w.secret_key == wallet.secret_key,
        res matches Ok(w) ==> wallet_ok(w),
        is_key_hex(wallet.secret_key@) && wallet.public_key@ != spec_public_key_hex(wallet.secret_key@)
            ==> is_err_with(res, "wallet public key does not match secret key"@),
{
    let expected_public = public_key_for_secret(&wallet.secret_key)?;
    if wallet.public_key != expected_public {
        return Err(owned("wallet public key does not match secret key"));
    }
    Ok(Wallet { public_key: wallet.public_key, secret_key: wallet.secret_key })
}

} // verus!
