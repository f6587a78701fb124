use vstd::prelude::*;

verus! {

use vstd::string::StringExecFns;

/// A typed failure of one stage of the wallet pipeline. The first failing
/// stage aborts the whole operation; no stage panics on caller input.
#[derive(Clone, Copy, Debug, PartialEq, Eq, Structural)]
pub enum WalletError {
    /// Bad word, bad checksum or bad length in a mnemonic phrase.
    InvalidMnemonic,
    /// Unparseable derivation path syntax or an index out of range.
    InvalidPath,
    /// The scalar produced at the given path step was out of range.
    DerivationFailure(u32),
    /// Malformed public key bytes reaching an address encoder.
    InvalidPublicKey,
    /// An empty human-readable prefix, or one with characters outside the
    /// range bech32 admits.
    InvalidHrp,
    /// The operating system's secure randomness source failed; phrase
    /// generation aborts loudly rather than degrade.
    EntropyUnavailable,
}

/// The human-readable message reported for an error.
pub open spec fn error_message(e: WalletError) -> Seq<char> {
    match e {
        WalletError::InvalidMnemonic => "invalid mnemonic"@,
        WalletError::InvalidPath => "invalid derivation path"@,
        WalletError::DerivationFailure(_) => "derivation failed at a path step"@,
        WalletError::InvalidPublicKey => "invalid public key"@,
        WalletError::InvalidHrp => "invalid bech32 prefix"@,
        WalletError::EntropyUnavailable => "secure randomness source unavailable"@,
    }
}

impl WalletError {
    pub fn message(&self) -> (r: String)
        ensures
            r@ == error_message(*self),
    {
        match self {
            WalletError::InvalidMnemonic => String::from_str("invalid mnemonic"),
            WalletError::InvalidPath => String::from_str("invalid derivation path"),
            WalletError::DerivationFailure(_) => String::from_str("derivation failed at a path step"),
            WalletError::InvalidPublicKey => String::from_str("invalid public key"),
            WalletError::InvalidHrp => String::from_str("invalid bech32 prefix"),
            WalletError::EntropyUnavailable => String::from_str(
                "secure randomness source unavailable",
            ),
        }
    }
}

} // verus!
