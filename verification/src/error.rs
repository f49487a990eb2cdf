//! Error taxonomy shared by the chain store, the miner and the RPC layer.

use vstd::prelude::*;

verus! {

/// Everything that can go wrong while serving a request or validating
/// a transaction. Internal corruption is not represented here: verified
/// code cannot reach such a state.
#[derive(Clone, Copy, Debug, PartialEq, Eq, Structural)]
pub enum Error {
    /// Malformed or inconsistent request arguments.
    InvalidParams,
    /// A field held text that is not `0x`-prefixed hexadecimal.
    HexError,
    /// A historical-state query older than the retained state.
    UnsupportedTrieQuery,
    /// Signing or public-key recovery failed.
    ECDSAError,
    /// The requested block, transaction, receipt or account is absent.
    NotFound,
    /// A binary payload was not valid RLP.
    RlpError,
    /// Transaction validation refused the call.
    CallError,
}

} // verus!
