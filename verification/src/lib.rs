//! An in-memory development node for an EVM-compatible blockchain:
//! a versioned world state of accounts, a pending-transaction queue,
//! a block-assembly pipeline, and the read side of the Ethereum
//! JSON-RPC surface, with the chain invariants stated and proved.

pub mod assoc;
pub mod bloom;
pub mod chain;
pub mod crypto;
pub mod error;
pub mod filter;
pub mod hex;
pub mod miner;
pub mod rlp;
pub mod rpc;
pub mod solidity;
pub mod state;
pub mod trie;
pub mod types;
pub mod util;
pub mod u256;

use vstd::prelude::*;

verus! {

} // verus!
