//! Simple control messages exchanged with the node-side tooling.

use vstd::prelude::*;

verus! {

/// A simple control message: a greeting, or a request to track a transaction
/// at a given confirmation depth.
#[derive(Debug, Clone)]
pub enum SimpleCtlMsg {
    Hello,
    Track { txid: [u8; 32], depth: u32 },
}

impl SimpleCtlMsg {
    /// Builds a tracking request for the given transaction and depth.
    pub fn new_track(txid: [u8; 32], depth: u32) -> (r: Self)
        ensures
            r matches SimpleCtlMsg::Track { txid: t, depth: d } && t@ == txid@ && d == depth,
    {
        SimpleCtlMsg::Track { txid, depth }
    }
}

} // verus!
