//! The per-connection gate of the serving session: from a resolved peer
//! identity (or the fact that resolution failed) and a fresh snapshot, decide
//! whether the connection is served the secret, and which bytes — exactly the
//! secret, or none at all — go out on it.

use vstd::prelude::*;

use crate::process_tree::is_descendant;
use crate::process_tree::is_descendant_of;
use crate::snapshot::ProcessSnapshot;

verus! {

/// How one accepted connection ends. Every connection reaches exactly one of
/// these and then closes; a rejected peer is indistinguishable on the wire
/// from a failed one, since neither is written a single byte.
#[derive(Clone, Copy, Debug, PartialEq, Eq, Structural)]
pub enum ConnectionOutcome {
    /// The peer descends from the ancestor: it is written the full secret.
    Served,
    /// The peer's identity was resolved but it does not descend from the
    /// ancestor: it is written nothing.
    RejectedUnauthorized,
    /// The peer's identity could not be resolved: it is written nothing.
    RejectedIdentityFailed,
}

/// Decide one connection against snapshot `snapshot`: `peer` is the resolved
/// peer pid, or `None` when identity resolution failed. Only a peer that is
/// the ancestor or one of its descendants on this snapshot is served.
pub fn decide_connection(
    snapshot: &ProcessSnapshot,
    peer: Option<u32>,
    ancestor: u32,
) -> (r: ConnectionOutcome)
    ensures
        r == ConnectionOutcome::Served
            <==> (peer matches Option::Some(p) && is_descendant_of(snapshot@, p, ancestor)),
        r == ConnectionOutcome::RejectedIdentityFailed <==> peer is None,
{
    match peer {
        Option::Some(p) => {
            if is_descendant(snapshot, p, ancestor) {
                ConnectionOutcome::Served
            } else {
                ConnectionOutcome::RejectedUnauthorized
            }
        }
        Option::None => ConnectionOutcome::RejectedIdentityFailed,
    }
}

/// The bytes to write on one connection: exactly the secret, byte for byte
/// with no framing added, for a peer served under the ancestry gate; nothing
/// at all — not even a zero-length confirmation — for any other peer.
pub fn connection_response(
    secret: &Vec<u8>,
    snapshot: &ProcessSnapshot,
    peer: Option<u32>,
    ancestor: u32,
) -> (r: Option<Vec<u8>>)
    ensures
        r is Some <==> (peer matches Option::Some(p) && is_descendant_of(snapshot@, p, ancestor)),
        r matches Option::Some(bytes) ==> bytes@ == secret@,
{
    let outcome = decide_connection(snapshot, peer, ancestor);
    if outcome == ConnectionOutcome::Served {
        let mut bytes: Vec<u8> = Vec::new();
        let n: usize = secret.len();
        let mut i: usize = 0;
        while i < n
            invariant
                n == secret@.len(),
                0 <= i <= n,
                bytes@ == secret@.take(i as int),
            decreases n - i,
        {
            bytes.push(secret[i]);
            proof {
                assert(secret@.take(i + 1).drop_last() =~= secret@.take(i as int));
                assert(bytes@ =~= secret@.take(i + 1));
            }
            i += 1;
        }
        proof {
            assert(secret@.take(n as int) =~= secret@);
        }
        Option::Some(bytes)
    } else {
        Option::None
    }
}

} // verus!
