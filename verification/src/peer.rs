//! Peers and lists of peers.

use vstd::prelude::*;

verus! {

/// The identifier that the signaling server gives a peer: the 128 bits of a UUID.
pub type PeerId = u128;

/// Whether `peer` stands in `peers`.
pub fn contains_peer(peers: &Vec<PeerId>, peer: PeerId) -> (found: bool)
    ensures
        found == peers@.contains(peer),
{
    let mut i: usize = 0;
    while i < peers.len()
        invariant
            i <= peers@.len(),
            forall|j: int| 0 <= j < i ==> peers@[j] != peer,
        decreases peers@.len() - i,
    {
        if peers[i] == peer {
            return true;
        }
        i = i + 1;
    }
    false
}

} // verus!
