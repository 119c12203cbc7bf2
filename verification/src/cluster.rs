//! The decision behind the cluster API's peer removal: what to do with a
//! request, given what the dispatcher reports about the peer and whether a
//! consensus layer is running. The HTTP plumbing around it lives outside.

use vstd::prelude::*;

verus! {

/// What the cluster endpoint does with a peer-removal request.
#[derive(Clone, Copy, PartialEq, Eq, Structural, Debug)]
pub enum RemovePeerAction {
    /// Refused: shards still live on the peer.
    RefuseHasShards,
    /// Refused: no consensus layer, the deployment is not distributed.
    RefuseNotDistributed,
    /// Propose the removal to the consensus layer and await it.
    Propose,
}

/// A peer may be removed only when it holds no shards and a consensus layer
/// exists to agree on the removal.
pub fn remove_peer_decision(peer_has_shards: bool, consensus_enabled: bool) -> (r: RemovePeerAction)
    ensures
        r == (if peer_has_shards {
            RemovePeerAction::RefuseHasShards
        } else if !consensus_enabled {
            RemovePeerAction::RefuseNotDistributed
        } else {
            RemovePeerAction::Propose
        }),
{
    if peer_has_shards {
        RemovePeerAction::RefuseHasShards
    } else if !consensus_enabled {
        RemovePeerAction::RefuseNotDistributed
    } else {
        RemovePeerAction::Propose
    }
}

} // verus!
