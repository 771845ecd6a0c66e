//! What the gossip layer hands the node: a verified author and a payload.

use vstd::prelude::*;

verus! {

pub struct GossipMessage {
    pub author: [u8; 32],
    pub message: Vec<u8>,
}

impl GossipMessage {
    pub fn new(author: [u8; 32], message: Vec<u8>) -> (r: GossipMessage)
        ensures
            r.author@ == author@,
            r.message@ == message@,
    {
        GossipMessage { author, message }
    }
}

} // verus!
