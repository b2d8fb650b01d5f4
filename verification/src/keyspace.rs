//! The DHT keyspace: peer identifiers and the XOR distance metric, supplied
//! by libp2p's Kademlia implementation and named here for the contracts.

use vstd::prelude::*;

verus! {

/// Whether libp2p parses these bytes as a peer identifier.
pub uninterp spec fn is_valid_peer_bytes(b: Seq<u8>) -> bool;

/// The distance from the hashed key to the hashed peer identifier in the
/// Kademlia keyspace: both byte strings are hashed with SHA-256 and the
/// distance is the XOR of the digests read as a 256-bit integer, so it is a
/// pure function of the two byte strings.
pub uninterp spec fn distance_of(key: Seq<u8>, peer: Seq<u8>) -> int;

/// Relies on libp2p_identity::PeerId::from_bytes: whether bytes parse as a
/// peer identifier depends on the bytes alone (a multihash is read from
/// them), and the empty input never parses.
#[verifier::external_body]
pub(crate) fn peer_bytes_valid(b: &Vec<u8>) -> (r: bool)
    ensures
        r == is_valid_peer_bytes(b@),
        b@.len() == 0 ==> !r,
{
    libp2p::identity::PeerId::from_bytes(b.as_slice()).is_ok()
}

/// Relies on libp2p_kad's KBucketKey (Key::new, Key::distance): each key is
/// the SHA-256 digest of its bytes and distances are XORs of digests compared
/// as 256-bit integers, a total order that is a pure function of the byte
/// strings.
#[verifier::external_body]
pub(crate) fn distance_lt(key: &Vec<u8>, a: &Vec<u8>, b: &Vec<u8>) -> (r: bool)
    ensures
        r == (distance_of(key@, a@) < distance_of(key@, b@)),
{
    let k = libp2p::kad::KBucketKey::new(key.clone());
    let da = libp2p::kad::KBucketKey::new(a.clone()).distance(&k);
    let db = libp2p::kad::KBucketKey::new(b.clone()).distance(&k);
    da < db
}

} // verus!
