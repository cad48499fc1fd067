//! The handshake that opens a peer connection: the protocol's name, eight
//! reserved bytes, the info hash of the torrent and the sender's peer id.
use crate::base::download::push_text;
use crate::bencode::decode::str_bytes;
use crate::bencode::hash::{lemma_ascii_valid, Sha1};
use vstd::prelude::*;
use vstd::utf8::{encode_utf8, valid_utf8};

verus! {

/// The name of the protocol, which a handshake starts with.
pub const PROTOCOL: &'static str = "BitTorrent protocol";

/// The bytes of the handshake that we send: the length of the protocol's
/// name, the name, eight zero bytes, the info hash and our peer id.
pub open spec fn handshake_bytes(info_hash: Seq<u8>, peer_id: Seq<char>) -> Seq<u8> {
    seq![19u8] + encode_utf8(PROTOCOL@) + Seq::new(8, |i: int| 0u8) + info_hash + encode_utf8(
        peer_id,
    )
}

/// Why a received handshake is refused.
#[derive(Debug, Clone, Copy, PartialEq, Eq)]
pub enum HandshakeError {
    /// The peer serves another torrent.
    InvalidInfoHash,
    /// The peer is ourselves.
    ConnectingToSelf,
}

/// The handshake that we send.
pub fn handshake_message(info_hash: &Sha1, our_peer_id: &str) -> (r: Vec<u8>)
    ensures
        r@ == handshake_bytes(info_hash@, our_peer_id@),
{
    let mut message: Vec<u8> = Vec::new();
    message.push(19);
    proof {
        reveal_strlit("BitTorrent protocol");
        lemma_ascii_valid(message@);
    }
    push_text(&mut message, PROTOCOL);
    let mut i: usize = 0;
    let ghost start = message@;
    while i < 8
        invariant
            i <= 8,
            message@ == start + Seq::new(i as nat, |k: int| 0u8),
        decreases 8 - i,
    {
        message.push(0);
        assert(message@ =~= start + Seq::new((i + 1) as nat, |k: int| 0u8));
        i = i + 1;
    }
    let mut k: usize = 0;
    let ghost mid = message@;
    while k < 20
        invariant
            k <= 20,
            message@ == mid + info_hash@.take(k as int),
            info_hash@.len() == 20,
        decreases 20 - k,
    {
        message.push(info_hash.0[k]);
        assert(message@ =~= mid + info_hash@.take(k + 1));
        k = k + 1;
    }
    assert(info_hash@.take(20) =~= info_hash@);
    let id = str_bytes(our_peer_id);
    let mut j: usize = 0;
    let ghost before_id = message@;
    while j < id.len()
        invariant
            j <= id@.len(),
            message@ == before_id + id@.take(j as int),
        decreases id@.len() - j,
    {
        message.push(id[j]);
        assert(message@ =~= before_id + id@.take(j + 1));
        j = j + 1;
    }
    assert(id@.take(id@.len() as int) =~= id@);
    assert(message@ =~= handshake_bytes(info_hash@, our_peer_id@));
    message
}

/// Checks the info hash and peer id of a received handshake: the info hash
/// must be ours, and the peer id must not be.
pub fn check_handshake(
    info_hash: &[u8],
    peer_id: &[u8],
    our_info_hash: &Sha1,
    our_peer_id: &str,
) -> (r: Result<(), HandshakeError>)
    ensures
        info_hash@ != our_info_hash@ ==> r == Err::<(), HandshakeError>(
            HandshakeError::InvalidInfoHash,
        ),
        info_hash@ == our_info_hash@ && peer_id@ == encode_utf8(our_peer_id@) ==> r == Err::<
            (),
            HandshakeError,
        >(HandshakeError::ConnectingToSelf),
        info_hash@ == our_info_hash@ && peer_id@ != encode_utf8(our_peer_id@) ==> r is Ok,
{
    if !same_bytes(info_hash, our_info_hash.0.as_slice()) {
        return Err(HandshakeError::InvalidInfoHash);
    }
    if same_bytes(peer_id, str_bytes(our_peer_id)) {
        return Err(HandshakeError::ConnectingToSelf);
    }
    Ok(())
}

/// Whether two byte strings are equal.
fn same_bytes(a: &[u8], b: &[u8]) -> (r: bool)
    ensures
        r == (a@ == b@),
{
    if a.len() != b.len() {
        return false;
    }
    let mut i: usize = 0;
    while i < a.len()
        invariant
            a@.len() == b@.len(),
            i <= a@.len(),
            forall|j: int| 0 <= j < i ==> a@[j] == b@[j],
        decreases a@.len() - i,
    {
        if a[i] != b[i] {
            return false;
        }
        i = i + 1;
    }
    assert(a@ =~= b@);
    true
}

/// The fields that a receiver reads from a handshake we send: a protocol
/// name of nineteen bytes, eight reserved bytes, then the info hash and our
/// peer id, which `check_handshake` is given.
pub proof fn lemma_handshake_fields(info_hash: Seq<u8>, peer_id: Seq<char>)
    requires
        info_hash.len() == 20,
    ensures
        handshake_bytes(info_hash, peer_id)[0] == 19,
        handshake_bytes(info_hash, peer_id).subrange(28, 48) == info_hash,
        handshake_bytes(info_hash, peer_id).skip(48) == encode_utf8(peer_id),
{
    reveal_strlit("BitTorrent protocol");
    let name = encode_utf8(PROTOCOL@);
    assert(name.len() == 19) by {
        reveal_with_fuel(encode_utf8, 20);
    }
    let h = handshake_bytes(info_hash, peer_id);
    assert(h.subrange(28, 48) =~= info_hash);
    assert(h.skip(48) =~= encode_utf8(peer_id));
}

} // verus!
