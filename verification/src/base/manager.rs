//! The decisions of the download manager: which peers to connect to, which
//! to keep waiting, and what a finished file is renamed to.
use crate::bencode::decode::str_equal;
use crate::peer::peer::{Peer, PeerModel};
use vstd::prelude::*;
use vstd::string::StrSliceExecFns;

verus! {

/// The number of peers connected at most.
pub const MAX_PEERS: usize = 10;

/// A copy of a peer.
fn copy_peer(p: &Peer) -> (r: Peer)
    ensures
        r.deep_view() == p.deep_view(),
{
    Peer { ip: p.ip.clone(), port: p.port }
}

/// Whether two peers are the same.
fn same_peer(a: &Peer, b: &Peer) -> (r: bool)
    ensures
        r == (a.deep_view() == b.deep_view()),
{
    a.port == b.port && str_equal(a.ip.as_str(), b.ip.as_str())
}

/// What becomes of a peer that the tracker or a listener reports.
#[derive(Debug, Clone, Copy, PartialEq, Eq)]
pub enum Admission {
    /// It is connected or waiting already.
    Known,
    /// Connect to it now.
    Connect,
    /// Too many peers are connected: it waits its turn.
    Wait,
}

/// The peers connected, and those waiting for a free place, in order.
#[derive(Debug)]
pub struct PeerPool {
    peers: Vec<Peer>,
    waiting: Vec<(bool, Peer)>,
}

/// The model of a waiting entry.
pub open spec fn waiting_model(w: (bool, Peer)) -> (bool, PeerModel) {
    (w.0, w.1.deep_view())
}

impl PeerPool {
    /// The connected peers.
    pub closed spec fn peers_view(&self) -> Seq<PeerModel> {
        self.peers@.map_values(|p: Peer| p.deep_view())
    }

    /// The waiting peers, each with whether we send the handshake first.
    pub closed spec fn waiting_view(&self) -> Seq<(bool, PeerModel)> {
        self.waiting@.map_values(|w: (bool, Peer)| waiting_model(w))
    }

    /// No peer connected, none waiting.
    pub fn new() -> (r: PeerPool)
        ensures
            r.peers_view() == Seq::<PeerModel>::empty(),
            r.waiting_view() == Seq::<(bool, PeerModel)>::empty(),
    {
        let r = PeerPool { peers: Vec::new(), waiting: Vec::new() };
        assert(r.peers_view() =~= Seq::<PeerModel>::empty());
        assert(r.waiting_view() =~= Seq::<(bool, PeerModel)>::empty());
        r
    }

    /// The number of connected peers.
    pub fn len(&self) -> (r: usize)
        ensures
            r == self.peers_view().len(),
    {
        self.peers.len()
    }

    fn find(&self, peer: &Peer) -> (r: Option<usize>)
        ensures
            match r {
                Some(i) => i < self.peers_view().len() && self.peers_view()[i as int]
                    == peer.deep_view() && forall|j: int|
                    0 <= j < i ==> #[trigger] self.peers_view()[j] != peer.deep_view(),
                None => !self.peers_view().contains(peer.deep_view()),
            },
    {
        let mut i: usize = 0;
        while i < self.peers.len()
            invariant
                i <= self.peers@.len(),
                forall|j: int| 0 <= j < i ==> #[trigger] self.peers_view()[j] != peer.deep_view(),
            decreases self.peers@.len() - i,
        {
            if same_peer(&self.peers[i], peer) {
                return Some(i);
            }
            i = i + 1;
        }
        None
    }

    fn is_waiting(&self, first: bool, peer: &Peer) -> (r: bool)
        ensures
            r == self.waiting_view().contains((first, peer.deep_view())),
    {
        let mut i: usize = 0;
        while i < self.waiting.len()
            invariant
                i <= self.waiting@.len(),
                forall|j: int| 0 <= j < i ==> #[trigger] self.waiting_view()[j] != (first, peer.deep_view()),
            decreases self.waiting@.len() - i,
        {
            if self.waiting[i].0 == first && same_peer(&self.waiting[i].1, peer) {
                assert(self.waiting_view()[i as int] == (first, peer.deep_view()));
                return true;
            }
            i = i + 1;
        }
        false
    }

    /// Takes in a reported peer: a known one is left alone, a new one is
    /// connected while fewer than ten are, and waits otherwise.
    pub fn take_in(&mut self, first: bool, peer: Peer) -> (r: Admission)
        ensures
            ({
                let known = old(self).peers_view().contains(peer.deep_view())
                    || old(self).waiting_view().contains((first, peer.deep_view()));
                &&& known ==> r == Admission::Known && final(self).peers_view() == old(
                    self,
                ).peers_view() && final(self).waiting_view() == old(self).waiting_view()
                &&& (!known && old(self).peers_view().len() < MAX_PEERS) ==> r == Admission::Connect
                    && final(self).peers_view() == old(self).peers_view().push(peer.deep_view())
                    && final(self).waiting_view() == old(self).waiting_view()
                &&& (!known && old(self).peers_view().len() >= MAX_PEERS) ==> r == Admission::Wait
                    && final(self).peers_view() == old(self).peers_view()
                    && final(self).waiting_view() == old(self).waiting_view().push(
                    (first, peer.deep_view()),
                )
            }),
    {
        if self.find(&peer).is_some() || self.is_waiting(first, &peer) {
            Admission::Known
        } else if self.peers.len() < MAX_PEERS {
            let ghost before = self.peers@;
            self.peers.push(peer);
            assert(self.peers_view() =~= before.map_values(|p: Peer| p.deep_view()).push(
                self.peers@.last().deep_view(),
            ));
            Admission::Connect
        } else {
            let ghost before = self.waiting@;
            self.waiting.push((first, peer));
            assert(self.waiting_view() =~= before.map_values(|w: (bool, Peer)| waiting_model(w)).push(
                waiting_model(self.waiting@.last()),
            ));
            Admission::Wait
        }
    }

    /// Forgets a peer that disconnected.
    pub fn disconnected(&mut self, peer: &Peer)
        ensures
            final(self).waiting_view() == old(self).waiting_view(),
            without(old(self).peers_view(), final(self).peers_view(), peer.deep_view()),
    {
        match self.find(peer) {
            Some(i) => {
                let ghost before = self.peers@;
                self.peers.remove(i);
                assert(self.peers_view() =~= before.map_values(|p: Peer| p.deep_view()).remove(
                    i as int,
                ));
            },
            None => {},
        }
    }

    /// Replaces a peer that could not be reached: it is forgotten, and the
    /// first waiting peer, if any, is connected in its place.
    pub fn replace(&mut self, failed: &Peer) -> (r: Option<(bool, Peer)>)
        ensures
            old(self).waiting_view().len() == 0 ==> r is None && final(self).waiting_view() == old(
                self,
            ).waiting_view() && without(
                old(self).peers_view(),
                final(self).peers_view(),
                failed.deep_view(),
            ),
            old(self).waiting_view().len() > 0 ==> (r matches Some(w) && waiting_model(w) == old(
                self,
            ).waiting_view()[0] && final(self).waiting_view() == old(self).waiting_view().drop_first()
                && final(self).peers_view().len() > 0 && final(self).peers_view().last()
                == w.1.deep_view() && without(
                old(self).peers_view(),
                final(self).peers_view().drop_last(),
                failed.deep_view(),
            )),
    {
        self.disconnected(failed);
        if self.waiting.len() > 0 {
            let ghost before = self.waiting@;
            let (first, peer) = self.waiting.remove(0);
            assert(self.waiting_view() =~= before.map_values(|w: (bool, Peer)| waiting_model(w)).drop_first());
            let copy = copy_peer(&peer);
            let ghost pb = self.peers_view();
            self.peers.push(copy);
            assert(self.peers_view().drop_last() =~= pb);
            assert(self.peers_view().last() == self.peers@.last().deep_view());
            Some((first, peer))
        } else {
            None
        }
    }
}

/// `b` is `a` without its first entry `p`, or `a` itself when `p` is not
/// there.
pub open spec fn without(a: Seq<PeerModel>, b: Seq<PeerModel>, p: PeerModel) -> bool {
    if a.contains(p) {
        exists|i: int|
            0 <= i < a.len() && a[i] == p && (forall|j: int| 0 <= j < i ==> #[trigger] a[j] != p) && b
                == a.remove(i)
    } else {
        b == a
    }
}

/// The name of a finished file: its temporary name without `.temp`; `None`
/// for a name that does not end with it.
pub fn completed_name(name: &str) -> (r: Option<String>)
    ensures
        ({
            let n = name@.len() as int;
            let done = n >= 5 && name@.subrange(n - 5, n) == ".temp"@;
            &&& done ==> (r matches Some(s) && s@ == name@.subrange(0, n - 5))
            &&& !done ==> r is None
        }),
{
    let n = name.unicode_len();
    if n >= 5 {
        let tail = name.substring_char(n - 5, n);
        if str_equal(tail, ".temp") {
            let head = name.substring_char(0, n - 5);
            return Some(head.to_owned());
        }
    }
    None
}

} // verus!
