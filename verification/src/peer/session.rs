//! The decisions of one peer connection: who is choked, who is interested,
//! which blocks to request and which requested blocks to upload.  The
//! connection itself (the socket, the channels to the download) performs
//! the actions that these decisions return.
use crate::base::download::BLOCK_SIZE;
use crate::base::ipc::{Ipc, IpcModel};
use crate::peer::bitfield::{bitfield_bytes, bitfield_pieces, is_bitfield_of, pieces_of};
use crate::peer::message::{Message, MessageModel};
use crate::peer::request_queue::{
    distinct_blocks, lemma_remove_forgets, queue_add, queue_has, queue_remove, RequestMetadata,
    RequestQueue,
};
use vstd::prelude::*;

verus! {

/// The number of requests kept outstanding at most.
pub const MAX_CONCURRENT_REQUESTS: u32 = 10;

// ----- blocks waiting to be requested -----

/// Whether entry `e` of the waiting blocks is for the given block.
pub open spec fn pending_for(e: (u32, u32, u32), piece_index: u32, block_index: u32) -> bool {
    e.0 == piece_index && e.1 == block_index
}

/// Whether a block waits to be requested.
pub open spec fn pending_has(t: Seq<(u32, u32, u32)>, piece_index: u32, block_index: u32) -> bool {
    exists|i: int| 0 <= i < t.len() && pending_for(#[trigger] t[i], piece_index, block_index)
}

/// The place of the first waiting entry for the given block.
pub open spec fn pending_index(t: Seq<(u32, u32, u32)>, piece_index: u32, block_index: u32) -> int {
    choose|i: int|
        0 <= i < t.len() && pending_for(t[i], piece_index, block_index) && forall|j: int|
            0 <= j < i ==> !pending_for(#[trigger] t[j], piece_index, block_index)
}

/// The waiting blocks after putting one in: its entry is replaced when it
/// is there, and added at the end when not.
pub open spec fn pending_insert(t: Seq<(u32, u32, u32)>, piece_index: u32, block_index: u32, length: u32) -> Seq<
    (u32, u32, u32),
> {
    if pending_has(t, piece_index, block_index) {
        t.update(pending_index(t, piece_index, block_index), (piece_index, block_index, length))
    } else {
        t.push((piece_index, block_index, length))
    }
}

/// The waiting blocks after taking one out.
pub open spec fn pending_remove(t: Seq<(u32, u32, u32)>, piece_index: u32, block_index: u32) -> Seq<
    (u32, u32, u32),
> {
    if pending_has(t, piece_index, block_index) {
        t.remove(pending_index(t, piece_index, block_index))
    } else {
        t
    }
}

/// No two waiting entries are for the same block.
pub open spec fn pending_distinct(t: Seq<(u32, u32, u32)>) -> bool {
    forall|i: int, j: int|
        0 <= i < j < t.len() ==> !pending_for(#[trigger] t[i], (#[trigger] t[j]).0, t[j].1)
}

/// The blocks waiting to be requested, as (piece, block, length); a block
/// waits at most once.
#[derive(Debug)]
pub struct PendingBlocks {
    entries: Vec<(u32, u32, u32)>,
}

impl View for PendingBlocks {
    type V = Seq<(u32, u32, u32)>;

    closed spec fn view(&self) -> Seq<(u32, u32, u32)> {
        self.entries@
    }
}

impl PendingBlocks {
    #[verifier::type_invariant]
    closed spec fn wf(&self) -> bool {
        pending_distinct(self.entries@)
    }

    pub fn new() -> (r: PendingBlocks)
        ensures
            r@ == Seq::<(u32, u32, u32)>::empty(),
            pending_distinct(r@),
    {
        PendingBlocks { entries: Vec::new() }
    }

    fn position(&self, piece_index: u32, block_index: u32) -> (r: Option<usize>)
        ensures
            match r {
                Some(i) => i < self@.len() && i == pending_index(self@, piece_index, block_index)
                    && pending_has(self@, piece_index, block_index),
                None => !pending_has(self@, piece_index, block_index),
            },
    {
        let mut i: usize = 0;
        while i < self.entries.len()
            invariant
                i <= self.entries@.len(),
                forall|k: int|
                    0 <= k < i ==> !pending_for(#[trigger] self.entries@[k], piece_index, block_index),
            decreases self.entries@.len() - i,
        {
            let e = self.entries[i];
            if e.0 == piece_index && e.1 == block_index {
                proof {
                    let t = self.entries@;
                    assert(pending_for(t[i as int], piece_index, block_index));
                    let c = pending_index(t, piece_index, block_index);
                    if c < i {
                        assert(!pending_for(t[c], piece_index, block_index));
                    }
                    if i < c {
                        assert(!pending_for(t[i as int], piece_index, block_index));
                    }
                }
                return Some(i);
            }
            i = i + 1;
        }
        None
    }

    /// Puts a block in, replacing its entry when it is there.
    pub fn insert(&mut self, piece_index: u32, block_index: u32, length: u32)
        ensures
            final(self)@ == pending_insert(old(self)@, piece_index, block_index, length),
            pending_distinct(final(self)@),
    {
        proof {
            use_type_invariant(&*self);
        }
        let ghost before = self.entries@;
        let mut entries: Vec<(u32, u32, u32)> = Vec::new();
        match self.position(piece_index, block_index) {
            Some(i) => {
                std::mem::swap(&mut entries, &mut self.entries);
                entries.set(i, (piece_index, block_index, length));
                assert forall|x: int, y: int|
                    0 <= x < y < entries@.len() implies !pending_for(
                    #[trigger] entries@[x],
                    (#[trigger] entries@[y]).0,
                    entries@[y].1,
                ) by {
                    assert(pending_for(before[i as int], piece_index, block_index));
                    if x == i {
                        assert(!pending_for(before[x], before[y].0, before[y].1));
                    } else if y == i {
                        assert(!pending_for(before[x], before[y].0, before[y].1));
                    } else {
                        assert(!pending_for(before[x], before[y].0, before[y].1));
                    }
                }
                self.entries = entries;
            },
            None => {
                std::mem::swap(&mut entries, &mut self.entries);
                entries.push((piece_index, block_index, length));
                assert forall|x: int, y: int|
                    0 <= x < y < entries@.len() implies !pending_for(
                    #[trigger] entries@[x],
                    (#[trigger] entries@[y]).0,
                    entries@[y].1,
                ) by {
                    if y == before.len() {
                        assert(!pending_for(before[x], piece_index, block_index));
                    } else {
                        assert(!pending_for(before[x], before[y].0, before[y].1));
                    }
                }
                self.entries = entries;
            },
        }
    }

    /// Takes a block out, if it is there; it then no longer waits.
    pub fn remove(&mut self, piece_index: u32, block_index: u32)
        ensures
            final(self)@ == pending_remove(old(self)@, piece_index, block_index),
            !pending_has(final(self)@, piece_index, block_index),
            pending_distinct(final(self)@),
    {
        proof {
            use_type_invariant(&*self);
        }
        let ghost before = self.entries@;
        match self.position(piece_index, block_index) {
            Some(i) => {
                let mut entries: Vec<(u32, u32, u32)> = Vec::new();
                std::mem::swap(&mut entries, &mut self.entries);
                entries.remove(i);
                assert(entries@ =~= before.remove(i as int));
                assert forall|k: int| 0 <= k < entries@.len() implies !pending_for(
                    #[trigger] entries@[k],
                    piece_index,
                    block_index,
                ) by {
                    if k < i {
                        assert(entries@[k] == before[k]);
                        assert(!pending_for(before[k], before[i as int].0, before[i as int].1));
                    } else {
                        assert(entries@[k] == before[k + 1]);
                        assert(!pending_for(before[i as int], before[k + 1].0, before[k + 1].1));
                    }
                }
                assert forall|x: int, y: int|
                    0 <= x < y < entries@.len() implies !pending_for(
                    #[trigger] entries@[x],
                    (#[trigger] entries@[y]).0,
                    entries@[y].1,
                ) by {
                    let bx = if x < i { x } else { x + 1 };
                    let by_ = if y < i { y } else { y + 1 };
                    assert(entries@[x] == before[bx]);
                    assert(entries@[y] == before[by_]);
                    assert(!pending_for(before[bx], before[by_].0, before[by_].1));
                }
                self.entries = entries;
            },
            None => {},
        }
    }

    /// Takes the first waiting block.
    pub fn take_first(&mut self) -> (r: Option<(u32, u32, u32)>)
        ensures
            old(self)@.len() == 0 ==> r is None && final(self)@ == old(self)@,
            old(self)@.len() > 0 ==> r == Some(old(self)@[0]) && final(self)@ == old(
                self,
            )@.drop_first(),
            pending_distinct(final(self)@),
    {
        proof {
            use_type_invariant(&*self);
        }
        if self.entries.len() > 0 {
            let ghost before = self.entries@;
            let mut entries: Vec<(u32, u32, u32)> = Vec::new();
            std::mem::swap(&mut entries, &mut self.entries);
            let r = entries.remove(0);
            assert(entries@ =~= before.drop_first());
            assert forall|x: int, y: int|
                0 <= x < y < entries@.len() implies !pending_for(
                #[trigger] entries@[x],
                (#[trigger] entries@[y]).0,
                entries@[y].1,
            ) by {
                assert(!pending_for(before[x + 1], before[y + 1].0, before[y + 1].1));
            }
            self.entries = entries;
            Some(r)
        } else {
            None
        }
    }

    pub fn len(&self) -> (r: usize)
        ensures
            r == self@.len(),
    {
        self.entries.len()
    }
}

// ----- the model of a connection -----

/// The model of one side of a connection.
#[verifier::ext_equal]
pub struct SideModel {
    pub has: Seq<bool>,
    pub choked: bool,
    pub interested: bool,
    pub requests: Seq<RequestMetadata>,
}

/// The model of a connection.
#[verifier::ext_equal]
pub struct SessionModel {
    pub halt: bool,
    pub me: SideModel,
    pub he: SideModel,
    pub pending: Seq<(u32, u32, u32)>,
    pub uploading: bool,
}

/// What the connection is to do.
#[derive(Debug)]
pub enum Action {
    /// Send this message to the remote peer.
    Send(Message),
    /// Hand this block, received from the remote peer, to the download.
    Download(u32, u32, Vec<u8>),
    /// Fetch the data of this request from the download, and send it to
    /// the remote peer as a piece.
    Upload(RequestMetadata),
}

/// The model of an action.
pub enum ActionModel {
    Send(MessageModel),
    Download(u32, u32, Seq<u8>),
    Upload(RequestMetadata),
}

impl DeepView for Action {
    type V = ActionModel;

    open spec fn deep_view(&self) -> ActionModel {
        match self {
            Action::Send(m) => ActionModel::Send(m.deep_view()),
            Action::Download(p, o, d) => ActionModel::Download(*p, *o, d@),
            Action::Upload(r) => ActionModel::Upload(*r),
        }
    }
}

/// What one side of a connection has and wants.
#[derive(Debug)]
pub struct PeerMetadata {
    pub has_pieces: Vec<bool>,
    pub is_choked: bool,
    pub is_interested: bool,
    pub requests: RequestQueue,
}

impl PeerMetadata {
    /// A side that has these pieces, choked and not interested.
    pub fn new(has_pieces: Vec<bool>) -> (r: PeerMetadata)
        ensures
            r.has_pieces@ == has_pieces@,
            r.is_choked,
            !r.is_interested,
            r.requests@ == Seq::<RequestMetadata>::empty(),
    {
        PeerMetadata { has_pieces, is_choked: true, is_interested: false, requests: RequestQueue::new() }
    }

    pub open spec fn model(&self) -> SideModel {
        SideModel {
            has: self.has_pieces@,
            choked: self.is_choked,
            interested: self.is_interested,
            requests: self.requests@,
        }
    }
}

// ----- the decisions, stated -----

/// Puts the missing blocks of a piece among the waiting blocks, but for
/// those already requested.
pub open spec fn spec_queue_blocks(s: SessionModel, piece_index: u32, blocks: Seq<(u32, u32)>) -> SessionModel
    decreases blocks.len(),
{
    if blocks.len() == 0 {
        s
    } else {
        let s1 = spec_queue_blocks(s, piece_index, blocks.drop_last());
        let (b, len) = blocks.last();
        if queue_has(s1.me.requests, piece_index, b) {
            s1
        } else {
            SessionModel { pending: pending_insert(s1.pending, piece_index, b, len), ..s1 }
        }
    }
}

/// Queues the blocks of several pieces, each with its own missing blocks.
pub open spec fn spec_queue_all(s: SessionModel, pieces: Seq<u32>, blocks: Seq<Seq<(u32, u32)>>) -> SessionModel
    decreases pieces.len(),
{
    if pieces.len() == 0 || blocks.len() == 0 {
        s
    } else {
        spec_queue_all(
            spec_queue_blocks(s, pieces[0], blocks[0]),
            pieces.drop_first(),
            blocks.drop_first(),
        )
    }
}

/// We are interested when we have requests out or blocks waiting; a change
/// is told to the remote peer.
pub open spec fn spec_update_interest(s: SessionModel) -> (SessionModel, Seq<ActionModel>) {
    let am = s.me.requests.len() > 0 || s.pending.len() > 0;
    if s.me.interested != am {
        (
            SessionModel { me: SideModel { interested: am, ..s.me }, ..s },
            seq![
                ActionModel::Send(
                    if am {
                        MessageModel::Interested
                    } else {
                        MessageModel::NotInterested
                    },
                ),
            ],
        )
    } else {
        (s, seq![])
    }
}

/// Requests waiting blocks, first come first, until the requests out reach
/// the limit.
pub open spec fn spec_request_loop(s: SessionModel) -> (SessionModel, Seq<ActionModel>)
    decreases s.pending.len(),
{
    if s.me.requests.len() >= MAX_CONCURRENT_REQUESTS || s.pending.len() == 0 {
        (s, seq![])
    } else {
        let (p, b, len) = s.pending[0];
        let s1 = SessionModel { pending: s.pending.drop_first(), ..s };
        let offset = b.wrapping_mul(BLOCK_SIZE);
        if !queue_has(s1.me.requests, p, b) {
            let s2 = SessionModel {
                me: SideModel { requests: queue_add(s1.me.requests, p, b, offset, len), ..s1.me },
                ..s1
            };
            let (s3, acts) = spec_request_loop(s2);
            (s3, seq![ActionModel::Send(MessageModel::Request(p, offset, len))] + acts)
        } else {
            spec_request_loop(s1)
        }
    }
}

/// Requests more blocks, when we are unchoked, interested, and have blocks
/// waiting.
pub open spec fn spec_request_more(s: SessionModel) -> (SessionModel, Seq<ActionModel>) {
    if s.me.choked || !s.me.interested || s.pending.len() == 0 {
        (s, seq![])
    } else {
        spec_request_loop(s)
    }
}

/// Uploads the oldest request of the remote peer, when no upload is under
/// way and the peer is unchoked and interested.
pub open spec fn spec_upload_next(s: SessionModel) -> (SessionModel, Seq<ActionModel>) {
    if s.uploading || s.he.choked || !s.he.interested || s.he.requests.len() == 0 {
        (s, seq![])
    } else {
        (
            SessionModel {
                he: SideModel { requests: s.he.requests.drop_first(), ..s.he },
                uploading: true,
                ..s
            },
            seq![ActionModel::Upload(s.he.requests[0])],
        )
    }
}

/// Updates the interest, then requests more blocks.
pub open spec fn spec_interest_and_request(s: SessionModel) -> (SessionModel, Seq<ActionModel>) {
    let (s1, a1) = spec_update_interest(s);
    let (s2, a2) = spec_request_more(s1);
    (s2, a1 + a2)
}

/// The pieces whose missing blocks a message needs: the piece of a `Have`,
/// the pieces that a bitfield sets.
pub open spec fn spec_pieces_to_query(s: SessionModel, m: MessageModel) -> Seq<u32> {
    match m {
        MessageModel::Have(i) => seq![i],
        MessageModel::Bitfield(bytes) => set_pieces(pieces_of(bytes, s.he.has.len() as int)),
        _ => seq![],
    }
}

/// The indices of the set entries.
pub open spec fn set_pieces(has: Seq<bool>) -> Seq<u32>
    decreases has.len(),
{
    if has.len() == 0 {
        seq![]
    } else if has.last() {
        set_pieces(has.drop_last()).push((has.len() - 1) as u32)
    } else {
        set_pieces(has.drop_last())
    }
}

/// Whether a message from the remote peer can be processed: its piece
/// exists, and its bitfield covers every piece.
pub open spec fn spec_processable(s: SessionModel, m: MessageModel) -> bool {
    match m {
        MessageModel::Have(i) => i < s.he.has.len(),
        MessageModel::Bitfield(bytes) => s.he.has.len() <= 8 * bytes.len(),
        MessageModel::Port => false,
        _ => true,
    }
}

/// What a message from the remote peer does, given the missing blocks of
/// the pieces it needs.
pub open spec fn spec_process_message(
    s: SessionModel,
    m: MessageModel,
    blocks: Seq<Seq<(u32, u32)>>,
) -> (SessionModel, Seq<ActionModel>) {
    match m {
        MessageModel::KeepAlive => (s, seq![]),
        MessageModel::Choke => (SessionModel { me: SideModel { choked: true, ..s.me }, ..s }, seq![]),
        MessageModel::Unchoke => if s.me.choked {
            spec_request_more(SessionModel { me: SideModel { choked: false, ..s.me }, ..s })
        } else {
            (s, seq![])
        },
        MessageModel::Interested => {
            let s1 = SessionModel { he: SideModel { interested: true, ..s.he }, ..s };
            if s1.he.choked {
                let s2 = SessionModel { he: SideModel { choked: false, ..s1.he }, ..s1 };
                let (s3, a) = spec_upload_next(s2);
                (s3, seq![ActionModel::Send(MessageModel::Unchoke)] + a)
            } else {
                (s1, seq![])
            }
        },
        MessageModel::NotInterested => (
            SessionModel { he: SideModel { interested: false, ..s.he }, ..s },
            seq![],
        ),
        MessageModel::Have(i) => {
            let s1 = SessionModel {
                he: SideModel { has: s.he.has.update(i as int, true), ..s.he },
                ..s
            };
            spec_interest_and_request(spec_queue_all(s1, seq![i], blocks))
        },
        MessageModel::Bitfield(bytes) => {
            let has = pieces_of(bytes, s.he.has.len() as int);
            let s1 = SessionModel { he: SideModel { has, ..s.he }, ..s };
            spec_interest_and_request(spec_queue_all(s1, set_pieces(has), blocks))
        },
        MessageModel::Request(p, offset, length) => {
            let b = offset / BLOCK_SIZE;
            let s1 = SessionModel {
                he: SideModel { requests: queue_add(s.he.requests, p, b, offset, length), ..s.he },
                ..s
            };
            spec_upload_next(s1)
        },
        MessageModel::Piece(p, offset, data) => {
            let b = offset / BLOCK_SIZE;
            let s1 = SessionModel {
                me: SideModel { requests: queue_remove(s.me.requests, p, b), ..s.me },
                ..s
            };
            let (s2, a) = spec_interest_and_request(s1);
            (s2, seq![ActionModel::Download(p, offset, data)] + a)
        },
        MessageModel::Cancel(p, offset, _) => {
            let b = offset / BLOCK_SIZE;
            (
                SessionModel {
                    he: SideModel { requests: queue_remove(s.he.requests, p, b), ..s.he },
                    ..s
                },
                seq![],
            )
        },
        MessageModel::Port => (s, seq![]),
    }
}

/// What a notice from the download, or from the writer, does.
pub open spec fn spec_process_ipc(s: SessionModel, ipc: IpcModel) -> (SessionModel, Seq<ActionModel>) {
    match ipc {
        IpcModel::BlockComplete(p, b) => {
            let s1 = SessionModel {
                pending: pending_remove(s.pending, p, b),
                me: SideModel { requests: queue_remove(s.me.requests, p, b), ..s.me },
                ..s
            };
            if queue_has(s.me.requests, p, b) {
                let r = s.me.requests[crate::peer::request_queue::first_request(s.me.requests, p, b)];
                (s1, seq![ActionModel::Send(MessageModel::Cancel(r.piece_index, r.offset, r.block_length))])
            } else {
                (s1, seq![])
            }
        },
        IpcModel::PieceComplete(p) => {
            let s1 = SessionModel { me: SideModel { has: s.me.has.update(p as int, true), ..s.me }, ..s };
            let (s2, a) = spec_update_interest(s1);
            (s2, a + seq![ActionModel::Send(MessageModel::Have(p))])
        },
        IpcModel::DownloadComplete => spec_update_interest(s),
        IpcModel::BlockUploaded => spec_upload_next(SessionModel { uploading: false, ..s }),
        IpcModel::Message(_) => (s, seq![]),
    }
}

/// A well-formed connection: a block waits at most once, and each side
/// requests a block at most once.
pub open spec fn session_wf(s: SessionModel) -> bool {
    &&& pending_distinct(s.pending)
    &&& distinct_blocks(s.me.requests)
    &&& distinct_blocks(s.he.requests)
}

/// A cancel from the remote peer takes back its request for the block:
/// afterwards the peer requests that block no more, every other block it
/// requested stays requested, nothing is sent, and the rest of the
/// connection is as it was.
pub proof fn lemma_cancel_forgets(
    s: SessionModel,
    p: u32,
    offset: u32,
    length: u32,
    blocks: Seq<Seq<(u32, u32)>>,
    p2: u32,
    b2: u32,
)
    requires
        session_wf(s),
    ensures
        ({
            let (s2, acts) = spec_process_message(s, MessageModel::Cancel(p, offset, length), blocks);
            &&& !queue_has(s2.he.requests, p, offset / BLOCK_SIZE)
            &&& !(p2 == p && b2 == offset / BLOCK_SIZE) ==> queue_has(s2.he.requests, p2, b2)
                == queue_has(s.he.requests, p2, b2)
            &&& acts.len() == 0
            &&& s2.me == s.me
            &&& s2.pending == s.pending
            &&& s2.halt == s.halt
            &&& s2.uploading == s.uploading
            &&& s2.he.has == s.he.has
            &&& s2.he.choked == s.he.choked
            &&& s2.he.interested == s.he.interested
            &&& session_wf(s2)
        }),
{
    lemma_remove_forgets(s.he.requests, p, offset / BLOCK_SIZE, p2, b2);
}

// ----- the decisions, made -----

/// A message that a connection does not process.
#[derive(Debug)]
pub enum SessionError {
    UnknownRequestType,
}

/// The state of one peer connection.
#[derive(Debug)]
pub struct PeerSession {
    halt: bool,
    me: PeerMetadata,
    he: PeerMetadata,
    to_request: PendingBlocks,
    upload_in_progress: bool,
}

/// The state after queueing the blocks of the pieces from `k` on.
proof fn lemma_queue_all_step(s: SessionModel, pieces: Seq<u32>, blocks: Seq<Seq<(u32, u32)>>, k: int)
    requires
        0 <= k < pieces.len(),
        pieces.len() == blocks.len(),
    ensures
        spec_queue_all(s, pieces.skip(k), blocks.skip(k)) == spec_queue_all(
            spec_queue_blocks(s, pieces[k], blocks[k]),
            pieces.skip(k + 1),
            blocks.skip(k + 1),
        ),
{
    assert(pieces.skip(k).drop_first() =~= pieces.skip(k + 1));
    assert(blocks.skip(k).drop_first() =~= blocks.skip(k + 1));
}

impl PeerSession {
    /// The model of the connection.
    pub closed spec fn model(&self) -> SessionModel {
        SessionModel {
            halt: self.halt,
            me: self.me.model(),
            he: self.he.model(),
            pending: self.to_request@,
            uploading: self.upload_in_progress,
        }
    }

    /// A connection where we have these pieces and the remote peer none;
    /// both sides are choked and not interested.
    pub fn new(have_pieces: Vec<bool>) -> (r: PeerSession)
        ensures
            r.model() == (SessionModel {
                halt: false,
                me: SideModel {
                    has: have_pieces@,
                    choked: true,
                    interested: false,
                    requests: seq![],
                },
                he: SideModel {
                    has: Seq::new(have_pieces@.len(), |i: int| false),
                    choked: true,
                    interested: false,
                    requests: seq![],
                },
                pending: seq![],
                uploading: false,
            }),
            session_wf(r.model()),
    {
        let n = have_pieces.len();
        let mut none: Vec<bool> = Vec::new();
        let mut i: usize = 0;
        while i < n
            invariant
                i <= n,
                none@ == Seq::new(i as nat, |k: int| false),
            decreases n - i,
        {
            none.push(false);
            assert(none@ =~= Seq::new((i + 1) as nat, |k: int| false));
            i = i + 1;
        }
        let r = PeerSession {
            halt: false,
            me: PeerMetadata::new(have_pieces),
            he: PeerMetadata::new(none),
            to_request: PendingBlocks::new(),
            upload_in_progress: false,
        };
        assert(r.model() =~= (SessionModel {
            halt: false,
            me: SideModel { has: r.me.has_pieces@, choked: true, interested: false, requests: seq![] },
            he: SideModel {
                has: Seq::new(n as nat, |i: int| false),
                choked: true,
                interested: false,
                requests: seq![],
            },
            pending: seq![],
            uploading: false,
        }));
        proof {
            use_type_invariant(&r.to_request);
            use_type_invariant(&r.me.requests);
            use_type_invariant(&r.he.requests);
        }
        r
    }

    /// Whether the connection is to stop.
    pub fn halt(&self) -> (r: bool)
        ensures
            r == self.model().halt,
            session_wf(self.model()),
    {
        proof {
            use_type_invariant(&self.to_request);
            use_type_invariant(&self.me.requests);
            use_type_invariant(&self.he.requests);
        }
        self.halt
    }

    /// Stops the connection.
    pub fn stop(&mut self)
        ensures
            final(self).model() == (SessionModel { halt: true, ..old(self).model() }),
            session_wf(final(self).model()),
    {
        self.halt = true;
        proof {
            use_type_invariant(&self.to_request);
            use_type_invariant(&self.me.requests);
            use_type_invariant(&self.he.requests);
        }
    }

    /// The bitfield of the pieces we have.
    pub fn bitfield_message(&self) -> (r: Message)
        ensures
            (r.deep_view() matches MessageModel::Bitfield(bytes) && is_bitfield_of(
                bytes,
                self.model().me.has,
            )),
            session_wf(self.model()),
    {
        proof {
            use_type_invariant(&self.to_request);
            use_type_invariant(&self.me.requests);
            use_type_invariant(&self.he.requests);
        }
        Message::Bitfield(bitfield_bytes(self.me.has_pieces.as_slice()))
    }

    fn queue_blocks(&mut self, piece_index: u32, blocks: &Vec<(u32, u32)>)
        ensures
            final(self).model() == spec_queue_blocks(old(self).model(), piece_index, blocks@),
    {
        let ghost s0 = self.model();
        let mut i: usize = 0;
        assert(blocks@.take(0) =~= Seq::<(u32, u32)>::empty());
        while i < blocks.len()
            invariant
                i <= blocks@.len(),
                self.model() == spec_queue_blocks(s0, piece_index, blocks@.take(i as int)),
            decreases blocks@.len() - i,
        {
            let (b, len) = blocks[i];
            assert(blocks@.take(i + 1).drop_last() =~= blocks@.take(i as int));
            if !self.me.requests.has(piece_index, b) {
                self.to_request.insert(piece_index, b, len);
            }
            i = i + 1;
        }
        assert(blocks@.take(i as int) =~= blocks@);
    }

    fn update_my_interested_status(&mut self, acts: &mut Vec<Action>)
        ensures
            final(self).model() == spec_update_interest(old(self).model()).0,
            final(acts).deep_view() == old(acts).deep_view() + spec_update_interest(
                old(self).model(),
            ).1,
    {
        let am_interested = self.me.requests.len() > 0 || self.to_request.len() > 0;
        let is_interested = self.me.is_interested;
        if is_interested != am_interested {
            self.me.is_interested = am_interested;
            let message = if am_interested {
                Message::Interested
            } else {
                Message::NotInterested
            };
            let ghost before = acts.deep_view();
            acts.push(Action::Send(message));
            assert(acts.deep_view() =~= before + spec_update_interest(old(self).model()).1);
        } else {
            assert(acts.deep_view() =~= old(acts).deep_view() + Seq::<ActionModel>::empty());
        }
    }

    fn request_more_blocks(&mut self, acts: &mut Vec<Action>)
        ensures
            final(self).model() == spec_request_more(old(self).model()).0,
            final(acts).deep_view() == old(acts).deep_view() + spec_request_more(old(self).model()).1,
    {
        if self.me.is_choked || !self.me.is_interested || self.to_request.len() == 0 {
            assert(acts.deep_view() =~= old(acts).deep_view() + Seq::<ActionModel>::empty());
            return ;
        }
        let ghost target = spec_request_loop(self.model());
        let ghost base = acts.deep_view();
        assert(base + target.1 =~= acts.deep_view() + spec_request_loop(self.model()).1);
        while self.me.requests.len() < 10
            invariant_except_break
                spec_request_loop(self.model()).0 == target.0,
                acts.deep_view() + spec_request_loop(self.model()).1 == base + target.1,
            ensures
                self.model() == target.0,
                acts.deep_view() == base + target.1,
            decreases self.to_request@.len(),
        {
            let ghost s = self.model();
            let ghost before = acts.deep_view();
            match self.to_request.take_first() {
                None => {
                    assert(acts.deep_view() =~= base + target.1);
                    break ;
                },
                Some((p, b, len)) => {
                    let offset = b.wrapping_mul(BLOCK_SIZE);
                    if self.me.requests.add(p, b, offset, len) {
                        acts.push(Action::Send(Message::Request(p, offset, len)));
                        assert(self.model() =~= (SessionModel {
                            me: SideModel {
                                requests: queue_add(s.me.requests, p, b, offset, len),
                                ..s.me
                            },
                            pending: s.pending.drop_first(),
                            ..s
                        }));
                        assert(acts.deep_view() + spec_request_loop(self.model()).1 =~= before
                            + spec_request_loop(s).1);
                    } else {
                        assert(self.model() =~= (SessionModel { pending: s.pending.drop_first(), ..s }));
                        assert(acts.deep_view() + spec_request_loop(self.model()).1 =~= before
                            + spec_request_loop(s).1);
                    }
                },
            }
        }
        proof {
            if self.me.requests@.len() >= 10 {
            }
        }
    }

    fn upload_next_block(&mut self, acts: &mut Vec<Action>)
        ensures
            final(self).model() == spec_upload_next(old(self).model()).0,
            final(acts).deep_view() == old(acts).deep_view() + spec_upload_next(old(self).model()).1,
    {
        if self.upload_in_progress || self.he.is_choked || !self.he.is_interested {
            assert(acts.deep_view() =~= old(acts).deep_view() + Seq::<ActionModel>::empty());
            return ;
        }
        match self.he.requests.pop() {
            Some(r) => {
                self.upload_in_progress = true;
                let ghost before = acts.deep_view();
                acts.push(Action::Upload(r));
                assert(acts.deep_view() =~= before + spec_upload_next(old(self).model()).1);
                assert(self.model() =~= spec_upload_next(old(self).model()).0);
            },
            None => {
                assert(acts.deep_view() =~= old(acts).deep_view() + Seq::<ActionModel>::empty());
            },
        }
    }

    fn interest_and_request(&mut self, acts: &mut Vec<Action>)
        ensures
            final(self).model() == spec_interest_and_request(old(self).model()).0,
            final(acts).deep_view() == old(acts).deep_view() + spec_interest_and_request(
                old(self).model(),
            ).1,
    {
        let ghost a0 = acts.deep_view();
        self.update_my_interested_status(acts);
        let ghost a1 = acts.deep_view();
        self.request_more_blocks(acts);
        assert(acts.deep_view() =~= a0 + spec_interest_and_request(old(self).model()).1);
    }

    fn queue_all(&mut self, pieces: &Vec<u32>, blocks: &Vec<Vec<(u32, u32)>>)
        requires
            pieces@.len() == blocks@.len(),
        ensures
            final(self).model() == spec_queue_all(old(self).model(), pieces@, blocks.deep_view()),
    {
        let ghost target = spec_queue_all(self.model(), pieces@, blocks.deep_view());
        let mut k: usize = 0;
        assert(pieces@.skip(0) =~= pieces@);
        assert(blocks.deep_view().skip(0) =~= blocks.deep_view());
        while k < pieces.len()
            invariant
                k <= pieces@.len(),
                pieces@.len() == blocks@.len(),
                blocks.deep_view().len() == blocks@.len(),
                spec_queue_all(self.model(), pieces@.skip(k as int), blocks.deep_view().skip(k as int))
                    == target,
            decreases pieces@.len() - k,
        {
            proof {
                lemma_queue_all_step(self.model(), pieces@, blocks.deep_view(), k as int);
            }
            assert(blocks.deep_view()[k as int] == blocks@[k as int]@);
            self.queue_blocks(pieces[k], &blocks[k]);
            k = k + 1;
        }
        assert(pieces@.skip(k as int).len() == 0);
    }

    /// The pieces whose missing blocks processing `message` needs, in order.
    pub fn pieces_to_query(&self, message: &Message) -> (r: Vec<u32>)
        requires
            spec_processable(self.model(), message.deep_view()),
        ensures
            r@ == spec_pieces_to_query(self.model(), message.deep_view()),
            session_wf(self.model()),
    {
        proof {
            use_type_invariant(&self.to_request);
            use_type_invariant(&self.me.requests);
            use_type_invariant(&self.he.requests);
        }
        match message {
            Message::Have(i) => {
                let mut v: Vec<u32> = Vec::new();
                v.push(*i);
                assert(v@ =~= seq![*i]);
                v
            },
            Message::Bitfield(bytes) => {
                let has = bitfield_pieces(bytes.as_slice(), self.he.has_pieces.len());
                set_indices(&has)
            },
            _ => Vec::new(),
        }
    }

    /// Processes a message from the remote peer, given the missing blocks
    /// of the pieces that `pieces_to_query` named; returns what to do.
    pub fn process_message(&mut self, message: Message, blocks: Vec<Vec<(u32, u32)>>) -> (r: Result<
        Vec<Action>,
        SessionError,
    >)
        requires
            spec_processable(old(self).model(), message.deep_view()) || message.deep_view() is Port,
            blocks@.len() == spec_pieces_to_query(old(self).model(), message.deep_view()).len(),
        ensures
            message.deep_view() is Port ==> r is Err && final(self).model() == old(self).model(),
            !(message.deep_view() is Port) ==> (r matches Ok(acts) && (
            final(self).model(),
            acts.deep_view(),
            ) == spec_process_message(old(self).model(), message.deep_view(), blocks.deep_view())),
            session_wf(final(self).model()),
    {
        let ghost s = self.model();
        let ghost m = message.deep_view();
        let mut acts: Vec<Action> = Vec::new();
        assert(acts.deep_view() =~= Seq::<ActionModel>::empty());
        match message {
            Message::KeepAlive => {},
            Message::Choke => {
                self.me.is_choked = true;
            },
            Message::Unchoke => {
                if self.me.is_choked {
                    self.me.is_choked = false;
                    self.request_more_blocks(&mut acts);
                }
            },
            Message::Interested => {
                self.he.is_interested = true;
                if self.he.is_choked {
                    self.he.is_choked = false;
                    acts.push(Action::Send(Message::Unchoke));
                    let ghost a1 = acts.deep_view();
                    self.upload_next_block(&mut acts);
                }
            },
            Message::NotInterested => {
                self.he.is_interested = false;
            },
            Message::Have(have_index) => {
                self.he.has_pieces.set(have_index as usize, true);
                let mut pieces: Vec<u32> = Vec::new();
                pieces.push(have_index);
                assert(pieces@ =~= seq![have_index]);
                self.queue_all(&pieces, &blocks);
                self.interest_and_request(&mut acts);
            },
            Message::Bitfield(bytes) => {
                let has = bitfield_pieces(bytes.as_slice(), self.he.has_pieces.len());
                let pieces = set_indices(&has);
                self.he.has_pieces = has;
                self.queue_all(&pieces, &blocks);
                self.interest_and_request(&mut acts);
            },
            Message::Request(piece_index, offset, length) => {
                let block_index = offset / BLOCK_SIZE;
                self.he.requests.add(piece_index, block_index, offset, length);
                self.upload_next_block(&mut acts);
            },
            Message::Piece(piece_index, offset, data) => {
                let block_index = offset / BLOCK_SIZE;
                self.me.requests.remove(piece_index, block_index);
                acts.push(Action::Download(piece_index, offset, data));
                self.interest_and_request(&mut acts);
            },
            Message::Cancel(piece_index, offset, _) => {
                let block_index = offset / BLOCK_SIZE;
                self.he.requests.remove(piece_index, block_index);
            },
            Message::Port => {
                proof {
                    use_type_invariant(&self.to_request);
                    use_type_invariant(&self.me.requests);
                    use_type_invariant(&self.he.requests);
                }
                return Err(SessionError::UnknownRequestType);
            },
        }
        proof {
            use_type_invariant(&self.to_request);
            use_type_invariant(&self.me.requests);
            use_type_invariant(&self.he.requests);
        }
        Ok(acts)
    }

    /// Processes a notice that is not a message of the remote peer: a block
    /// or a piece stored, the download complete, or an upload sent.
    pub fn process_ipc(&mut self, ipc: Ipc) -> (r: Vec<Action>)
        requires
            !(ipc.deep_view() is Message),
            ipc.deep_view() matches IpcModel::PieceComplete(p) ==> p < old(self).model().me.has.len(),
        ensures
            (final(self).model(), r.deep_view()) == spec_process_ipc(old(self).model(), ipc.deep_view()),
            session_wf(final(self).model()),
            ipc.deep_view() matches IpcModel::BlockComplete(p, b) ==> !pending_has(final(self).model().pending, p, b)
                && !queue_has(final(self).model().me.requests, p, b),
    {
        let mut acts: Vec<Action> = Vec::new();
        assert(acts.deep_view() =~= Seq::<ActionModel>::empty());
        match ipc {
            Ipc::BlockComplete(piece_index, block_index) => {
                self.to_request.remove(piece_index, block_index);
                match self.me.requests.remove(piece_index, block_index) {
                    Some(r) => {
                        acts.push(Action::Send(Message::Cancel(r.piece_index, r.offset, r.block_length)));
                        assert(acts.deep_view() =~= spec_process_ipc(old(self).model(), ipc.deep_view()).1);
                    },
                    None => {},
                }
            },
            Ipc::PieceComplete(piece_index) => {
                self.me.has_pieces.set(piece_index as usize, true);
                self.update_my_interested_status(&mut acts);
                let ghost a1 = acts.deep_view();
                acts.push(Action::Send(Message::Have(piece_index)));
                assert(acts.deep_view() =~= a1.push(ActionModel::Send(MessageModel::Have(piece_index))));
            },
            Ipc::DownloadComplete => {
                self.update_my_interested_status(&mut acts);
            },
            Ipc::BlockUploaded => {
                self.upload_in_progress = false;
                self.upload_next_block(&mut acts);
            },
            Ipc::Message(_) => {},
        }
        proof {
            use_type_invariant(&self.to_request);
            use_type_invariant(&self.me.requests);
            use_type_invariant(&self.he.requests);
        }
        acts
    }

    /// Whether a notice can be processed: a message that `process_message`
    /// takes, or a piece complete that we track.
    pub fn can_process(&self, ipc: &Ipc) -> (r: bool)
        ensures
            r == match ipc.deep_view() {
                IpcModel::Message(m) => spec_processable(self.model(), m) || m is Port,
                IpcModel::PieceComplete(p) => p < self.model().me.has.len(),
                _ => true,
            },
            session_wf(self.model()),
    {
        proof {
            use_type_invariant(&self.to_request);
            use_type_invariant(&self.me.requests);
            use_type_invariant(&self.he.requests);
        }
        match ipc {
            Ipc::Message(m) => match m {
                Message::Have(i) => (*i as usize) < self.he.has_pieces.len(),
                Message::Bitfield(bytes) => self.he.has_pieces.len() / 8 <= bytes.len() && (
                self.he.has_pieces.len() % 8 == 0 || self.he.has_pieces.len() / 8 < bytes.len()),
                _ => true,
            },
            Ipc::PieceComplete(p) => (*p as usize) < self.me.has_pieces.len(),
            _ => true,
        }
    }
}

/// The indices of the set entries, in order.
fn set_indices(has: &Vec<bool>) -> (r: Vec<u32>)
    ensures
        r@ == set_pieces(has@),
{
    let mut res: Vec<u32> = Vec::new();
    let mut i: usize = 0;
    assert(has@.take(0) =~= Seq::<bool>::empty());
    while i < has.len()
        invariant
            i <= has@.len(),
            res@ == set_pieces(has@.take(i as int)),
        decreases has@.len() - i,
    {
        assert(has@.take(i + 1).drop_last() =~= has@.take(i as int));
        if has[i] {
            res.push(i as u32);
        }
        i = i + 1;
    }
    assert(has@.take(i as int) =~= has@);
    res
}

} // verus!
