//! The block requests that are outstanding on a connection, in the order in
//! which they were made; a block is requested at most once.
use vstd::prelude::*;

verus! {

/// A request for one block of a piece.
#[derive(Debug, Clone, Copy, PartialEq, Eq)]
pub struct RequestMetadata {
    pub piece_index: u32,
    pub block_index: u32,
    pub offset: u32,
    pub block_length: u32,
}

impl RequestMetadata {
    /// Whether this request is for the given block.
    pub fn matches(&self, piece_index: u32, block_index: u32) -> (r: bool)
        ensures
            r == request_for(*self, piece_index, block_index),
    {
        self.piece_index == piece_index && self.block_index == block_index
    }
}

/// Whether `r` is a request for the given block.
pub open spec fn request_for(r: RequestMetadata, piece_index: u32, block_index: u32) -> bool {
    r.piece_index == piece_index && r.block_index == block_index
}

/// Whether some request of `q` is for the given block.
pub open spec fn queue_has(q: Seq<RequestMetadata>, piece_index: u32, block_index: u32) -> bool {
    exists|i: int| 0 <= i < q.len() && request_for(#[trigger] q[i], piece_index, block_index)
}

/// The place of the first request of `q` for the given block.
pub open spec fn first_request(q: Seq<RequestMetadata>, piece_index: u32, block_index: u32) -> int {
    choose|i: int|
        0 <= i < q.len() && request_for(q[i], piece_index, block_index) && forall|j: int|
            0 <= j < i ==> !request_for(#[trigger] q[j], piece_index, block_index)
}

/// The queue after requesting a block: unchanged when it is requested.
pub open spec fn queue_add(
    q: Seq<RequestMetadata>,
    piece_index: u32,
    block_index: u32,
    offset: u32,
    block_length: u32,
) -> Seq<RequestMetadata> {
    if queue_has(q, piece_index, block_index) {
        q
    } else {
        q.push(RequestMetadata { piece_index, block_index, offset, block_length })
    }
}

/// The queue after taking the request for a block, if there is one.
pub open spec fn queue_remove(q: Seq<RequestMetadata>, piece_index: u32, block_index: u32) -> Seq<
    RequestMetadata,
> {
    if queue_has(q, piece_index, block_index) {
        q.remove(first_request(q, piece_index, block_index))
    } else {
        q
    }
}

/// No two requests of `q` are for the same block.
pub open spec fn distinct_blocks(q: Seq<RequestMetadata>) -> bool {
    forall|i: int, j: int|
        0 <= i < j < q.len() ==> !request_for(
            #[trigger] q[i],
            (#[trigger] q[j]).piece_index,
            q[j].block_index,
        )
}

/// The outstanding requests of a connection.
#[derive(Debug)]
pub struct RequestQueue {
    requests: Vec<RequestMetadata>,
}

impl View for RequestQueue {
    type V = Seq<RequestMetadata>;

    closed spec fn view(&self) -> Seq<RequestMetadata> {
        self.requests@
    }
}

impl RequestQueue {
    #[verifier::type_invariant]
    pub(crate) open spec fn wf(&self) -> bool {
        distinct_blocks(self@)
    }

    /// An empty queue.
    pub fn new() -> (r: RequestQueue)
        ensures
            r@ == Seq::<RequestMetadata>::empty(),
            distinct_blocks(r@),
    {
        RequestQueue { requests: Vec::new() }
    }

    /// Whether the given block is requested.
    pub fn has(&self, piece_index: u32, block_index: u32) -> (r: bool)
        ensures
            r == queue_has(self@, piece_index, block_index),
    {
        self.position(piece_index, block_index).is_some()
    }

    /// Requests a block, unless it is already requested; says whether it
    /// added the request.
    pub fn add(&mut self, piece_index: u32, block_index: u32, offset: u32, block_length: u32) -> (r:
        bool)
        ensures
            r == !queue_has(old(self)@, piece_index, block_index),
            final(self)@ == queue_add(old(self)@, piece_index, block_index, offset, block_length),
            queue_has(final(self)@, piece_index, block_index),
            distinct_blocks(final(self)@),
    {
        proof {
            use_type_invariant(&*self);
        }
        if !self.has(piece_index, block_index) {
            let r = RequestMetadata { piece_index, block_index, offset, block_length };
            let mut requests: Vec<RequestMetadata> = Vec::new();
            std::mem::swap(&mut requests, &mut self.requests);
            requests.push(r);
            assert(request_for(requests@[requests@.len() - 1], piece_index, block_index));
            self.requests = requests;
            true
        } else {
            false
        }
    }

    /// Takes the oldest request.
    pub fn pop(&mut self) -> (r: Option<RequestMetadata>)
        ensures
            old(self)@.len() == 0 ==> r is None && final(self)@ == old(self)@,
            old(self)@.len() > 0 ==> r == Some(old(self)@[0]) && final(self)@ == old(
                self,
            )@.drop_first(),
            distinct_blocks(final(self)@),
    {
        proof {
            use_type_invariant(&*self);
        }
        if self.requests.len() > 0 {
            let mut requests: Vec<RequestMetadata> = Vec::new();
            std::mem::swap(&mut requests, &mut self.requests);
            let r = requests.remove(0);
            assert(requests@ =~= old(self)@.drop_first());
            self.requests = requests;
            Some(r)
        } else {
            None
        }
    }

    /// Takes the request for the given block, if there is one; the block is
    /// then no longer requested.
    pub fn remove(&mut self, piece_index: u32, block_index: u32) -> (r: Option<RequestMetadata>)
        ensures
            final(self)@ == queue_remove(old(self)@, piece_index, block_index),
            r == (if queue_has(old(self)@, piece_index, block_index) {
                Some(old(self)@[first_request(old(self)@, piece_index, block_index)])
            } else {
                None::<RequestMetadata>
            }),
            !queue_has(final(self)@, piece_index, block_index),
            distinct_blocks(final(self)@),
    {
        proof {
            use_type_invariant(&*self);
        }
        match self.position(piece_index, block_index) {
            Some(i) => {
                let ghost before = self.requests@;
                let mut requests: Vec<RequestMetadata> = Vec::new();
                std::mem::swap(&mut requests, &mut self.requests);
                proof {
                    let c = first_request(before, piece_index, block_index);
                    assert(0 <= c < before.len() && request_for(before[c], piece_index, block_index));
                    if c < i {
                        assert(!request_for(before[c], piece_index, block_index));
                    }
                    if i < c {
                        assert(!request_for(before[i as int], piece_index, block_index));
                    }
                    assert(c == i);
                }
                let r = requests.remove(i);
                assert(requests@ =~= before.remove(i as int));
                assert forall|k: int| 0 <= k < requests@.len() implies !request_for(
                    #[trigger] requests@[k],
                    piece_index,
                    block_index,
                ) by {
                    if k < i {
                        assert(requests@[k] == before[k]);
                    } else {
                        assert(requests@[k] == before[k + 1]);
                    }
                }
                self.requests = requests;
                Some(r)
            },
            None => None,
        }
    }

    /// The place of the request for the given block, if there is one.
    fn position(&self, piece_index: u32, block_index: u32) -> (r: Option<usize>)
        ensures
            match r {
                Some(i) => i < self@.len() && request_for(self@[i as int], piece_index, block_index)
                    && forall|j: int| 0 <= j < i ==> !request_for(#[trigger] self@[j], piece_index, block_index),
                None => !queue_has(self@, piece_index, block_index),
            },
    {
        let mut i: usize = 0;
        while i < self.requests.len()
            invariant
                i <= self.requests@.len(),
                forall|k: int| 0 <= k < i ==> !request_for(#[trigger] self.requests@[k], piece_index, block_index),
            decreases self.requests@.len() - i,
        {
            if self.requests[i].matches(piece_index, block_index) {
                return Some(i);
            }
            i = i + 1;
        }
        None
    }

    /// The number of outstanding requests.
    pub fn len(&self) -> (r: usize)
        ensures
            r == self@.len(),
    {
        self.requests.len()
    }
}

/// Taking the request for a block out of a queue that requests each block
/// once leaves that block unrequested, and every other block as it was.
pub proof fn lemma_remove_forgets(q: Seq<RequestMetadata>, p: u32, b: u32, p2: u32, b2: u32)
    requires
        distinct_blocks(q),
    ensures
        !queue_has(queue_remove(q, p, b), p, b),
        !(p2 == p && b2 == b) ==> queue_has(queue_remove(q, p, b), p2, b2) == queue_has(q, p2, b2),
        distinct_blocks(queue_remove(q, p, b)),
{
    if queue_has(q, p, b) {
        let c = first_request(q, p, b);
        let r = q.remove(c);
        assert(0 <= c < q.len() && request_for(q[c], p, b));
        assert forall|k: int| 0 <= k < r.len() implies !request_for(#[trigger] r[k], p, b) by {
            if k < c {
                assert(r[k] == q[k]);
                assert(!request_for(q[k], q[c].piece_index, q[c].block_index));
            } else {
                assert(r[k] == q[k + 1]);
                assert(!request_for(q[c], q[k + 1].piece_index, q[k + 1].block_index));
            }
        }
        if !(p2 == p && b2 == b) {
            if queue_has(q, p2, b2) {
                let w = choose|i: int| 0 <= i < q.len() && request_for(#[trigger] q[i], p2, b2);
                assert(w != c);
                if w < c {
                    assert(r[w] == q[w]);
                } else {
                    assert(r[w - 1] == q[w]);
                }
            }
            if queue_has(r, p2, b2) {
                let w = choose|i: int| 0 <= i < r.len() && request_for(#[trigger] r[i], p2, b2);
                if w < c {
                    assert(r[w] == q[w]);
                } else {
                    assert(r[w] == q[w + 1]);
                }
            }
        }
        assert forall|x: int, y: int| 0 <= x < y < r.len() implies !request_for(
            #[trigger] r[x],
            (#[trigger] r[y]).piece_index,
            r[y].block_index,
        ) by {
            let qx = if x < c { x } else { x + 1 };
            let qy = if y < c { y } else { y + 1 };
            assert(r[x] == q[qx]);
            assert(r[y] == q[qy]);
        }
    }
}

} // verus!
