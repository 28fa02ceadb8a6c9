//! DATA chunks that wait to be sent for the first time.

use std::collections::VecDeque;
use vstd::prelude::*;

use crate::buffer::bytes_len;
use crate::chunk::payload::{data_views, ChunkPayloadData, DataView};

verus! {

/// Two queues, for unordered and for ordered messages. Once a fragment of a message left, the
/// other fragments of its message follow before anything else.
#[derive(Debug)]
pub struct PendingQueue {
    pub unordered_queue: VecDeque<ChunkPayloadData>,
    pub ordered_queue: VecDeque<ChunkPayloadData>,
    pub n_bytes: usize,
    pub selected: bool,
    pub unordered_is_selected: bool,
}

/// The content of a [`PendingQueue`].
#[verifier::ext_equal]
pub struct PendingQueueView {
    pub unordered: Seq<DataView>,
    pub ordered: Seq<DataView>,
    /// The number of bytes of user data.
    pub n_bytes: nat,
    /// Whether the rest of a message has to follow.
    pub selected: bool,
    /// Whether that message is an unordered one.
    pub unordered_is_selected: bool,
}

impl View for PendingQueue {
    type V = PendingQueueView;

    open spec fn view(&self) -> PendingQueueView {
        PendingQueueView {
            unordered: data_views(self.unordered_queue@),
            ordered: data_views(self.ordered_queue@),
            n_bytes: self.n_bytes as nat,
            selected: self.selected,
            unordered_is_selected: self.unordered_is_selected,
        }
    }
}

/// The bytes of user data of all chunks.
pub open spec fn data_bytes(s: Seq<DataView>) -> nat
    decreases s.len(),
{
    if s.len() == 0 {
        0
    } else {
        data_bytes(s.drop_last()) + s.last().user_data.len()
    }
}

/// A chunk without data begins a message or goes on with one. `open` says whether a message is
/// under way before the first chunk. A chunk without data that does neither could never leave.
pub open spec fn attached(s: Seq<DataView>, open: bool) -> bool
    decreases s.len(),
{
    s.len() > 0 ==> {
        &&& attached(s.drop_last(), open)
        &&& s.last().user_data.len() > 0 || s.last().beginning_fragment || open_end(
            s.drop_last(),
            open,
        )
    }
}

/// Whether a message is under way behind the last chunk.
pub open spec fn open_end(s: Seq<DataView>, open: bool) -> bool {
    if s.len() == 0 {
        open
    } else {
        !s.last().ending_fragment
    }
}

impl PendingQueueView {
    /// No chunks.
    pub open spec fn empty() -> PendingQueueView {
        PendingQueueView {
            unordered: seq![],
            ordered: seq![],
            n_bytes: 0,
            selected: false,
            unordered_is_selected: false,
        }
    }

    /// Each chunk is in the queue that it belongs to and can leave it, and the count of bytes is
    /// exact.
    #[verifier::opaque]
    pub open spec fn wf(self) -> bool {
        &&& forall|i: int|
            0 <= i < self.unordered.len() ==> (#[trigger] self.unordered[i]).unordered
        &&& forall|i: int| 0 <= i < self.ordered.len() ==> !(#[trigger] self.ordered[i]).unordered
        &&& attached(self.unordered, self.is_under_way(true))
        &&& attached(self.ordered, self.is_under_way(false))
        &&& self.n_bytes == data_bytes(self.unordered) + data_bytes(self.ordered)
    }

    /// Whether a message of this queue is under way.
    pub open spec fn is_under_way(self, unordered: bool) -> bool {
        self.selected && self.unordered_is_selected == unordered
    }

    /// Whether a chunk that is put into this queue goes on with a message.
    pub open spec fn goes_on(self, unordered: bool) -> bool {
        open_end(
            if unordered {
                self.unordered
            } else {
                self.ordered
            },
            self.is_under_way(unordered),
        )
    }

    /// Whether a chunk can be put in: one without data begins a message or goes on with one.
    pub open spec fn can_take(self, c: DataView) -> bool {
        c.user_data.len() > 0 || c.beginning_fragment || self.goes_on(c.unordered)
    }

    /// Whether all of `cs` can be put in, in this order.
    pub open spec fn can_take_all(self, cs: Seq<DataView>) -> bool
        decreases cs.len(),
    {
        cs.len() > 0 ==> self.can_take_all(cs.drop_last()) && self.push_all(
            cs.drop_last(),
        ).can_take(cs.last())
    }

    /// The number of chunks.
    pub open spec fn len(self) -> nat {
        self.unordered.len() + self.ordered.len()
    }

    /// The queue with `c` put in.
    pub open spec fn push(self, c: DataView) -> PendingQueueView {
        if c.unordered {
            PendingQueueView {
                unordered: self.unordered.push(c),
                n_bytes: self.n_bytes + c.user_data.len(),
                ..self
            }
        } else {
            PendingQueueView {
                ordered: self.ordered.push(c),
                n_bytes: self.n_bytes + c.user_data.len(),
                ..self
            }
        }
    }

    /// The queue with all of `cs` put in, in this order.
    pub open spec fn push_all(self, cs: Seq<DataView>) -> PendingQueueView
        decreases cs.len(),
    {
        if cs.len() == 0 {
            self
        } else {
            self.push_all(cs.drop_last()).push(cs.last())
        }
    }

    /// The chunk that goes next.
    #[verifier::opaque]
    pub open spec fn peek(self) -> Option<DataView> {
        if self.selected {
            if self.unordered_is_selected {
                first(self.unordered)
            } else {
                first(self.ordered)
            }
        } else if self.unordered.len() > 0 {
            first(self.unordered)
        } else {
            first(self.ordered)
        }
    }

    /// Whether a chunk is taken from the unordered queue.
    pub open spec fn from_unordered(self, unordered: bool) -> bool {
        if self.selected {
            self.unordered_is_selected
        } else {
            unordered
        }
    }

    /// The chunk that leaves on `pop`.
    #[verifier::opaque]
    pub open spec fn popped(self, beginning_fragment: bool, unordered: bool) -> Option<DataView> {
        if !self.selected && !beginning_fragment {
            None
        } else if self.from_unordered(unordered) {
            first(self.unordered)
        } else {
            first(self.ordered)
        }
    }

    /// The queue after `pop`: the queue of the chunk stays selected until a message ends.
    #[verifier::opaque]
    pub open spec fn pop(self, beginning_fragment: bool, unordered: bool) -> PendingQueueView {
        match self.popped(beginning_fragment, unordered) {
            None => self,
            Some(c) => {
                let u = self.from_unordered(unordered);
                PendingQueueView {
                    unordered: if u {
                        self.unordered.drop_first()
                    } else {
                        self.unordered
                    },
                    ordered: if u {
                        self.ordered
                    } else {
                        self.ordered.drop_first()
                    },
                    n_bytes: (self.n_bytes - c.user_data.len()) as nat,
                    selected: !c.ending_fragment,
                    unordered_is_selected: if c.ending_fragment {
                        self.unordered_is_selected
                    } else {
                        u
                    },
                }
            },
        }
    }
}

/// The first chunk.
pub open spec fn first(s: Seq<DataView>) -> Option<DataView> {
    if s.len() > 0 {
        Some(s[0])
    } else {
        None
    }
}

/// What is behind the first chunk is attached to it.
pub proof fn lemma_attached_first(s: Seq<DataView>, open: bool)
    requires
        attached(s, open),
        s.len() > 0,
    ensures
        attached(s.drop_first(), !s[0].ending_fragment),
        s[0].user_data.len() > 0 || s[0].beginning_fragment || open,
    decreases s.len(),
{
    let d = s.drop_last();
    let r = s.drop_first();
    if s.len() > 1 {
        lemma_attached_first(d, open);
        assert(r.drop_last() =~= d.drop_first());
        assert(d.len() > 1 ==> d.drop_first().last() == d.last());
    }
}

proof fn lemma_data_bytes_first(s: Seq<DataView>)
    requires
        s.len() > 0,
    ensures
        data_bytes(s) == s[0].user_data.len() + data_bytes(s.drop_first()),
    decreases s.len(),
{
    if s.len() > 1 {
        let d = s.drop_last();
        lemma_data_bytes_first(d);
        assert(s.drop_first().drop_last() =~= d.drop_first());
    } else {
        assert(s.drop_last() =~= seq![]);
        assert(s.drop_first() =~= seq![]);
    }
}

/// Putting a chunk in keeps the queue well-formed.
pub proof fn lemma_push_wf(q: PendingQueueView, c: DataView)
    requires
        q.wf(),
        q.can_take(c),
    ensures
        q.push(c).wf(),
{
    reveal(PendingQueueView::wf);
    if c.unordered {
        assert(q.unordered.push(c).drop_last() =~= q.unordered);
    } else {
        assert(q.ordered.push(c).drop_last() =~= q.ordered);
    }
}

/// Where all chunks can be put in, so can the first ones.
pub proof fn lemma_can_take_front(q: PendingQueueView, cs: Seq<DataView>, n: int)
    requires
        0 <= n <= cs.len(),
        q.can_take_all(cs),
    ensures
        q.can_take_all(cs.take(n)),
    decreases cs.len(),
{
    if n < cs.len() {
        lemma_can_take_front(q, cs.drop_last(), n);
        assert(cs.drop_last().take(n) =~= cs.take(n));
    } else {
        assert(cs.take(n) =~= cs);
    }
}

/// Taking a chunk out keeps the queue well-formed.
pub proof fn lemma_pop_wf(q: PendingQueueView, beginning_fragment: bool, unordered: bool)
    requires
        q.wf(),
    ensures
        q.pop(beginning_fragment, unordered).wf(),
        q.popped(beginning_fragment, unordered) matches Some(c) ==> {
            &&& q.pop(beginning_fragment, unordered).n_bytes + c.user_data.len() == q.n_bytes
            &&& q.pop(beginning_fragment, unordered).len() + 1 == q.len()
        },
        q.popped(beginning_fragment, unordered) is None ==> q.pop(beginning_fragment, unordered)
            == q,
{
    reveal(PendingQueueView::pop);
    reveal(PendingQueueView::popped);
    reveal(PendingQueueView::wf);
    match q.popped(beginning_fragment, unordered) {
        Some(c) => {
            let u = q.from_unordered(unordered);
            if u {
                lemma_data_bytes_first(q.unordered);
                lemma_attached_first(q.unordered, q.is_under_way(true));
            } else {
                lemma_data_bytes_first(q.ordered);
                lemma_attached_first(q.ordered, q.is_under_way(false));
            }
            let r = q.pop(beginning_fragment, unordered);
            assert(r.is_under_way(u) == !c.ending_fragment);
            assert(r.is_under_way(!u) == false);
            assert(q.is_under_way(!u) == false);
        },
        None => {},
    }
}

/// What is peeked at comes out next: always when it starts a message or continues one.
pub proof fn law_peeked_chunk_comes_next(q: PendingQueueView)
    requires
        q.wf(),
    ensures
        q.peek() matches Some(c) ==> {
            &&& q.selected || c.beginning_fragment ==> q.popped(c.beginning_fragment, c.unordered)
                == Some(c)
            &&& !q.selected && !c.beginning_fragment ==> q.popped(
                c.beginning_fragment,
                c.unordered,
            ) is None
        },
{
    reveal(PendingQueueView::peek);
    reveal(PendingQueueView::popped);
    reveal(PendingQueueView::wf);
}

/// Between two fragments of a message no chunk of the other queue leaves.
pub proof fn law_messages_leave_whole(
    q: PendingQueueView,
    beginning_fragment: bool,
    unordered: bool,
    next_beginning: bool,
    next_unordered: bool,
)
    requires
        q.wf(),
        q.popped(beginning_fragment, unordered) matches Some(c) && !c.ending_fragment,
    ensures
        ({
            let c = q.popped(beginning_fragment, unordered)->0;
            let r = q.pop(beginning_fragment, unordered);
            r.popped(next_beginning, next_unordered) matches Some(n) ==> n.unordered == c.unordered
        }),
{
    reveal(PendingQueueView::pop);
    reveal(PendingQueueView::popped);
    reveal(PendingQueueView::wf);
}

impl Default for PendingQueue {
    fn default() -> (r: Self)
        ensures
            r@ == PendingQueueView::empty(),
            r@.wf(),
    {
        PendingQueue::new()
    }
}

impl PendingQueue {
    /// A queue without chunks.
    pub fn new() -> (r: Self)
        ensures
            r@ == PendingQueueView::empty(),
            r@.wf(),
    {
        reveal(PendingQueueView::wf);
        let q = PendingQueue {
            unordered_queue: VecDeque::new(),
            ordered_queue: VecDeque::new(),
            n_bytes: 0,
            selected: false,
            unordered_is_selected: false,
        };
        assert(q@ =~= PendingQueueView::empty());
        q
    }

    /// Puts a chunk in.
    pub fn push(&mut self, c: ChunkPayloadData)
        requires
            old(self)@.wf(),
            old(self)@.can_take(c@),
            old(self)@.n_bytes + c@.user_data.len() <= usize::MAX,
        ensures
            final(self)@ == old(self)@.push(c@),
            final(self)@.wf(),
    {
        let ghost v = c@;
        proof {
            lemma_push_wf(self@, v);
        }
        self.n_bytes = self.n_bytes + bytes_len(&c.user_data);
        if c.unordered {
            self.unordered_queue.push_back(c);
        } else {
            self.ordered_queue.push_back(c);
        }
        assert(self@ =~= old(self)@.push(v));
    }

    /// Whether all chunks can be put in, in this order.
    pub fn can_push_all(&self, chunks: &Vec<ChunkPayloadData>) -> (r: bool)
        requires
            self@.wf(),
        ensures
            r == self@.can_take_all(data_views(chunks@)),
    {
        let ghost all = data_views(chunks@);
        let ghost q = self@;
        let mut unordered: bool = if self.unordered_queue.len() > 0 {
            !self.unordered_queue[self.unordered_queue.len() - 1].ending_fragment
        } else {
            self.selected && self.unordered_is_selected
        };
        let mut ordered: bool = if self.ordered_queue.len() > 0 {
            !self.ordered_queue[self.ordered_queue.len() - 1].ending_fragment
        } else {
            self.selected && !self.unordered_is_selected
        };
        let mut i: usize = 0;
        assert(all.take(0) =~= seq![]);
        while i < chunks.len()
            invariant
                i <= chunks.len(),
                q == self@,
                all == data_views(chunks@),
                q.can_take_all(all.take(i as int)),
                unordered == q.push_all(all.take(i as int)).goes_on(true),
                ordered == q.push_all(all.take(i as int)).goes_on(false),
            decreases chunks.len() - i,
        {
            let c = &chunks[i];
            let goes_on = if c.unordered {
                unordered
            } else {
                ordered
            };
            assert(all.take(i + 1).drop_last() =~= all.take(i as int));
            assert(all.take(i + 1).last() == c@);
            if bytes_len(&c.user_data) == 0 && !c.beginning_fragment && !goes_on {
                proof {
                    if q.can_take_all(all) {
                        lemma_can_take_front(q, all, i + 1);
                    }
                }
                return false;
            }
            if c.unordered {
                unordered = !c.ending_fragment;
            } else {
                ordered = !c.ending_fragment;
            }
            i += 1;
        }
        assert(all.take(i as int) =~= all);
        true
    }

    /// The chunk that goes next.
    pub fn peek(&self) -> (r: Option<&ChunkPayloadData>)
        ensures
            match r {
                Some(c) => self@.peek() == Some(c@),
                None => self@.peek() is None,
            },
    {
        reveal(PendingQueueView::peek);
        let unordered = if self.selected {
            self.unordered_is_selected
        } else {
            self.unordered_queue.len() > 0
        };
        if unordered {
            if self.unordered_queue.len() > 0 {
                Some(&self.unordered_queue[0])
            } else {
                None
            }
        } else if self.ordered_queue.len() > 0 {
            Some(&self.ordered_queue[0])
        } else {
            None
        }
    }

    /// Takes out the next chunk of the message that is under way, or else, if a message begins,
    /// the first chunk of the named queue.
    pub fn pop(&mut self, beginning_fragment: bool, unordered: bool) -> (r: Option<
        ChunkPayloadData,
    >)
        requires
            old(self)@.wf(),
        ensures
            match r {
                Some(c) => old(self)@.popped(beginning_fragment, unordered) == Some(c@),
                None => old(self)@.popped(beginning_fragment, unordered) is None,
            },
            final(self)@ == old(self)@.pop(beginning_fragment, unordered),
            final(self)@.wf(),
    {
        reveal(PendingQueueView::popped);
        reveal(PendingQueueView::pop);
        proof {
            lemma_pop_wf(self@, beginning_fragment, unordered);
        }
        if !self.selected && !beginning_fragment {
            return None;
        }
        let from_unordered = if self.selected {
            self.unordered_is_selected
        } else {
            unordered
        };
        let popped = if from_unordered {
            self.unordered_queue.pop_front()
        } else {
            self.ordered_queue.pop_front()
        };
        if let Some(c) = &popped {
            assert(old(self)@.popped(beginning_fragment, unordered) == Some(c@));
            self.n_bytes = self.n_bytes - bytes_len(&c.user_data);
            if c.ending_fragment {
                self.selected = false;
            } else {
                self.selected = true;
                self.unordered_is_selected = from_unordered;
            }
            assert(self@ =~= old(self)@.pop(beginning_fragment, unordered));
        } else {
            assert(self@ =~= old(self)@);
        }
        popped
    }

    /// The number of bytes of user data.
    pub fn get_num_bytes(&self) -> (r: usize)
        ensures
            r == self@.n_bytes,
    {
        self.n_bytes
    }

    /// Whether there are no chunks.
    pub fn is_empty(&self) -> (r: bool)
        ensures
            r == (self@.len() == 0),
    {
        self.unordered_queue.len() == 0 && self.ordered_queue.len() == 0
    }
}

} // verus!
