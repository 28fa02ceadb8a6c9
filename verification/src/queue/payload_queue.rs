//! DATA chunks that were received but not delivered yet, or sent but not acknowledged yet.

use std::collections::hash_map::Entry;
use std::collections::HashMap;
use vstd::prelude::*;

use crate::buffer::{bytes_clear, bytes_len};
use crate::chunk::kinds::GapAckBlock;
use crate::chunk::payload::{ChunkPayloadData, DataView};
use crate::text::{append_decimal, decimal};
use crate::util::{before32, sna32lt, sna32lte, upto32};

verus! {

/// Chunks by TSN, with their TSNs in serial order.
#[derive(Debug)]
pub struct PayloadQueue {
    pub chunk_map: HashMap<u32, ChunkPayloadData>,
    pub sorted: Vec<u32>,
    pub dup_tsn: Vec<u32>,
    pub n_bytes: usize,
}

/// The content of a [`PayloadQueue`].
#[verifier::ext_equal]
pub struct PayloadQueueView {
    /// The chunks by TSN.
    pub chunks: Map<u32, DataView>,
    /// The TSNs in the order in which the chunks leave.
    pub sorted: Seq<u32>,
    /// The TSNs that came again.
    pub dup_tsn: Seq<u32>,
    /// The number of bytes of user data.
    pub n_bytes: nat,
}

impl View for PayloadQueue {
    type V = PayloadQueueView;

    open spec fn view(&self) -> PayloadQueueView {
        PayloadQueueView {
            chunks: chunk_contents(self.chunk_map@),
            sorted: self.sorted@,
            dup_tsn: self.dup_tsn@,
            n_bytes: self.n_bytes as nat,
        }
    }
}

/// The contents of chunks by TSN.
pub open spec fn chunk_contents(m: Map<u32, ChunkPayloadData>) -> Map<u32, DataView> {
    m.map_values(|c: ChunkPayloadData| c@)
}

/// The bytes of user data of all chunks.
pub open spec fn total_bytes(m: Map<u32, DataView>) -> nat
    decreases m.dom().len(),
    when m.dom().finite()
{
    if m.dom().len() == 0 {
        0
    } else {
        let k = m.dom().choose();
        m[k].user_data.len() + total_bytes(m.remove(k))
    }
}

/// `t` put among `s` behind the last of them that it does not lie before.
pub open spec fn serial_insert(s: Seq<u32>, t: u32) -> Seq<u32>
    decreases s.len(),
{
    if s.len() == 0 || !before32(t, s.last()) {
        s.push(t)
    } else {
        serial_insert(s.drop_last(), t).push(s.last())
    }
}

/// `s` sorted in serial order.
pub open spec fn serial_sort(s: Seq<u32>) -> Seq<u32>
    decreases s.len(),
{
    if s.len() == 0 {
        s
    } else {
        serial_insert(serial_sort(s.drop_last()), s.last())
    }
}

/// The offset of `tsn` from `cumulative_tsn` as a gap block holds it: its low 16 bits, and
/// zero for a TSN that is numerically smaller.
pub open spec fn gap_offset(tsn: u32, cumulative_tsn: u32) -> u16 {
    if tsn >= cumulative_tsn {
        ((tsn - cumulative_tsn) % 0x1_0000) as u16
    } else {
        0
    }
}

/// The offsets of TSNs.
pub open spec fn gap_offsets(tsns: Seq<u32>, cumulative_tsn: u32) -> Seq<u16> {
    tsns.map_values(|t: u32| gap_offset(t, cumulative_tsn))
}

/// Offsets grouped into blocks: each offset that continues the last block extends it, any
/// other one starts a block.
pub open spec fn gap_blocks(offsets: Seq<u16>) -> Seq<GapAckBlock>
    decreases offsets.len(),
{
    if offsets.len() == 0 {
        seq![]
    } else {
        let blocks = gap_blocks(offsets.drop_last());
        let o = offsets.last();
        if blocks.len() > 0 && blocks.last().end.wrapping_add(1) == o {
            blocks.drop_last().push(GapAckBlock { start: blocks.last().start, end: o })
        } else {
            blocks.push(GapAckBlock { start: o, end: o })
        }
    }
}

/// Blocks as text.
pub open spec fn blocks_text(blocks: Seq<GapAckBlock>) -> Seq<char>
    decreases blocks.len(),
{
    if blocks.len() == 0 {
        seq![]
    } else {
        blocks_text(blocks.drop_last()) + ","@ + decimal(blocks.last().start as nat) + "-"@
            + decimal(blocks.last().end as nat)
    }
}

/// A chunk that is to be sent again unless it is acknowledged or given up.
pub open spec fn to_retransmit(c: DataView) -> DataView {
    if c.acked || c.given_up() {
        c
    } else {
        DataView { retransmit: true, ..c }
    }
}

/// A chunk once it is acknowledged: its data is gone.
pub open spec fn acknowledged(c: DataView) -> DataView {
    DataView { acked: true, retransmit: false, user_data: seq![], ..c }
}

impl PayloadQueueView {
    /// No chunks.
    pub open spec fn empty() -> PayloadQueueView {
        PayloadQueueView { chunks: Map::empty(), sorted: seq![], dup_tsn: seq![], n_bytes: 0 }
    }

    /// Every chunk is filed under its TSN, every TSN has its place in the order, and no
    /// byte is missing from the count.
    #[verifier::opaque]
    pub open spec fn wf(self) -> bool {
        &&& self.chunks.dom().finite()
        &&& forall|t: u32| #[trigger] self.chunks.contains_key(t) ==> self.chunks[t].tsn == t
        &&& forall|t: u32| #[trigger] self.chunks.contains_key(t) ==> self.sorted.contains(t)
        &&& total_bytes(self.chunks) <= self.n_bytes
    }

    /// Whether a chunk is new: its TSN neither queued nor at or before the cumulative one.
    pub open spec fn accepts(self, tsn: u32, cumulative_tsn: u32) -> bool {
        !self.chunks.contains_key(tsn) && !upto32(tsn, cumulative_tsn)
    }

    /// The queue with `p` put in.
    #[verifier::opaque]
    pub open spec fn push_no_check(self, p: DataView) -> PayloadQueueView {
        PayloadQueueView {
            chunks: self.chunks.insert(p.tsn, p),
            sorted: serial_sort(self.sorted.push(p.tsn)),
            n_bytes: self.n_bytes + p.user_data.len(),
            ..self
        }
    }

    /// The queue with `p` put in if it is new, else with its TSN recorded as a duplicate.
    #[verifier::opaque]
    pub open spec fn push(self, p: DataView, cumulative_tsn: u32) -> PayloadQueueView {
        if self.accepts(p.tsn, cumulative_tsn) {
            self.push_no_check(p)
        } else {
            PayloadQueueView { dup_tsn: self.dup_tsn.push(p.tsn), ..self }
        }
    }

    /// Whether `tsn` is the oldest TSN.
    pub open spec fn is_oldest(self, tsn: u32) -> bool {
        self.sorted.len() > 0 && self.sorted[0] == tsn
    }

    /// The chunk that leaves on `pop`.
    #[verifier::opaque]
    pub open spec fn popped(self, tsn: u32) -> Option<DataView> {
        if self.is_oldest(tsn) && self.chunks.contains_key(tsn) {
            Some(self.chunks[tsn])
        } else {
            None
        }
    }

    /// The queue after `pop`.
    #[verifier::opaque]
    pub open spec fn pop(self, tsn: u32) -> PayloadQueueView {
        if self.is_oldest(tsn) {
            PayloadQueueView {
                sorted: self.sorted.drop_first(),
                chunks: self.chunks.remove(tsn),
                n_bytes: match self.popped(tsn) {
                    Some(c) => (self.n_bytes - c.user_data.len()) as nat,
                    None => self.n_bytes,
                },
                ..self
            }
        } else {
            self
        }
    }

    /// The chunk with this TSN.
    pub open spec fn get(self, tsn: u32) -> Option<DataView> {
        if self.chunks.contains_key(tsn) {
            Some(self.chunks[tsn])
        } else {
            None
        }
    }

    /// The blocks of TSNs behind the cumulative one.
    pub open spec fn gap_ack_blocks(self, cumulative_tsn: u32) -> Seq<GapAckBlock> {
        if self.chunks.dom().is_empty() {
            seq![]
        } else {
            gap_blocks(gap_offsets(self.sorted, cumulative_tsn))
        }
    }

    /// The queue with the chunk of this TSN acknowledged.
    #[verifier::opaque]
    pub open spec fn mark_as_acked(self, tsn: u32) -> PayloadQueueView {
        if self.chunks.contains_key(tsn) {
            PayloadQueueView {
                chunks: self.chunks.insert(tsn, acknowledged(self.chunks[tsn])),
                n_bytes: (self.n_bytes - self.chunks[tsn].user_data.len()) as nat,
                ..self
            }
        } else {
            self
        }
    }

    /// The number of bytes that are acknowledged with the chunk of this TSN.
    pub open spec fn bytes_of(self, tsn: u32) -> nat {
        if self.chunks.contains_key(tsn) {
            self.chunks[tsn].user_data.len()
        } else {
            0
        }
    }

    /// The queue with the chunk of this TSN replaced.
    pub open spec fn set(self, tsn: u32, c: DataView) -> PayloadQueueView {
        PayloadQueueView { chunks: self.chunks.insert(tsn, c), ..self }
    }

    /// The queue with every chunk to be sent again that is neither acknowledged nor given up.
    #[verifier::opaque]
    pub open spec fn mark_all_to_retransmit(self) -> PayloadQueueView {
        PayloadQueueView { chunks: self.chunks.map_values(|c: DataView| to_retransmit(c)), ..self }
    }

    /// The queue with its duplicates taken out.
    pub open spec fn pop_duplicates(self) -> PayloadQueueView {
        PayloadQueueView { dup_tsn: seq![], ..self }
    }
}

/// What one chunk adds to the bytes of all chunks.
pub proof fn lemma_total_bytes_remove(m: Map<u32, DataView>, t: u32)
    requires
        m.dom().finite(),
        m.contains_key(t),
    ensures
        total_bytes(m) == m[t].user_data.len() + total_bytes(m.remove(t)),
    decreases m.dom().len(),
{
    let k = m.dom().choose();
    if k != t {
        let a = m.remove(k);
        let b = m.remove(t);
        lemma_total_bytes_remove(a, t);
        lemma_total_bytes_remove(b, k);
        assert(a.remove(t) =~= b.remove(k));
    }
}

/// What putting a chunk in does to the bytes of all chunks.
pub proof fn lemma_total_bytes_insert(m: Map<u32, DataView>, t: u32, c: DataView)
    requires
        m.dom().finite(),
    ensures
        total_bytes(m.insert(t, c)) == c.user_data.len() + total_bytes(m.remove(t)),
        m.contains_key(t) ==> total_bytes(m) == m[t].user_data.len() + total_bytes(m.remove(t)),
        !m.contains_key(t) ==> m.remove(t) == m,
{
    lemma_total_bytes_remove(m.insert(t, c), t);
    assert(m.insert(t, c).remove(t) =~= m.remove(t));
    if m.contains_key(t) {
        lemma_total_bytes_remove(m, t);
    } else {
        assert(m.remove(t) =~= m);
    }
}

/// The bytes of all chunks do not depend on anything but the lengths of their data.
pub proof fn lemma_total_bytes_same(m: Map<u32, DataView>, n: Map<u32, DataView>)
    requires
        m.dom().finite(),
        m.dom() == n.dom(),
        forall|t: u32| #[trigger]
            m.contains_key(t) ==> m[t].user_data.len() == n[t].user_data.len(),
    ensures
        total_bytes(m) == total_bytes(n),
    decreases m.dom().len(),
{
    if m.dom().len() > 0 {
        let k = m.dom().choose();
        assert(m.remove(k).dom() =~= n.remove(k).dom());
        lemma_total_bytes_same(m.remove(k), n.remove(k));
    }
}

/// Sorting keeps the TSNs.
pub proof fn lemma_serial_insert_contains(s: Seq<u32>, t: u32)
    ensures
        serial_insert(s, t).len() == s.len() + 1,
        serial_insert(s, t).to_multiset() == s.push(t).to_multiset(),
    decreases s.len(),
{
    broadcast use vstd::seq_lib::group_to_multiset_ensures;

    if s.len() == 0 || !before32(t, s.last()) {
    } else {
        let d = s.drop_last();
        lemma_serial_insert_contains(d, t);
        assert(d.push(s.last()) =~= s);
        assert(serial_insert(s, t).to_multiset() =~= s.push(t).to_multiset());
    }
}

/// Sorting keeps the TSNs.
pub proof fn lemma_serial_sort_multiset(s: Seq<u32>)
    ensures
        serial_sort(s).len() == s.len(),
        serial_sort(s).to_multiset() == s.to_multiset(),
    decreases s.len(),
{
    broadcast use vstd::seq_lib::group_to_multiset_ensures;

    if s.len() > 0 {
        let d = s.drop_last();
        lemma_serial_sort_multiset(d);
        lemma_serial_insert_contains(serial_sort(d), s.last());
        assert(d.push(s.last()) =~= s);
    }
}

/// Sorting keeps what is contained.
pub proof fn lemma_serial_sort_contains(s: Seq<u32>, t: u32)
    ensures
        serial_sort(s).contains(t) <==> s.contains(t),
{
    broadcast use vstd::seq_lib::group_to_multiset_ensures;

    lemma_serial_sort_multiset(s);
    assert(serial_sort(s).to_multiset().count(t) == s.to_multiset().count(t));
}

/// Putting a chunk in keeps the queue well-formed.
pub proof fn lemma_push_wf(q: PayloadQueueView, p: DataView)
    requires
        q.wf(),
    ensures
        q.push_no_check(p).wf(),
        q.push_no_check(p).n_bytes == q.n_bytes + p.user_data.len(),
        q.push_no_check(p).chunks == q.chunks.insert(p.tsn, p),
{
    reveal(PayloadQueueView::push_no_check);
    reveal(PayloadQueueView::wf);
    let r = q.push_no_check(p);
    lemma_total_bytes_insert(q.chunks, p.tsn, p);
    assert forall|t: u32| #[trigger] r.chunks.contains_key(t) implies r.sorted.contains(t) by {
        lemma_serial_sort_contains(q.sorted.push(p.tsn), t);
        let all = q.sorted.push(p.tsn);
        if t == p.tsn {
            assert(all[q.sorted.len() as int] == t);
        } else {
            let i = choose|i: int| 0 <= i < q.sorted.len() && q.sorted[i] == t;
            assert(all[i] == t);
        }
    }
}

/// Taking the oldest chunk out keeps the queue well-formed.
pub proof fn lemma_pop_wf(q: PayloadQueueView, tsn: u32)
    requires
        q.wf(),
    ensures
        q.pop(tsn).wf(),
        q.pop(tsn).n_bytes <= q.n_bytes,
        q.popped(tsn) matches Some(c) ==> q.pop(tsn).n_bytes + c.user_data.len() == q.n_bytes,
{
    reveal(PayloadQueueView::popped);
    reveal(PayloadQueueView::pop);
    reveal(PayloadQueueView::wf);
    if q.is_oldest(tsn) {
        let r = q.pop(tsn);
        if q.chunks.contains_key(tsn) {
            lemma_total_bytes_remove(q.chunks, tsn);
        } else {
            assert(q.chunks.remove(tsn) =~= q.chunks);
        }
        assert forall|t: u32| #[trigger] r.chunks.contains_key(t) implies r.sorted.contains(t) by {
            let i = choose|i: int| 0 <= i < q.sorted.len() && q.sorted[i] == t;
            assert(r.sorted[i - 1] == t);
        }
    }
}

/// Replacing a chunk by one with no more data keeps the queue well-formed.
pub proof fn lemma_set_wf(q: PayloadQueueView, tsn: u32, c: DataView)
    requires
        q.wf(),
        q.chunks.contains_key(tsn),
        c.tsn == q.chunks[tsn].tsn,
        c.user_data.len() <= q.chunks[tsn].user_data.len(),
    ensures
        q.set(tsn, c).wf(),
{
    reveal(PayloadQueueView::wf);
    lemma_total_bytes_insert(q.chunks, tsn, c);
}

/// Acknowledging a chunk keeps the queue well-formed.
pub proof fn lemma_mark_as_acked_wf(q: PayloadQueueView, tsn: u32)
    requires
        q.wf(),
    ensures
        q.mark_as_acked(tsn).wf(),
        q.mark_as_acked(tsn).n_bytes + q.bytes_of(tsn) == q.n_bytes,
        q.chunks.contains_key(tsn) ==> q.mark_as_acked(tsn).get(tsn) == Some(
            acknowledged(q.chunks[tsn]),
        ),
{
    reveal(PayloadQueueView::mark_as_acked);
    reveal(PayloadQueueView::wf);
    if q.chunks.contains_key(tsn) {
        lemma_total_bytes_insert(q.chunks, tsn, acknowledged(q.chunks[tsn]));
    }
}

/// Marking chunks to be sent again keeps the queue well-formed.
pub proof fn lemma_retransmit_wf(q: PayloadQueueView)
    requires
        q.wf(),
    ensures
        q.mark_all_to_retransmit().wf(),
        q.mark_all_to_retransmit().n_bytes == q.n_bytes,
{
    reveal(PayloadQueueView::wf);
    reveal(PayloadQueueView::mark_all_to_retransmit);
    let r = q.mark_all_to_retransmit();
    assert(r.chunks.dom() =~= q.chunks.dom());
    lemma_total_bytes_same(q.chunks, r.chunks);
}

impl Default for PayloadQueue {
    fn default() -> (r: Self)
        ensures
            r@ == PayloadQueueView::empty(),
            r@.wf(),
    {
        PayloadQueue::new()
    }
}

impl PayloadQueue {
    /// A queue without chunks.
    pub fn new() -> (r: Self)
        ensures
            r@ == PayloadQueueView::empty(),
            r@.wf(),
    {
        reveal(PayloadQueueView::wf);
        let q = PayloadQueue {
            chunk_map: HashMap::new(),
            sorted: Vec::new(),
            dup_tsn: Vec::new(),
            n_bytes: 0,
        };
        assert(q@ =~= PayloadQueueView::empty());
        q
    }

    /// Sorts the TSNs in serial order.
    pub fn update_sorted_keys(&mut self)
        ensures
            final(self)@ == (PayloadQueueView {
                sorted: serial_sort(old(self)@.sorted),
                ..old(self)@
            }),
    {
        let ghost all = self.sorted@;
        let n = self.sorted.len();
        let mut done: usize = 0;
        assert(all.take(0) =~= seq![]);
        assert(self.sorted@ =~= serial_sort(all.take(0)) + all.skip(0));
        while done < n
            invariant
                done <= n,
                n == all.len(),
                n == self.sorted@.len(),
                all == old(self)@.sorted,
                self.sorted@ == serial_sort(all.take(done as int)) + all.skip(done as int),
                serial_sort(all.take(done as int)).len() == done,
                self.chunk_map == old(self).chunk_map,
                self.dup_tsn == old(self).dup_tsn,
                self.n_bytes == old(self).n_bytes,
            decreases n - done,
        {
            let ghost front = serial_sort(all.take(done as int));
            let ghost back = all.skip(done + 1);
            let ghost t = all[done as int];
            proof {
                assert(all.take(done + 1).drop_last() =~= all.take(done as int));
                lemma_serial_sort_multiset(all.take(done + 1));
                assert(all.skip(done as int) =~= seq![t] + back);
                assert(self.sorted@ =~= front.take(done as int) + seq![t] + front.skip(done as int)
                    + back);
                assert(front.take(done as int) =~= front);
                assert(serial_insert(front, t) + front.skip(done as int) =~= serial_insert(
                    front,
                    t,
                ));
            }
            let mut i: usize = done;
            while i > 0 && sna32lt(self.sorted[i], self.sorted[i - 1])
                invariant
                    i <= done < n,
                    n == self.sorted@.len(),
                    front.len() == done,
                    self.sorted@ == front.take(i as int) + seq![t] + front.skip(i as int) + back,
                    serial_insert(front.take(i as int), t) + front.skip(i as int) == serial_insert(
                        front,
                        t,
                    ),
                    self.chunk_map == old(self).chunk_map,
                    self.dup_tsn == old(self).dup_tsn,
                    self.n_bytes == old(self).n_bytes,
                decreases i,
            {
                assert(self.sorted@[i as int] == t);
                assert(self.sorted@[i - 1] == front[i - 1]);
                let a = self.sorted[i];
                let b = self.sorted[i - 1];
                self.sorted.set(i, b);
                self.sorted.set(i - 1, a);
                proof {
                    let s = front.take(i as int);
                    assert(s.drop_last() =~= front.take(i - 1));
                    assert(s.last() == front[i - 1]);
                    assert(self.sorted@ =~= front.take(i - 1) + seq![t] + front.skip(i - 1) + back);
                    assert(serial_insert(front.take(i - 1), t) + front.skip(i - 1)
                        =~= serial_insert(front.take(i as int), t) + front.skip(i as int));
                }
                i -= 1;
            }
            proof {
                let s = front.take(i as int);
                assert(self.sorted@[i as int] == t);
                if i > 0 {
                    assert(self.sorted@[i - 1] == s.last());
                }
                assert(serial_insert(s, t) == s.push(t));
                assert(self.sorted@ =~= serial_insert(front, t) + back);
            }
            done += 1;
        }
        assert(all.take(n as int) =~= all);
        assert(self.sorted@ =~= serial_sort(all));
    }

    /// Whether `push` would take the chunk.
    pub fn can_push(&self, p: &ChunkPayloadData, cumulative_tsn: u32) -> (r: bool)
        ensures
            r == self@.accepts(p@.tsn, cumulative_tsn),
    {
        broadcast use vstd::std_specs::hash::group_hash_axioms;

        !(self.chunk_map.contains_key(&p.tsn) || sna32lte(p.tsn, cumulative_tsn))
    }

    /// Puts a chunk in.
    pub fn push_no_check(&mut self, p: ChunkPayloadData)
        requires
            old(self)@.wf(),
            old(self)@.n_bytes + p@.user_data.len() <= usize::MAX,
        ensures
            final(self)@ == old(self)@.push_no_check(p@),
            final(self)@.wf(),
    {
        reveal(PayloadQueueView::push_no_check);
        broadcast use vstd::std_specs::hash::group_hash_axioms;

        let ghost pv = p@;
        self.n_bytes = self.n_bytes + bytes_len(&p.user_data);
        self.sorted.push(p.tsn);
        self.chunk_map.insert(p.tsn, p);
        self.update_sorted_keys();
        assert(self@ =~= old(self)@.push_no_check(pv));
        proof {
            lemma_push_wf(old(self)@, pv);
        }
    }

    /// Puts a payload data in. If the payload data is already in the queue or older than
    /// the cumulative TSN, it is recorded as a duplicate, which can later be retrieved using
    /// `pop_duplicates`.
    pub fn push(&mut self, p: ChunkPayloadData, cumulative_tsn: u32) -> (r: bool)
        requires
            old(self)@.wf(),
            old(self)@.accepts(p@.tsn, cumulative_tsn) ==> old(self)@.n_bytes + p@.user_data.len()
                <= usize::MAX,
        ensures
            r == old(self)@.accepts(p@.tsn, cumulative_tsn),
            final(self)@ == old(self)@.push(p@, cumulative_tsn),
            final(self)@.wf(),
    {
        reveal(PayloadQueueView::push);
        reveal(PayloadQueueView::wf);
        broadcast use vstd::std_specs::hash::group_hash_axioms;

        if self.chunk_map.contains_key(&p.tsn) || sna32lte(p.tsn, cumulative_tsn) {
            self.dup_tsn.push(p.tsn);
            assert(self@ =~= old(self)@.push(p@, cumulative_tsn));
            return false;
        }
        self.push_no_check(p);
        true
    }

    /// Takes a chunk out only if the oldest chunk's TSN matches the given TSN.
    pub fn pop(&mut self, tsn: u32) -> (r: Option<ChunkPayloadData>)
        requires
            old(self)@.wf(),
        ensures
            match r {
                Some(c) => old(self)@.popped(tsn) == Some(c@),
                None => old(self)@.popped(tsn) is None,
            },
            final(self)@ == old(self)@.pop(tsn),
            final(self)@.wf(),
    {
        reveal(PayloadQueueView::popped);
        reveal(PayloadQueueView::pop);
        broadcast use vstd::std_specs::hash::group_hash_axioms;

        proof {
            lemma_pop_wf(self@, tsn);
        }
        if !self.sorted.is_empty() && tsn == self.sorted[0] {
            self.sorted.remove(0);
            assert(self.sorted@ =~= old(self)@.sorted.drop_first());
            if let Some(c) = self.chunk_map.remove(&tsn) {
                assert(old(self)@.popped(tsn) == Some(c@));
                self.n_bytes = self.n_bytes - bytes_len(&c.user_data);
                assert(self@ =~= old(self)@.pop(tsn));
                return Some(c);
            }
            assert(self@ =~= old(self)@.pop(tsn));
        }
        None
    }

    /// The chunk with the given TSN.
    pub fn get(&self, tsn: u32) -> (r: Option<&ChunkPayloadData>)
        ensures
            match r {
                Some(c) => self@.get(tsn) == Some(c@),
                None => self@.get(tsn) is None,
            },
    {
        broadcast use vstd::std_specs::hash::group_hash_axioms;

        self.chunk_map.get(&tsn)
    }

    /// The chunk with the given TSN, to be changed.
    pub fn get_mut(&mut self, tsn: u32) -> (r: Option<&mut ChunkPayloadData>)
        ensures
            match r {
                Some(c) => {
                    &&& old(self)@.get(tsn) == Some(c@)
                    &&& final(self)@ == old(self)@.set(tsn, final(c)@)
                },
                None => old(self)@.get(tsn) is None && final(self)@ == old(self)@,
            },
    {
        broadcast use vstd::std_specs::hash::group_hash_axioms;

        if self.chunk_map.contains_key(&tsn) {
            match self.chunk_map.entry(tsn) {
                Entry::Occupied(e) => {
                    let c = e.into_mut();
                    assert(chunk_contents(old(self).chunk_map@.insert(tsn, *final(c)))
                        =~= old(self)@.chunks.insert(tsn, final(c)@));
                    Some(c)
                },
                Entry::Vacant(_) => None,
            }
        } else {
            None
        }
    }

    /// Takes the TSNs that were found duplicate.
    pub fn pop_duplicates(&mut self) -> (r: Vec<u32>)
        ensures
            r@ == old(self)@.dup_tsn,
            final(self)@ == old(self)@.pop_duplicates(),
    {
        let mut dups: Vec<u32> = Vec::new();
        std::mem::swap(&mut dups, &mut self.dup_tsn);
        dups
    }

    /// The blocks of TSNs that were received behind the cumulative one.
    pub fn get_gap_ack_blocks(&self, cumulative_tsn: u32) -> (r: Vec<GapAckBlock>)
        requires
            self@.wf(),
        ensures
            r@ == self@.gap_ack_blocks(cumulative_tsn),
    {
        reveal(PayloadQueueView::wf);
        broadcast use vstd::std_specs::hash::group_hash_axioms;

        if self.chunk_map.is_empty() {
            assert(self@.chunks.dom() =~= Set::empty());
            return Vec::new();
        }
        let ghost offsets = gap_offsets(self@.sorted, cumulative_tsn);
        assert(!self@.chunks.dom().is_empty() && offsets.len() > 0) by {
            assert(!self.chunk_map@.dom().is_empty());
            let t = choose|t: u32| self.chunk_map@.contains_key(t);
            assert(self@.chunks.contains_key(t));
            assert(self@.sorted.contains(t));
        }
        let mut b = GapAckBlock { start: 0, end: 0 };
        let mut gap_ack_blocks: Vec<GapAckBlock> = Vec::new();
        let mut i: usize = 0;
        assert(offsets.take(0) =~= seq![]);
        while i < self.sorted.len()
            invariant
                i <= self.sorted.len(),
                offsets == gap_offsets(self@.sorted, cumulative_tsn),
                i == 0 ==> gap_ack_blocks@.len() == 0,
                i > 0 ==> gap_blocks(offsets.take(i as int)) == gap_ack_blocks@.push(b),
            decreases self.sorted.len() - i,
        {
            let tsn = self.sorted[i];
            let diff: u16 = if tsn >= cumulative_tsn {
                ((tsn - cumulative_tsn) % 0x1_0000) as u16
            } else {
                0
            };
            let ghost before = offsets.take(i as int);
            let ghost now = offsets.take(i + 1);
            assert(now.drop_last() =~= before);
            assert(now.last() == diff);
            if i == 0 {
                b.start = diff;
                b.end = diff;
                assert(gap_blocks(before) =~= seq![]);
                assert(gap_blocks(now) =~= gap_ack_blocks@.push(b));
            } else if b.end.wrapping_add(1) == diff {
                let ghost blocks = gap_ack_blocks@.push(b);
                b.end = diff;
                assert(blocks.drop_last() =~= gap_ack_blocks@);
            } else {
                gap_ack_blocks.push(b);
                b.start = diff;
                b.end = diff;
            }
            i += 1;
        }
        gap_ack_blocks.push(b);
        assert(offsets.take(i as int) =~= offsets);
        gap_ack_blocks
    }

    /// The blocks of TSNs behind the cumulative one, as text.
    pub fn get_gap_ack_blocks_string(&self, cumulative_tsn: u32) -> (r: String)
        requires
            self@.wf(),
        ensures
            r@ == "cumTSN="@ + decimal(cumulative_tsn as nat) + blocks_text(
                self@.gap_ack_blocks(cumulative_tsn),
            ),
    {
        let mut s = String::new();
        s.append("cumTSN=");
        append_decimal(&mut s, cumulative_tsn as u64);
        let ghost head = s@;
        let blocks = self.get_gap_ack_blocks(cumulative_tsn);
        let mut i: usize = 0;
        assert(blocks@.take(0) =~= seq![]);
        assert(s@ =~= head + blocks_text(blocks@.take(0)));
        while i < blocks.len()
            invariant
                i <= blocks.len(),
                s@ == head + blocks_text(blocks@.take(i as int)),
            decreases blocks.len() - i,
        {
            s.append(",");
            append_decimal(&mut s, blocks[i].start as u64);
            s.append("-");
            append_decimal(&mut s, blocks[i].end as u64);
            assert(blocks@.take(i + 1).drop_last() =~= blocks@.take(i as int));
            assert(s@ =~= head + blocks_text(blocks@.take(i + 1)));
            i += 1;
        }
        assert(blocks@.take(i as int) =~= blocks@);
        assert(s@ =~= "cumTSN="@ + decimal(cumulative_tsn as nat) + blocks_text(blocks@));
        s
    }

    /// Marks the chunk with the given TSN as acknowledged and drops its data; returns how
    /// many bytes that were.
    pub fn mark_as_acked(&mut self, tsn: u32) -> (r: usize)
        requires
            old(self)@.wf(),
        ensures
            r == old(self)@.bytes_of(tsn),
            final(self)@ == old(self)@.mark_as_acked(tsn),
            final(self)@.wf(),
    {
        reveal(PayloadQueueView::mark_as_acked);
        proof {
            lemma_mark_as_acked_wf(self@, tsn);
        }
        let n = match self.get_mut(tsn) {
            Some(c) => {
                c.acked = true;
                c.retransmit = false;
                let n = bytes_len(&c.user_data);
                bytes_clear(&mut c.user_data);
                n
            },
            None => return 0,
        };
        self.n_bytes = self.n_bytes - n;
        assert(self@ =~= old(self)@.mark_as_acked(tsn));
        n
    }

    /// The newest TSN.
    pub fn get_last_tsn_received(&self) -> (r: Option<&u32>)
        ensures
            match r {
                Some(t) => self@.sorted.len() > 0 && *t == self@.sorted.last(),
                None => self@.sorted.len() == 0,
            },
    {
        if self.sorted.len() == 0 {
            None
        } else {
            Some(&self.sorted[self.sorted.len() - 1])
        }
    }

    /// Marks every chunk to be sent again that is neither acknowledged nor given up.
    pub fn mark_all_to_retrasmit(&mut self)
        requires
            old(self)@.wf(),
        ensures
            final(self)@ == old(self)@.mark_all_to_retransmit(),
            final(self)@.wf(),
    {
        reveal(PayloadQueueView::mark_all_to_retransmit);
        reveal(PayloadQueueView::wf);
        let ghost q = self@;
        let ghost want = q.mark_all_to_retransmit();
        let mut i: usize = 0;
        while i < self.sorted.len()
            invariant
                i <= self.sorted.len(),
                q == old(self)@,
                q.wf(),
                self@.sorted == q.sorted,
                self@.dup_tsn == q.dup_tsn,
                self@.n_bytes == q.n_bytes,
                self@.chunks.dom() == q.chunks.dom(),
                forall|t: u32| #[trigger]
                    q.chunks.contains_key(t) ==> {
                        ||| self@.chunks[t] == to_retransmit(q.chunks[t])
                        ||| self@.chunks[t] == q.chunks[t] && !q.sorted.take(i as int).contains(t)
                    },
            decreases self.sorted.len() - i,
        {
            let tsn = self.sorted[i];
            let ghost before = self@.chunks;
            if let Some(c) = self.get_mut(tsn) {
                if !(c.acked || c.abandoned()) {
                    c.retransmit = true;
                }
            }
            proof {
                assert(self@.chunks.dom() =~= q.chunks.dom());
                let a = q.sorted.take(i as int);
                let b = q.sorted.take(i + 1);
                assert(b =~= a.push(tsn));
                assert forall|t: u32| #[trigger] q.chunks.contains_key(t) implies {
                    ||| self@.chunks[t] == to_retransmit(q.chunks[t])
                    ||| self@.chunks[t] == q.chunks[t] && !b.contains(t)
                } by {
                    if b.contains(t) && t != tsn {
                        let j = choose|j: int| 0 <= j < b.len() && b[j] == t;
                        assert(a[j] == t);
                    }
                }
            }
            i += 1;
        }
        proof {
            assert(q.sorted.take(i as int) =~= q.sorted);
            assert(self@.chunks =~= want.chunks);
            lemma_retransmit_wf(q);
        }
    }

    /// The number of bytes of user data.
    pub fn get_num_bytes(&self) -> (r: usize)
        ensures
            r == self@.n_bytes,
    {
        self.n_bytes
    }

    /// The number of chunks.
    pub fn len(&self) -> (r: usize)
        ensures
            r == self@.chunks.dom().len(),
    {
        broadcast use vstd::std_specs::hash::group_hash_axioms;

        assert(self@.chunks.dom() =~= self.chunk_map@.dom());
        self.chunk_map.len()
    }

    /// Whether there are no chunks.
    pub fn is_empty(&self) -> (r: bool)
        requires
            self@.wf(),
        ensures
            r == self@.chunks.dom().is_empty(),
    {
        reveal(PayloadQueueView::wf);
        let n = self.len();
        proof {
            if n == 0 {
                assert(self@.chunks.dom() =~= Set::empty());
            }
        }
        n == 0
    }
}

} // verus!
