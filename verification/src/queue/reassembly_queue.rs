//! DATA chunks of a stream, put together to messages.

use vstd::prelude::*;

use crate::buffer::bytes_len;
use crate::chunk::payload::{data_views, remove_chunk, ChunkPayloadData, DataView};
use crate::util::{after32, before16, before32, low32, sna16lt, sna16lte, sna32gt, sna32lt, trunc32};

verus! {

/// The fragments of an ordered message that were received, in the order of their TSNs.
#[derive(Debug)]
pub struct ChunkSet {
    pub ssn: u16,
    pub chunks: Vec<ChunkPayloadData>,
}

/// The content of a [`ChunkSet`].
#[verifier::ext_equal]
pub struct ChunkSetView {
    pub ssn: u16,
    pub chunks: Seq<DataView>,
}

impl View for ChunkSet {
    type V = ChunkSetView;

    open spec fn view(&self) -> ChunkSetView {
        ChunkSetView { ssn: self.ssn, chunks: data_views(self.chunks@) }
    }
}

/// What a stream received and the user did not read yet.
#[derive(Debug)]
pub struct ReassemblyQueue {
    pub si: u16,
    pub next_ssn: u16,
    /// Ordered messages, complete or not.
    pub ordered: Vec<ChunkSet>,
    /// Unordered messages that are complete.
    pub unordered: Vec<ChunkSet>,
    /// Fragments of unordered messages that are not complete.
    pub unordered_chunks: Vec<ChunkPayloadData>,
    /// The number of bytes of user data, modulo 2^32.
    pub n_bytes: u32,
}

/// The content of a [`ReassemblyQueue`].
#[verifier::ext_equal]
pub struct ReassemblyView {
    pub si: u16,
    pub next_ssn: u16,
    pub ordered: Seq<ChunkSetView>,
    pub unordered: Seq<ChunkSetView>,
    pub unordered_chunks: Seq<DataView>,
    pub n_bytes: u32,
}

/// The contents of sets.
pub open spec fn set_views(s: Seq<ChunkSet>) -> Seq<ChunkSetView> {
    s.map_values(|c: ChunkSet| c@)
}

impl View for ReassemblyQueue {
    type V = ReassemblyView;

    open spec fn view(&self) -> ReassemblyView {
        ReassemblyView {
            si: self.si,
            next_ssn: self.next_ssn,
            ordered: set_views(self.ordered@),
            unordered: set_views(self.unordered@),
            unordered_chunks: data_views(self.unordered_chunks@),
            n_bytes: self.n_bytes,
        }
    }
}

/// Whether chunks are all fragments of a message: from the one that begins it to the one that
/// ends it, without a gap.
pub open spec fn complete(s: Seq<DataView>) -> bool {
    &&& s.len() > 0
    &&& s[0].beginning_fragment
    &&& s.last().ending_fragment
    &&& forall|i: int| 1 <= i < s.len() ==> #[trigger] continues(s, i)
}

/// Whether the chunk at `i` directly follows the one before.
pub open spec fn continues(s: Seq<DataView>, i: int) -> bool {
    s[i].tsn == s[i - 1].tsn.wrapping_add(1)
}

/// Where `tsn` belongs among the first `n` chunks: behind the last that it does not lie before.
pub open spec fn place_of_tsn(s: Seq<DataView>, tsn: u32, n: int) -> int
    decreases n,
{
    if n <= 0 || !before32(tsn, s[n - 1].tsn) {
        n
    } else {
        place_of_tsn(s, tsn, n - 1)
    }
}

/// Where `ssn` belongs among the first `n` sets.
pub open spec fn place_of_ssn(s: Seq<ChunkSetView>, ssn: u16, n: int) -> int
    decreases n,
{
    if n <= 0 || !before16(ssn, s[n - 1].ssn) {
        n
    } else {
        place_of_ssn(s, ssn, n - 1)
    }
}

/// `c` put among chunks in the order of TSNs.
pub open spec fn insert_chunk(s: Seq<DataView>, c: DataView) -> Seq<DataView> {
    s.insert(place_of_tsn(s, c.tsn, s.len() as int), c)
}

/// Whether a chunk with this TSN is there.
pub open spec fn has_tsn(s: Seq<DataView>, tsn: u32) -> bool {
    exists|i: int| 0 <= i < s.len() && (#[trigger] s[i]).tsn == tsn
}

/// The set of an ordered message among the first `n` of them: the first that has this number.
pub open spec fn set_of_ssn(s: Seq<ChunkSetView>, ssn: u16, i: int) -> int
    decreases s.len() - i,
{
    if i >= s.len() || s[i].ssn == ssn {
        i
    } else {
        set_of_ssn(s, ssn, i + 1)
    }
}

/// The first run of chunks from `i` on that makes up a message, as the indices of its first
/// chunk and behind its last one. `start` is where a run began that `i` may continue.
pub open spec fn find_message(s: Seq<DataView>, i: int, start: Option<int>) -> Option<(int, int)>
    decreases s.len() - i,
{
    if i >= s.len() {
        None
    } else if s[i].beginning_fragment {
        if s[i].ending_fragment {
            Some((i, i + 1))
        } else {
            find_message(s, i + 1, Some(i))
        }
    } else {
        match start {
            Some(a) if continues(s, i) => if s[i].ending_fragment {
                Some((a, i + 1))
            } else {
                find_message(s, i + 1, start)
            },
            _ => find_message(s, i + 1, None),
        }
    }
}

/// The chunks that are found are all fragments of a message.
pub proof fn law_found_message_is_complete(s: Seq<DataView>)
    ensures
        find_message(s, 0, None) matches Some((a, b)) ==> 0 <= a < b <= s.len() && complete(
            s.subrange(a, b),
        ),
{
    lemma_find_message(s, 0, None);
}

/// From `a` on a message begins and goes on without a gap up to `i`.
pub open spec fn run_open(s: Seq<DataView>, a: int, i: int) -> bool {
    &&& 0 <= a < i <= s.len()
    &&& s[a].beginning_fragment
    &&& forall|j: int| a < j < i ==> #[trigger] continues(s, j)
}

proof fn lemma_find_message(s: Seq<DataView>, i: int, start: Option<int>)
    requires
        0 <= i,
        start matches Some(a) ==> run_open(s, a, i),
    ensures
        find_message(s, i, start) matches Some((a, b)) ==> 0 <= a < b <= s.len() && complete(
            s.subrange(a, b),
        ),
    decreases s.len() - i,
{
    if i < s.len() {
        if s[i].beginning_fragment {
            if s[i].ending_fragment {
                assert(complete(s.subrange(i, i + 1)));
            } else {
                lemma_find_message(s, i + 1, Some(i));
            }
        } else {
            match start {
                Some(a) if continues(s, i) => {
                    assert(run_open(s, a, i + 1));
                    if s[i].ending_fragment {
                        let m = s.subrange(a, i + 1);
                        assert forall|j: int| 1 <= j < m.len() implies #[trigger] continues(
                            m,
                            j,
                        ) by {
                            assert(continues(s, a + j));
                        }
                        assert(complete(m));
                    } else {
                        lemma_find_message(s, i + 1, start);
                    }
                },
                _ => {
                    lemma_find_message(s, i + 1, None);
                },
            }
        }
    }
}

/// A count of bytes with the data of the first `n` chunks taken off.
pub open spec fn without_bytes(n_bytes: u32, s: Seq<DataView>, n: int) -> u32
    decreases n,
{
    if n <= 0 {
        n_bytes
    } else {
        without_bytes(n_bytes, s, n - 1).wrapping_sub(low32(s[n - 1].user_data.len() as int))
    }
}

/// Whether a message is skipped with `last_ssn`: it is not behind it, and not complete.
pub open spec fn is_skipped(s: ChunkSetView, last_ssn: u16) -> bool {
    (s.ssn == last_ssn || before16(s.ssn, last_ssn)) && !complete(s.chunks)
}

/// The messages that are left of the first `n`.
pub open spec fn not_skipped(s: Seq<ChunkSetView>, last_ssn: u16, n: int) -> Seq<ChunkSetView>
    decreases n,
{
    if n <= 0 {
        seq![]
    } else if is_skipped(s[n - 1], last_ssn) {
        not_skipped(s, last_ssn, n - 1)
    } else {
        not_skipped(s, last_ssn, n - 1).push(s[n - 1])
    }
}

/// A count of bytes with the skipped ones of the first `n` messages taken off.
pub open spec fn without_skipped(
    n_bytes: u32,
    s: Seq<ChunkSetView>,
    last_ssn: u16,
    n: int,
) -> u32
    decreases n,
{
    if n <= 0 {
        n_bytes
    } else {
        let before = without_skipped(n_bytes, s, last_ssn, n - 1);
        if is_skipped(s[n - 1], last_ssn) {
            without_bytes(before, s[n - 1].chunks, s[n - 1].chunks.len() as int)
        } else {
            before
        }
    }
}

/// How many of the first chunks do not lie after `tsn`.
pub open spec fn n_upto(s: Seq<DataView>, tsn: u32, i: int) -> int
    decreases s.len() - i,
{
    if i >= s.len() || after32(s[i].tsn, tsn) {
        i
    } else {
        n_upto(s, tsn, i + 1)
    }
}

impl ReassemblyView {
    /// Nothing was received yet.
    pub open spec fn empty(si: u16) -> ReassemblyView {
        ReassemblyView {
            si,
            next_ssn: 0,
            ordered: seq![],
            unordered: seq![],
            unordered_chunks: seq![],
            n_bytes: 0,
        }
    }

    /// The queue with a chunk put in. One of another stream or of an ordered message that was
    /// read or skipped changes nothing; one that completes an unordered message moves it to
    /// the complete ones.
    pub open spec fn push(self, c: DataView) -> ReassemblyView {
        let n_bytes = self.n_bytes.wrapping_add(low32(c.user_data.len() as int));
        if c.stream_identifier != self.si {
            self
        } else if c.unordered {
            let cs = insert_chunk(self.unordered_chunks, c);
            match find_message(cs, 0, None) {
                Some((a, b)) => ReassemblyView {
                    unordered: self.unordered.push(
                        ChunkSetView { ssn: 0, chunks: cs.subrange(a, b) },
                    ),
                    unordered_chunks: cs.take(a) + cs.skip(b),
                    n_bytes,
                    ..self
                },
                None => ReassemblyView { unordered_chunks: cs, n_bytes, ..self },
            }
        } else if before16(c.stream_sequence_number, self.next_ssn) {
            self
        } else {
            ReassemblyView {
                ordered: put_ordered(self.ordered, c),
                n_bytes,
                ..self
            }
        }
    }

    /// Whether a message can be read.
    pub open spec fn is_readable(self) -> bool {
        ||| self.unordered.len() > 0
        ||| self.ordered.len() > 0 && complete(self.ordered[0].chunks) && (self.ordered[0].ssn
            == self.next_ssn || before16(self.ordered[0].ssn, self.next_ssn))
    }

    /// The message that is read next.
    pub open spec fn next_message(self) -> Option<Seq<DataView>> {
        if self.unordered.len() > 0 {
            Some(self.unordered[0].chunks)
        } else if self.is_readable() {
            Some(self.ordered[0].chunks)
        } else {
            None
        }
    }

    /// The queue after a message was read.
    pub open spec fn read(self) -> ReassemblyView {
        if self.unordered.len() > 0 {
            let cs = self.unordered[0].chunks;
            ReassemblyView {
                unordered: self.unordered.drop_first(),
                n_bytes: without_bytes(self.n_bytes, cs, cs.len() as int),
                ..self
            }
        } else if self.is_readable() {
            let cs = self.ordered[0].chunks;
            ReassemblyView {
                ordered: self.ordered.drop_first(),
                next_ssn: if self.ordered[0].ssn == self.next_ssn {
                    self.next_ssn.wrapping_add(1)
                } else {
                    self.next_ssn
                },
                n_bytes: without_bytes(self.n_bytes, cs, cs.len() as int),
                ..self
            }
        } else {
            self
        }
    }

    /// The queue with the incomplete ordered messages up to `last_ssn` skipped.
    pub open spec fn forward_ordered(self, last_ssn: u16) -> ReassemblyView {
        let n = self.ordered.len() as int;
        ReassemblyView {
            ordered: not_skipped(self.ordered, last_ssn, n),
            n_bytes: without_skipped(self.n_bytes, self.ordered, last_ssn, n),
            next_ssn: if self.next_ssn == last_ssn || before16(self.next_ssn, last_ssn) {
                last_ssn.wrapping_add(1)
            } else {
                self.next_ssn
            },
            ..self
        }
    }

    /// The queue with the fragments of incomplete unordered messages up to `tsn` skipped.
    pub open spec fn forward_unordered(self, tsn: u32) -> ReassemblyView {
        let n = n_upto(self.unordered_chunks, tsn, 0);
        ReassemblyView {
            unordered_chunks: self.unordered_chunks.skip(n),
            n_bytes: without_bytes(self.n_bytes, self.unordered_chunks, n),
            ..self
        }
    }
}

/// Ordered messages with a fragment put in, each fragment once.
pub open spec fn put_ordered(sets: Seq<ChunkSetView>, c: DataView) -> Seq<ChunkSetView> {
    let ssn = c.stream_sequence_number;
    let k = set_of_ssn(sets, ssn, 0);
    if k < sets.len() {
        if has_tsn(sets[k].chunks, c.tsn) {
            sets
        } else {
            sets.update(k, ChunkSetView { ssn, chunks: insert_chunk(sets[k].chunks, c) })
        }
    } else {
        sets.insert(
            place_of_ssn(sets, ssn, sets.len() as int),
            ChunkSetView { ssn, chunks: seq![c] },
        )
    }
}

/// Puts a chunk among others in the order of TSNs.
fn insert_by_tsn(v: &mut Vec<ChunkPayloadData>, c: ChunkPayloadData)
    ensures
        data_views(final(v)@) == insert_chunk(data_views(old(v)@), c@),
{
    let ghost s = data_views(v@);
    let mut i: usize = v.len();
    while i > 0 && sna32lt(c.tsn, v[i - 1].tsn)
        invariant
            i <= v.len(),
            v@ == old(v)@,
            s == data_views(v@),
            place_of_tsn(s, c.tsn, i as int) == place_of_tsn(s, c.tsn, s.len() as int),
        decreases i,
    {
        i -= 1;
    }
    let ghost cv = c@;
    v.insert(i, c);
    assert(data_views(v@) =~= insert_chunk(s, cv));
}

/// Whether chunks are all fragments of a message.
fn is_complete(v: &Vec<ChunkPayloadData>) -> (r: bool)
    ensures
        r == complete(data_views(v@)),
{
    let ghost s = data_views(v@);
    if v.len() == 0 {
        return false;
    }
    if !v[0].beginning_fragment || !v[v.len() - 1].ending_fragment {
        assert(s[0] == v@[0]@ && s.last() == v@[v@.len() - 1]@);
        return false;
    }
    let mut i: usize = 1;
    while i < v.len()
        invariant
            1 <= i <= v.len(),
            s == data_views(v@),
            forall|j: int| 1 <= j < i ==> #[trigger] continues(s, j),
        decreases v.len() - i,
    {
        assert(s[i as int] == v@[i as int]@ && s[i - 1] == v@[i - 1]@);
        if v[i].tsn != v[i - 1].tsn.wrapping_add(1) {
            assert(!continues(s, i as int));
            return false;
        }
        i += 1;
    }
    true
}

/// Takes the first set out.
fn remove_first(v: &mut Vec<ChunkSet>) -> (r: ChunkSet)
    requires
        old(v).len() > 0,
    ensures
        r@ == set_views(old(v)@)[0],
        set_views(final(v)@) == set_views(old(v)@).drop_first(),
        final(v).len() == old(v).len() - 1,
{
    let r = v.remove(0);
    assert(set_views(v@) =~= set_views(old(v)@).drop_first());
    r
}

/// Takes the data of chunks off a count of bytes.
fn subtract_bytes(n_bytes: u32, v: &Vec<ChunkPayloadData>, n: usize) -> (r: u32)
    requires
        n <= v.len(),
    ensures
        r == without_bytes(n_bytes, data_views(v@), n as int),
{
    let mut r: u32 = n_bytes;
    let mut i: usize = 0;
    while i < n
        invariant
            i <= n <= v.len(),
            r == without_bytes(n_bytes, data_views(v@), i as int),
        decreases n - i,
    {
        assert(data_views(v@)[i as int] == v@[i as int]@);
        r = r.wrapping_sub(trunc32(bytes_len(&v[i].user_data)));
        i += 1;
    }
    r
}

impl ReassemblyQueue {
    /// A queue that nothing was received on.
    pub fn new(si: u16) -> (r: Self)
        ensures
            r@ == ReassemblyView::empty(si),
    {
        let q = ReassemblyQueue {
            si,
            next_ssn: 0,
            ordered: Vec::new(),
            unordered: Vec::new(),
            unordered_chunks: Vec::new(),
            n_bytes: 0,
        };
        assert(q@ =~= ReassemblyView::empty(si));
        q
    }

    /// Puts a chunk in.
    pub fn push(&mut self, c: ChunkPayloadData)
        ensures
            final(self)@ == old(self)@.push(c@),
    {
        if c.stream_identifier != self.si {
            return;
        }
        let ghost cv = c@;
        let n = trunc32(bytes_len(&c.user_data));
        if c.unordered {
            insert_by_tsn(&mut self.unordered_chunks, c);
            self.n_bytes = self.n_bytes.wrapping_add(n);
            let ghost cs = self@.unordered_chunks;
            if let Some((a, b)) = self.find_complete_unordered_chunk_set() {
                proof {
                    law_found_message_is_complete(cs);
                }
                let mut chunks: Vec<ChunkPayloadData> = Vec::new();
                let mut i: usize = a;
                assert(data_views(chunks@) =~= cs.subrange(a as int, i as int));
                assert(data_views(self.unordered_chunks@) =~= cs.take(a as int) + cs.skip(
                    i as int,
                ));
                while i < b
                    invariant
                        a <= i <= b <= cs.len(),
                        data_views(chunks@) == cs.subrange(a as int, i as int),
                        data_views(self.unordered_chunks@) == cs.take(a as int) + cs.skip(i as int),
                        self.si == old(self).si,
                        self.next_ssn == old(self).next_ssn,
                        self.ordered == old(self).ordered,
                        self.unordered == old(self).unordered,
                        self.n_bytes == old(self).n_bytes.wrapping_add(n),
                    decreases b - i,
                {
                    assert(data_views(self.unordered_chunks@).len()
                        == self.unordered_chunks@.len());
                    let x = remove_chunk(&mut self.unordered_chunks, a);
                    assert(x@ == cs[i as int]);
                    let ghost xv = x@;
                    let ghost before = data_views(chunks@);
                    chunks.push(x);
                    assert(data_views(chunks@) =~= before.push(xv));
                    assert(data_views(chunks@) =~= cs.subrange(a as int, i + 1));
                    assert(data_views(self.unordered_chunks@) =~= cs.take(a as int) + cs.skip(
                        i + 1,
                    ));
                    i += 1;
                }
                self.unordered.push(ChunkSet { ssn: 0, chunks });
            }
            assert(self@ =~= old(self)@.push(cv));
            return;
        }
        if sna16lt(c.stream_sequence_number, self.next_ssn) {
            return;
        }
        self.n_bytes = self.n_bytes.wrapping_add(n);
        self.push_ordered(c);
        assert(self@ =~= old(self)@.push(cv));
    }

    /// Puts a fragment of an ordered message in.
    fn push_ordered(&mut self, c: ChunkPayloadData)
        ensures
            final(self)@ == (ReassemblyView {
                ordered: put_ordered(old(self)@.ordered, c@),
                ..old(self)@
            }),
    {
        let ghost cv = c@;
        let ghost sets = self@.ordered;
        let ssn = c.stream_sequence_number;
        let mut k: usize = 0;
        while k < self.ordered.len() && self.ordered[k].ssn != ssn
            invariant
                k <= self.ordered.len(),
                self@ == old(self)@,
                sets == self@.ordered,
                set_of_ssn(sets, ssn, 0) == set_of_ssn(sets, ssn, k as int),
            decreases self.ordered.len() - k,
        {
            assert(sets[k as int] == self.ordered@[k as int]@);
            k += 1;
        }
        if k < self.ordered.len() {
            assert(sets[k as int] == self.ordered@[k as int]@);
            let ghost cs = sets[k as int].chunks;
            let mut i: usize = 0;
            while i < self.ordered[k].chunks.len()
                invariant
                    k < self.ordered.len(),
                    i <= self.ordered@[k as int].chunks.len(),
                    self@ == old(self)@,
                    sets == self@.ordered,
                    cs == data_views(self.ordered@[k as int].chunks@),
                    cv == c@,
                    ssn == cv.stream_sequence_number,
                    k == set_of_ssn(sets, ssn, 0),
                    cs == sets[k as int].chunks,
                    forall|j: int| 0 <= j < i ==> (#[trigger] cs[j]).tsn != c.tsn,
                decreases self.ordered@[k as int].chunks.len() - i,
            {
                assert(cs[i as int] == self.ordered@[k as int].chunks@[i as int]@);
                if self.ordered[k].chunks[i].tsn == c.tsn {
                    assert(has_tsn(cs, cv.tsn));
                    assert(self@ =~= (ReassemblyView {
                        ordered: put_ordered(old(self)@.ordered, cv),
                        ..old(self)@
                    }));
                    return;
                }
                i += 1;
            }
            assert(!has_tsn(cs, cv.tsn));
            let mut set = self.ordered.remove(k);
            insert_by_tsn(&mut set.chunks, c);
            self.ordered.insert(k, set);
            assert(self@.ordered =~= put_ordered(sets, cv));
        } else {
            let mut i: usize = self.ordered.len();
            while i > 0 && sna16lt(ssn, self.ordered[i - 1].ssn)
                invariant
                    i <= self.ordered.len(),
                    self@ == old(self)@,
                    sets == self@.ordered,
                    place_of_ssn(sets, ssn, i as int) == place_of_ssn(
                        sets,
                        ssn,
                        sets.len() as int,
                    ),
                decreases i,
            {
                assert(sets[i - 1] == self.ordered@[i - 1]@);
                i -= 1;
            }
            if i > 0 {
                assert(sets[i - 1] == self.ordered@[i - 1]@);
            }
            let mut chunks: Vec<ChunkPayloadData> = Vec::new();
            chunks.push(c);
            assert(data_views(chunks@) =~= seq![cv]);
            let set = ChunkSet { ssn, chunks };
            self.ordered.insert(i, set);
            assert(self@.ordered =~= put_ordered(sets, cv));
        }
    }

    /// Where the first unordered message that is complete begins and ends.
    fn find_complete_unordered_chunk_set(&self) -> (r: Option<(usize, usize)>)
        ensures
            match r {
                Some((a, b)) => find_message(self@.unordered_chunks, 0, None) == Some(
                    (a as int, b as int),
                ),
                None => find_message(self@.unordered_chunks, 0, None) is None,
            },
    {
        let ghost s = self@.unordered_chunks;
        let mut i: usize = 0;
        let mut start: Option<usize> = None;
        while i < self.unordered_chunks.len()
            invariant
                i <= self.unordered_chunks.len(),
                s == self@.unordered_chunks,
                start is Some ==> i > 0,
                find_message(s, 0, None) == find_message(
                    s,
                    i as int,
                    match start {
                        Some(a) => Some(a as int),
                        None => None,
                    },
                ),
            decreases self.unordered_chunks.len() - i,
        {
            let c = &self.unordered_chunks[i];
            assert(s[i as int] == c@);
            if c.beginning_fragment {
                if c.ending_fragment {
                    return Some((i, i + 1));
                }
                start = Some(i);
            } else if let Some(a) = start {
                assert(s[i - 1] == self.unordered_chunks@[i - 1]@);
                if c.tsn != self.unordered_chunks[i - 1].tsn.wrapping_add(1) {
                    start = None;
                } else if c.ending_fragment {
                    return Some((a, i + 1));
                }
            }
            i += 1;
        }
        None
    }

    /// Whether a message can be read.
    pub fn is_readable(&self) -> (r: bool)
        ensures
            r == self@.is_readable(),
    {
        if self.unordered.len() > 0 {
            return true;
        }
        if self.ordered.len() > 0 {
            assert(self@.ordered[0] == self.ordered@[0]@);
            return is_complete(&self.ordered[0].chunks) && sna16lte(
                self.ordered[0].ssn,
                self.next_ssn,
            );
        }
        false
    }

    /// Reads a message: its fragments.
    pub fn read(&mut self) -> (r: Option<Vec<ChunkPayloadData>>)
        ensures
            match r {
                Some(cs) => old(self)@.next_message() == Some(data_views(cs@)),
                None => old(self)@.next_message() is None,
            },
            final(self)@ == old(self)@.read(),
    {
        if self.unordered.len() > 0 {
            let set = remove_first(&mut self.unordered);
            self.n_bytes = subtract_bytes(self.n_bytes, &set.chunks, set.chunks.len());
            assert(self@ =~= old(self)@.read());
            return Some(set.chunks);
        }
        if self.is_readable() {
            let set = remove_first(&mut self.ordered);
            if set.ssn == self.next_ssn {
                self.next_ssn = self.next_ssn.wrapping_add(1);
            }
            self.n_bytes = subtract_bytes(self.n_bytes, &set.chunks, set.chunks.len());
            assert(self@ =~= old(self)@.read());
            return Some(set.chunks);
        }
        None
    }

    /// Skips the incomplete ordered messages up to `last_ssn`.
    pub fn forward_tsn_for_ordered(&mut self, last_ssn: u16)
        ensures
            final(self)@ == old(self)@.forward_ordered(last_ssn),
    {
        let ghost sets = self@.ordered;
        let mut all: Vec<ChunkSet> = Vec::new();
        std::mem::swap(&mut all, &mut self.ordered);
        let n = all.len();
        let mut i: usize = 0;
        assert(set_views(self.ordered@) =~= seq![]);
        while i < n
            invariant
                i <= n,
                n == sets.len(),
                n - i == all.len(),
                sets == old(self)@.ordered,
                set_views(all@) == sets.skip(i as int),
                set_views(self.ordered@) == not_skipped(sets, last_ssn, i as int),
                self.n_bytes == without_skipped(old(self).n_bytes, sets, last_ssn, i as int),
                self.si == old(self).si,
                self.next_ssn == old(self).next_ssn,
                self.unordered == old(self).unordered,
                self.unordered_chunks == old(self).unordered_chunks,
            decreases n - i,
        {
            let s = remove_first(&mut all);
            assert(s@ == sets[i as int]);
            assert(set_views(all@) =~= sets.skip(i + 1));
            if sna16lte(s.ssn, last_ssn) && !is_complete(&s.chunks) {
                self.n_bytes = subtract_bytes(self.n_bytes, &s.chunks, s.chunks.len());
            } else {
                self.ordered.push(s);
                assert(set_views(self.ordered@) =~= not_skipped(sets, last_ssn, i + 1));
            }
            i += 1;
        }
        if sna16lte(self.next_ssn, last_ssn) {
            self.next_ssn = last_ssn.wrapping_add(1);
        }
        assert(self@ =~= old(self)@.forward_ordered(last_ssn));
    }

    /// Skips the fragments of incomplete unordered messages up to `new_cumulative_tsn`.
    pub fn forward_tsn_for_unordered(&mut self, new_cumulative_tsn: u32)
        ensures
            final(self)@ == old(self)@.forward_unordered(new_cumulative_tsn),
    {
        let ghost s = self@.unordered_chunks;
        let mut n: usize = 0;
        while n < self.unordered_chunks.len() && !sna32gt(
            self.unordered_chunks[n].tsn,
            new_cumulative_tsn,
        )
            invariant
                n <= self.unordered_chunks.len(),
                s == self@.unordered_chunks,
                n_upto(s, new_cumulative_tsn, 0) == n_upto(s, new_cumulative_tsn, n as int),
            decreases self.unordered_chunks.len() - n,
        {
            assert(s[n as int] == self.unordered_chunks@[n as int]@);
            n += 1;
        }
        if n < self.unordered_chunks.len() {
            assert(s[n as int] == self.unordered_chunks@[n as int]@);
        }
        self.n_bytes = subtract_bytes(self.n_bytes, &self.unordered_chunks, n);
        let mut i: usize = 0;
        assert(s.skip(0) =~= s);
        while i < n
            invariant
                i <= n <= s.len(),
                data_views(self.unordered_chunks@) == s.skip(i as int),
                self.unordered_chunks.len() == s.len() - i,
                self.n_bytes == without_bytes(old(self).n_bytes, s, n as int),
                self.si == old(self).si,
                self.next_ssn == old(self).next_ssn,
                self.ordered == old(self).ordered,
                self.unordered == old(self).unordered,
            decreases n - i,
        {
            assert(data_views(self.unordered_chunks@).len() == self.unordered_chunks@.len());
            remove_chunk(&mut self.unordered_chunks, 0);
            assert(data_views(self.unordered_chunks@) =~= s.skip(i + 1));
            i += 1;
        }
        assert(self@ =~= old(self)@.forward_unordered(new_cumulative_tsn));
    }

    /// The number of bytes of user data, modulo 2^32.
    pub fn get_num_bytes(&self) -> (r: u32)
        ensures
            r == self@.n_bytes,
    {
        self.n_bytes
    }
}

} // verus!
