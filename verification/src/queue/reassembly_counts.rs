//! How many bytes a [`ReassemblyQueue`](crate::queue::reassembly_queue::ReassemblyQueue) holds,
//! and the order in which messages are read.

use vstd::prelude::*;

use crate::chunk::payload::DataView;
use crate::queue::pending_queue::data_bytes;
use crate::queue::reassembly_queue::{
    complete, find_message, has_tsn, insert_chunk, law_found_message_is_complete, n_upto,
    not_skipped, place_of_ssn, place_of_tsn, put_ordered, set_of_ssn, without_bytes,
    without_skipped, ChunkSetView, ReassemblyView,
};
use crate::util::{before16, fwd16, fwd32};

verus! {

/// The bytes of all messages.
pub open spec fn set_bytes(s: Seq<ChunkSetView>) -> nat
    decreases s.len(),
{
    if s.len() == 0 {
        0
    } else {
        set_bytes(s.drop_last()) + data_bytes(s.last().chunks)
    }
}

/// The bytes that a queue holds.
pub open spec fn held_bytes(q: ReassemblyView) -> nat {
    set_bytes(q.ordered) + set_bytes(q.unordered) + data_bytes(q.unordered_chunks)
}

/// The count of bytes is that of the bytes held, modulo 2^32.
pub open spec fn is_tallied(q: ReassemblyView) -> bool {
    q.n_bytes == held_bytes(q) % 0x1_0000_0000
}

/// The bytes of two sequences of chunks.
pub proof fn lemma_bytes_joined(a: Seq<DataView>, b: Seq<DataView>)
    ensures
        data_bytes(a + b) == data_bytes(a) + data_bytes(b),
    decreases b.len(),
{
    if b.len() == 0 {
        assert(a + b =~= a);
    } else {
        lemma_bytes_joined(a, b.drop_last());
        assert((a + b).drop_last() =~= a + b.drop_last());
    }
}

proof fn lemma_bytes_one(c: DataView)
    ensures
        data_bytes(seq![c]) == c.user_data.len(),
{
    assert(seq![c].drop_last() =~= seq![]);
    assert(data_bytes(seq![]) == 0);
}

proof fn lemma_sets_joined(a: Seq<ChunkSetView>, b: Seq<ChunkSetView>)
    ensures
        set_bytes(a + b) == set_bytes(a) + set_bytes(b),
    decreases b.len(),
{
    if b.len() == 0 {
        assert(a + b =~= a);
    } else {
        lemma_sets_joined(a, b.drop_last());
        assert((a + b).drop_last() =~= a + b.drop_last());
    }
}

proof fn lemma_sets_one(c: ChunkSetView)
    ensures
        set_bytes(seq![c]) == data_bytes(c.chunks),
{
    assert(seq![c].drop_last() =~= seq![]);
    assert(set_bytes(seq![]) == 0);
}

proof fn lemma_place_of_tsn(s: Seq<DataView>, tsn: u32, n: int)
    requires
        0 <= n <= s.len(),
    ensures
        0 <= place_of_tsn(s, tsn, n) <= n,
    decreases n,
{
    if n > 0 && crate::util::before32(tsn, s[n - 1].tsn) {
        lemma_place_of_tsn(s, tsn, n - 1);
    }
}

proof fn lemma_place_of_ssn(s: Seq<ChunkSetView>, ssn: u16, n: int)
    requires
        0 <= n <= s.len(),
    ensures
        0 <= place_of_ssn(s, ssn, n) <= n,
    decreases n,
{
    if n > 0 && before16(ssn, s[n - 1].ssn) {
        lemma_place_of_ssn(s, ssn, n - 1);
    }
}

proof fn lemma_set_of_ssn(s: Seq<ChunkSetView>, ssn: u16, i: int)
    requires
        0 <= i,
    ensures
        set_of_ssn(s, ssn, i) >= i,
    decreases s.len() - i,
{
    if i < s.len() && s[i].ssn != ssn {
        lemma_set_of_ssn(s, ssn, i + 1);
    }
}

proof fn lemma_inserted(s: Seq<DataView>, c: DataView)
    ensures
        data_bytes(insert_chunk(s, c)) == data_bytes(s) + c.user_data.len(),
{
    let k = place_of_tsn(s, c.tsn, s.len() as int);
    lemma_place_of_tsn(s, c.tsn, s.len() as int);
    let a = s.take(k);
    let b = s.skip(k);
    assert(insert_chunk(s, c) =~= a + (seq![c] + b));
    assert(s =~= a + b);
    lemma_bytes_joined(a, b);
    lemma_bytes_joined(a, seq![c] + b);
    lemma_bytes_joined(seq![c], b);
    lemma_bytes_one(c);
}

/// Whether a fragment of an ordered message is there already.
pub open spec fn is_there(q: ReassemblyView, c: DataView) -> bool {
    exists|k: int|
        0 <= k < q.ordered.len() && (#[trigger] q.ordered[k]).ssn == c.stream_sequence_number
            && has_tsn(q.ordered[k].chunks, c.tsn)
}

/// Whether a chunk is one that the queue takes: of its stream, and not of an ordered message that
/// was read or skipped or whose fragment is there.
pub open spec fn is_taken(q: ReassemblyView, c: DataView) -> bool {
    c.stream_identifier == q.si && (c.unordered || (!is_there(q, c) && !(0 < fwd16(
        c.stream_sequence_number,
        q.next_ssn,
    ) < 0x8000)))
}

proof fn lemma_put(sets: Seq<ChunkSetView>, c: DataView)
    requires
        !exists|k: int|
            0 <= k < sets.len() && (#[trigger] sets[k]).ssn == c.stream_sequence_number && has_tsn(
                sets[k].chunks,
                c.tsn,
            ),
    ensures
        set_bytes(put_ordered(sets, c)) == set_bytes(sets) + c.user_data.len(),
{
    let ssn = c.stream_sequence_number;
    let k = set_of_ssn(sets, ssn, 0);
    lemma_set_of_ssn(sets, ssn, 0);
    lemma_found_ssn(sets, ssn, 0);
    if k < sets.len() {
        let x = ChunkSetView { ssn, chunks: insert_chunk(sets[k].chunks, c) };
        let a = sets.take(k);
        let b = sets.skip(k + 1);
        assert(sets =~= a + (seq![sets[k]] + b));
        assert(sets.update(k, x) =~= a + (seq![x] + b));
        lemma_sets_joined(a, seq![sets[k]] + b);
        lemma_sets_joined(a, seq![x] + b);
        lemma_sets_joined(seq![sets[k]], b);
        lemma_sets_joined(seq![x], b);
        lemma_sets_one(sets[k]);
        lemma_sets_one(x);
        lemma_inserted(sets[k].chunks, c);
    } else {
        let p = place_of_ssn(sets, ssn, sets.len() as int);
        lemma_place_of_ssn(sets, ssn, sets.len() as int);
        let x = ChunkSetView { ssn, chunks: seq![c] };
        let a = sets.take(p);
        let b = sets.skip(p);
        assert(sets =~= a + b);
        assert(sets.insert(p, x) =~= a + (seq![x] + b));
        lemma_sets_joined(a, b);
        lemma_sets_joined(a, seq![x] + b);
        lemma_sets_joined(seq![x], b);
        lemma_sets_one(x);
        lemma_bytes_one(c);
    }
}

proof fn lemma_found_ssn(s: Seq<ChunkSetView>, ssn: u16, i: int)
    requires
        0 <= i,
    ensures
        set_of_ssn(s, ssn, i) < s.len() ==> s[set_of_ssn(s, ssn, i)].ssn == ssn,
    decreases s.len() - i,
{
    if i < s.len() && s[i].ssn != ssn {
        lemma_found_ssn(s, ssn, i + 1);
    }
}

/// A chunk that is taken adds its bytes to those held, and to the count; any other changes neither
/// what is held nor, unless its fragment is there already, the count.
pub proof fn law_taken_bytes_are_counted(q: ReassemblyView, c: DataView)
    ensures
        is_taken(q, c) ==> held_bytes(q.push(c)) == held_bytes(q) + c.user_data.len(),
        is_taken(q, c) && is_tallied(q) ==> is_tallied(q.push(c)),
        is_taken(q, c) && q.n_bytes + c.user_data.len() <= u32::MAX ==> q.push(c).n_bytes
            == q.n_bytes + c.user_data.len(),
        !is_taken(q, c) && !(is_there(q, c) && !c.unordered) ==> q.push(c) == q,
        q.push(c).next_ssn == q.next_ssn && q.push(c).si == q.si,
{
    if c.stream_identifier == q.si && c.unordered {
        let cs = insert_chunk(q.unordered_chunks, c);
        lemma_inserted(q.unordered_chunks, c);
        law_found_message_is_complete(cs);
        if let Some((a, b)) = find_message(cs, 0, None) {
            let m = ChunkSetView { ssn: 0, chunks: cs.subrange(a, b) };
            let f = cs.take(a);
            let g = cs.skip(b);
            assert(cs =~= f + (m.chunks + g));
            lemma_bytes_joined(f, m.chunks + g);
            lemma_bytes_joined(m.chunks, g);
            lemma_bytes_joined(f, g);
            assert(q.unordered.push(m).drop_last() =~= q.unordered);
        }
    } else if is_taken(q, c) {
        lemma_put(q.ordered, c);
    }
}

proof fn lemma_without(n_bytes: u32, s: Seq<DataView>, n: int)
    requires
        0 <= n <= s.len(),
    ensures
        (without_bytes(n_bytes, s, n) + data_bytes(s.take(n))) % 0x1_0000_0000 == n_bytes,
    decreases n,
{
    if n > 0 {
        lemma_without(n_bytes, s, n - 1);
        assert(s.take(n).drop_last() =~= s.take(n - 1));
    } else {
        assert(s.take(0) =~= seq![]);
        assert(data_bytes(seq![]) == 0);
    }
}

/// The bytes of a message that is read are not held any longer, nor counted.
pub proof fn law_read_bytes_are_given_back(q: ReassemblyView)
    ensures
        q.next_message() matches Some(m) ==> {
            &&& held_bytes(q.read()) + data_bytes(m) == held_bytes(q)
            &&& is_tallied(q) ==> is_tallied(q.read())
            &&& is_tallied(q) && held_bytes(q) <= u32::MAX ==> q.read().n_bytes + data_bytes(m)
                == q.n_bytes
        },
        q.next_message() is None ==> q.read() == q,
{
    if q.unordered.len() > 0 {
        let cs = q.unordered[0].chunks;
        assert(q.unordered =~= seq![q.unordered[0]] + q.unordered.drop_first());
        lemma_sets_joined(seq![q.unordered[0]], q.unordered.drop_first());
        lemma_sets_one(q.unordered[0]);
        lemma_without(q.n_bytes, cs, cs.len() as int);
        assert(cs.take(cs.len() as int) =~= cs);
    } else if q.is_readable() {
        let cs = q.ordered[0].chunks;
        assert(q.ordered =~= seq![q.ordered[0]] + q.ordered.drop_first());
        lemma_sets_joined(seq![q.ordered[0]], q.ordered.drop_first());
        lemma_sets_one(q.ordered[0]);
        lemma_without(q.n_bytes, cs, cs.len() as int);
        assert(cs.take(cs.len() as int) =~= cs);
    }
}

/// Whether a message is not behind the sequence number `ssn`, and not all of it was received.
pub open spec fn is_cut_off(m: ChunkSetView, ssn: u16) -> bool {
    fwd16(m.ssn, ssn) < 0x8000 && !complete(m.chunks)
}

proof fn lemma_not_skipped(s: Seq<ChunkSetView>, ssn: u16, n: int)
    requires
        0 <= n <= s.len(),
    ensures
        not_skipped(s, ssn, n) == s.take(n).filter(|m: ChunkSetView| !is_cut_off(m, ssn)),
    decreases n,
{
    reveal(Seq::filter);
    let p = |m: ChunkSetView| !is_cut_off(m, ssn);
    if n > 0 {
        lemma_not_skipped(s, ssn, n - 1);
        assert(s.take(n).drop_last() =~= s.take(n - 1));
        assert(s.take(n).last() == s[n - 1]);
    } else {
        assert(s.take(0) =~= seq![]);
        assert(not_skipped(s, ssn, 0) =~= seq![]);
    }
}

/// The messages that are cut off, and their bytes.
pub open spec fn cut_off(s: Seq<ChunkSetView>, ssn: u16) -> Seq<ChunkSetView> {
    s.filter(|m: ChunkSetView| is_cut_off(m, ssn))
}

proof fn lemma_cut_bytes(n_bytes: u32, s: Seq<ChunkSetView>, ssn: u16, n: int)
    requires
        0 <= n <= s.len(),
    ensures
        (without_skipped(n_bytes, s, ssn, n) + set_bytes(cut_off(s.take(n), ssn))) % 0x1_0000_0000
            == n_bytes,
        set_bytes(not_skipped(s, ssn, n)) + set_bytes(cut_off(s.take(n), ssn)) == set_bytes(
            s.take(n),
        ),
    decreases n,
{
    reveal(Seq::filter);
    if n > 0 {
        lemma_cut_bytes(n_bytes, s, ssn, n - 1);
        let t = s.take(n);
        assert(t.drop_last() =~= s.take(n - 1));
        assert(t.last() == s[n - 1]);
        let c = cut_off(s.take(n - 1), ssn);
        let k = not_skipped(s, ssn, n - 1);
        let m = s[n - 1];
        if is_cut_off(m, ssn) {
            assert(cut_off(t, ssn) == c.push(m));
            assert(c.push(m).drop_last() =~= c);
            let before = without_skipped(n_bytes, s, ssn, n - 1);
            lemma_without(before, m.chunks, m.chunks.len() as int);
            assert(m.chunks.take(m.chunks.len() as int) =~= m.chunks);
        } else {
            assert(cut_off(t, ssn) == c);
            assert(k.push(m).drop_last() =~= k);
        }
    } else {
        assert(s.take(0) =~= seq![]);
        assert(cut_off(s.take(0), ssn) =~= seq![]);
        assert(not_skipped(s, ssn, 0) =~= seq![]);
    }
}

/// Skipping ordered messages up to a sequence number drops exactly those that are not complete,
/// with their bytes, keeps the others in order, and lets the next message be the one behind.
pub proof fn law_skipping_ordered_messages(q: ReassemblyView, ssn: u16)
    ensures
        ({
            let r = q.forward_ordered(ssn);
            &&& r.ordered == q.ordered.filter(|m: ChunkSetView| !is_cut_off(m, ssn))
            &&& r.unordered == q.unordered
            &&& r.unordered_chunks == q.unordered_chunks
            &&& fwd16(q.next_ssn, ssn) < 0x8000 ==> r.next_ssn == ssn.wrapping_add(1)
            &&& fwd16(q.next_ssn, ssn) >= 0x8000 ==> r.next_ssn == q.next_ssn
            &&& held_bytes(r) + set_bytes(cut_off(q.ordered, ssn)) == held_bytes(q)
            &&& is_tallied(q) ==> is_tallied(r)
        }),
{
    let n = q.ordered.len() as int;
    lemma_not_skipped(q.ordered, ssn, n);
    lemma_cut_bytes(q.n_bytes, q.ordered, ssn, n);
    assert(q.ordered.take(n) =~= q.ordered);
}

proof fn lemma_upto(s: Seq<DataView>, tsn: u32, i: int)
    requires
        0 <= i <= s.len(),
    ensures
        ({
            let n = n_upto(s, tsn, i);
            &&& i <= n <= s.len()
            &&& forall|j: int| i <= j < n ==> !(0 < fwd32(tsn, (#[trigger] s[j]).tsn) < 0x8000_0000)
            &&& n < s.len() ==> 0 < fwd32(tsn, s[n].tsn) <= 0x8000_0000
        }),
    decreases s.len() - i,
{
    if i < s.len() && !crate::util::after32(s[i].tsn, tsn) {
        lemma_upto(s, tsn, i + 1);
    }
}

/// Skipping unordered data up to a TSN drops the fragments of incomplete messages in front that do
/// not lie after it, with their bytes, and nothing else.
pub proof fn law_skipping_unordered_fragments(q: ReassemblyView, tsn: u32)
    ensures
        ({
            let r = q.forward_unordered(tsn);
            let n = q.unordered_chunks.len() - r.unordered_chunks.len();
            &&& 0 <= n
            &&& r.unordered_chunks == q.unordered_chunks.skip(n)
            &&& forall|j: int|
                0 <= j < n ==> !(0 < fwd32(tsn, (#[trigger] q.unordered_chunks[j]).tsn)
                    < 0x8000_0000)
            &&& r.unordered_chunks.len() > 0 ==> 0 < fwd32(tsn, r.unordered_chunks[0].tsn)
                <= 0x8000_0000
            &&& r.ordered == q.ordered && r.unordered == q.unordered && r.next_ssn == q.next_ssn
            &&& held_bytes(r) + data_bytes(q.unordered_chunks.take(n)) == held_bytes(q)
            &&& is_tallied(q) ==> is_tallied(r)
        }),
{
    let s = q.unordered_chunks;
    let n = n_upto(s, tsn, 0);
    lemma_upto(s, tsn, 0);
    lemma_without(q.n_bytes, s, n);
    lemma_bytes_joined(s.take(n), s.skip(n));
    assert(s =~= s.take(n) + s.skip(n));
}

/// Ordered messages are read in the order of their sequence numbers, whichever arrives first; the
/// later one has to wait for the earlier one.
pub proof fn law_messages_are_read_in_turn(q: ReassemblyView, a: DataView, b: DataView)
    requires
        q.ordered.len() == 0,
        q.unordered.len() == 0,
        a.stream_identifier == q.si && b.stream_identifier == q.si,
        !a.unordered && !b.unordered,
        a.beginning_fragment && a.ending_fragment && b.beginning_fragment && b.ending_fragment,
        a.stream_sequence_number == q.next_ssn,
        b.stream_sequence_number == q.next_ssn.wrapping_add(1),
    ensures
        q.push(b).next_message() is None,
        q.push(b).push(a).next_message() == Some(seq![a]),
        q.push(b).push(a).read().next_message() == Some(seq![b]),
        q.push(b).push(a).read().read().next_message() is None,
        q.push(a).push(b).next_message() == Some(seq![a]),
        q.push(a).push(b).read().next_message() == Some(seq![b]),
        q.push(a).push(b).read().read().next_ssn == q.next_ssn.wrapping_add(2),
{
    reveal_with_fuel(set_of_ssn, 3);
    reveal_with_fuel(place_of_ssn, 3);
    let x = ChunkSetView { ssn: a.stream_sequence_number, chunks: seq![a] };
    let y = ChunkSetView { ssn: b.stream_sequence_number, chunks: seq![b] };
    assert(q.push(b).ordered =~= seq![y]);
    assert(q.push(a).ordered =~= seq![x]);
    assert(q.push(b).push(a).ordered =~= seq![x, y]);
    assert(q.push(a).push(b).ordered =~= seq![x, y]);
    assert(complete(seq![a]));
    assert(complete(seq![b]));
    let r = q.push(b).push(a);
    assert(r.read().ordered =~= seq![y]);
    assert(r.read().read().ordered =~= seq![]);
    let t = q.push(a).push(b);
    assert(t.read().ordered =~= seq![y]);
}

/// An unordered message of one fragment can be read at once, whatever ordered messages wait, and
/// those that are complete are read in the order in which they were completed.
pub proof fn law_unordered_messages_do_not_wait(q: ReassemblyView, c: DataView)
    requires
        q.unordered_chunks.len() == 0,
        c.stream_identifier == q.si,
        c.unordered,
        c.beginning_fragment && c.ending_fragment,
    ensures
        q.push(c).unordered == q.unordered.push(ChunkSetView { ssn: 0, chunks: seq![c] }),
        q.push(c).unordered_chunks.len() == 0,
        q.unordered.len() == 0 ==> q.push(c).next_message() == Some(seq![c]),
        q.unordered.len() > 0 ==> q.push(c).next_message() == q.next_message(),
        q.push(c).ordered == q.ordered,
{
    let cs = insert_chunk(q.unordered_chunks, c);
    assert(cs =~= seq![c]);
    assert(find_message(cs, 0, None) == Some((0int, 1int)));
    assert(cs.subrange(0, 1) =~= seq![c]);
    assert(cs.take(0) + cs.skip(1) =~= seq![]);
}

} // verus!
