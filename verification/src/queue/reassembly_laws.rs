//! What holds of messages that arrive in fragments.

use vstd::prelude::*;

use crate::chunk::payload::DataView;
use crate::queue::reassembly_queue::{
    complete, continues, has_tsn, insert_chunk, place_of_tsn, put_ordered, set_of_ssn, ChunkSetView,
    ReassemblyView,
};
use crate::util::{before32, fwd32, lemma_serial_order_in_window, HALF_32};

verus! {

/// The queue after chunks arrived one by one.
pub open spec fn pushed(q: ReassemblyView, cs: Seq<DataView>) -> ReassemblyView
    decreases cs.len(),
{
    if cs.len() == 0 {
        q
    } else {
        pushed(q, cs.drop_last()).push(cs.last())
    }
}

/// The fragments of an ordered message of a stream, in their order.
pub open spec fn is_message(m: Seq<DataView>, si: u16, ssn: u16) -> bool {
    &&& complete(m)
    &&& m.len() < HALF_32
    &&& forall|i: int|
        0 <= i < m.len() ==> (#[trigger] m[i]).stream_identifier == si && !m[i].unordered
            && m[i].stream_sequence_number == ssn
}

/// The TSN before a message.
pub open spec fn tsn_before(m: Seq<DataView>) -> u32 {
    m[0].tsn.wrapping_sub(1)
}

proof fn lemma_offset(m: Seq<DataView>, i: int)
    requires
        complete(m),
        m.len() < HALF_32,
        0 <= i < m.len(),
    ensures
        fwd32(tsn_before(m), m[i].tsn) == i + 1,
    decreases i,
{
    if i > 0 {
        lemma_offset(m, i - 1);
        assert(continues(m, i));
    }
}

/// Chunks behind `base` in the order of their TSNs, each once.
pub open spec fn ascending(base: u32, s: Seq<DataView>) -> bool {
    &&& forall|i: int|
        0 <= i < s.len() ==> 1 <= fwd32(base, (#[trigger] s[i]).tsn) <= HALF_32
    &&& forall|i: int, j: int|
        0 <= i < j < s.len() ==> fwd32(base, (#[trigger] s[i]).tsn) < fwd32(
            base,
            (#[trigger] s[j]).tsn,
        )
}

proof fn lemma_place(base: u32, s: Seq<DataView>, tsn: u32, n: int)
    requires
        ascending(base, s),
        1 <= fwd32(base, tsn) <= HALF_32,
        0 <= n <= s.len(),
    ensures
        ({
            let p = place_of_tsn(s, tsn, n);
            &&& 0 <= p <= n
            &&& forall|i: int| p <= i < n ==> fwd32(base, tsn) < fwd32(base, (#[trigger] s[i]).tsn)
            &&& p > 0 ==> fwd32(base, s[p - 1].tsn) <= fwd32(base, tsn)
        }),
    decreases n,
{
    if n > 0 {
        lemma_serial_order_in_window(base, tsn, s[n - 1].tsn);
        if before32(tsn, s[n - 1].tsn) {
            lemma_place(base, s, tsn, n - 1);
        }
    }
}

proof fn lemma_insert(base: u32, s: Seq<DataView>, c: DataView)
    requires
        ascending(base, s),
        1 <= fwd32(base, c.tsn) <= HALF_32,
        !has_tsn(s, c.tsn),
    ensures
        ascending(base, insert_chunk(s, c)),
        insert_chunk(s, c).len() == s.len() + 1,
        forall|i: int|
            0 <= i < s.len() + 1 ==> (#[trigger] insert_chunk(s, c)[i]) == c || s.contains(
                insert_chunk(s, c)[i],
            ),
{
    let n = s.len() as int;
    lemma_place(base, s, c.tsn, n);
    let p = place_of_tsn(s, c.tsn, n);
    let r = insert_chunk(s, c);
    assert forall|i: int| 0 <= i < n + 1 implies (#[trigger] r[i]) == c || s.contains(r[i]) by {
        if i < p {
            assert(r[i] == s[i]);
        } else if i > p {
            assert(r[i] == s[i - 1]);
        }
    }
    assert forall|i: int| 0 <= i < r.len() implies 1 <= fwd32(base, (#[trigger] r[i]).tsn)
        <= HALF_32 by {
        if i < p {
            assert(r[i] == s[i]);
        } else if i > p {
            assert(r[i] == s[i - 1]);
        }
    }
    assert forall|i: int, j: int| 0 <= i < j < r.len() implies fwd32(base, (#[trigger] r[i]).tsn)
        < fwd32(base, (#[trigger] r[j]).tsn) by {
        if p > 0 {
            assert(s[p - 1].tsn != c.tsn);
        }
        if i < p {
            assert(r[i] == s[i]);
        } else if i > p {
            assert(r[i] == s[i - 1]);
        }
        if j < p {
            assert(r[j] == s[j]);
        } else if j > p {
            assert(r[j] == s[j - 1]);
        }
        if j == p && i < p - 1 {
            assert(fwd32(base, s[i].tsn) < fwd32(base, s[p - 1].tsn));
        }
    }
}

proof fn lemma_same_tsn(m: Seq<DataView>, x: DataView, y: DataView)
    requires
        complete(m),
        m.len() < HALF_32,
        m.contains(x),
        m.contains(y),
        x.tsn == y.tsn,
    ensures
        x == y,
{
    let i = choose|i: int| 0 <= i < m.len() && m[i] == x;
    let j = choose|j: int| 0 <= j < m.len() && m[j] == y;
    lemma_offset(m, i);
    lemma_offset(m, j);
}

/// What is kept of fragments that arrived.
pub open spec fn keeps(
    q: ReassemblyView,
    r: ReassemblyView,
    a: Seq<DataView>,
    m: Seq<DataView>,
    ssn: u16,
) -> bool {
    let s = r.ordered[0].chunks;
    &&& r.si == q.si
    &&& r.next_ssn == q.next_ssn
    &&& r.unordered == q.unordered
    &&& r.unordered_chunks == q.unordered_chunks
    &&& a.len() == 0 ==> r == q
    &&& a.len() > 0 ==> {
        &&& r.ordered.len() == 1
        &&& r.ordered[0].ssn == ssn
        &&& ascending(tsn_before(m), s)
        &&& s.len() == a.len()
        &&& forall|i: int| 0 <= i < s.len() ==> a.contains(#[trigger] s[i])
    }
}

proof fn lemma_pushed(q: ReassemblyView, a: Seq<DataView>, m: Seq<DataView>, ssn: u16)
    requires
        q.ordered.len() == 0,
        q.next_ssn == ssn,
        is_message(m, q.si, ssn),
        a.no_duplicates(),
        forall|i: int| 0 <= i < a.len() ==> m.contains(#[trigger] a[i]),
    ensures
        keeps(q, pushed(q, a), a, m, ssn),
    decreases a.len(),
{
    if a.len() > 0 {
        let d = a.drop_last();
        let c = a.last();
        assert forall|i: int| 0 <= i < d.len() implies m.contains(#[trigger] d[i]) by {
            assert(d[i] == a[i]);
        }
        lemma_pushed(q, d, m, ssn);
        let r = pushed(q, d);
        let base = tsn_before(m);
        assert(m.contains(a[a.len() - 1]));
        let k = choose|k: int| 0 <= k < m.len() && m[k] == c;
        lemma_offset(m, k);
        let f = pushed(q, a);
        assert(f == r.push(c));
        if d.len() == 0 {
            assert(put_ordered(r.ordered, c) =~= seq![ChunkSetView { ssn, chunks: seq![c] }]);
            assert(a[0] == c);
            assert forall|i: int| 0 <= i < 1 implies a.contains(#[trigger] seq![c][i]) by {
                assert(seq![c][i] == a[0]);
            }
        } else {
            let s = r.ordered[0].chunks;
            assert(set_of_ssn(r.ordered, ssn, 0) == 0);
            assert(!has_tsn(s, c.tsn)) by {
                if has_tsn(s, c.tsn) {
                    let i = choose|i: int| 0 <= i < s.len() && (#[trigger] s[i]).tsn == c.tsn;
                    assert(d.contains(s[i]));
                    let j = choose|j: int| 0 <= j < d.len() && d[j] == s[i];
                    assert(m.contains(d[j]));
                    lemma_same_tsn(m, s[i], c);
                    assert(a[j] == a[a.len() - 1]);
                }
            }
            lemma_insert(base, s, c);
            let t = insert_chunk(s, c);
            assert(f.ordered =~= seq![ChunkSetView { ssn, chunks: t }]);
            assert forall|i: int| 0 <= i < t.len() implies a.contains(#[trigger] t[i]) by {
                if t[i] == c {
                    assert(a[a.len() - 1] == c);
                } else {
                    let x = choose|x: int| 0 <= x < s.len() && s[x] == t[i];
                    assert(d.contains(s[x]));
                    let j = choose|j: int| 0 <= j < d.len() && d[j] == s[x];
                    assert(a[j] == t[i]);
                }
            }
        }
    }
}

proof fn lemma_at_least(base: u32, s: Seq<DataView>, i: int)
    requires
        ascending(base, s),
        0 <= i < s.len(),
    ensures
        fwd32(base, s[i].tsn) >= i + 1,
    decreases i,
{
    if i > 0 {
        lemma_at_least(base, s, i - 1);
        assert(fwd32(base, s[i - 1].tsn) < fwd32(base, s[i].tsn));
    } else {
        assert(1 <= fwd32(base, s[i].tsn));
    }
}

proof fn lemma_at_most(base: u32, s: Seq<DataView>, i: int, n: int)
    requires
        ascending(base, s),
        0 <= i < s.len(),
        n == s.len(),
        forall|j: int| 0 <= j < s.len() ==> fwd32(base, (#[trigger] s[j]).tsn) <= n,
    ensures
        fwd32(base, s[i].tsn) <= i + 1,
    decreases n - i,
{
    if i < n - 1 {
        lemma_at_most(base, s, i + 1, n);
        assert(fwd32(base, s[i].tsn) < fwd32(base, s[i + 1].tsn));
    } else {
        assert(fwd32(base, s[i].tsn) <= n);
    }
}

/// An ordered message whose turn it is can be read once all of its fragments arrived, whatever
/// their order was, and it is read as it was sent.
pub proof fn law_message_is_read_as_sent(
    q: ReassemblyView,
    m: Seq<DataView>,
    arrived: Seq<DataView>,
)
    requires
        q.ordered.len() == 0,
        q.unordered.len() == 0,
        is_message(m, q.si, q.next_ssn),
        arrived.to_multiset() == m.to_multiset(),
    ensures
        pushed(q, arrived).is_readable(),
        pushed(q, arrived).next_message() == Some(m),
        pushed(q, arrived).read().ordered.len() == 0,
        pushed(q, arrived).read().next_ssn == q.next_ssn.wrapping_add(1),
{
    broadcast use vstd::seq_lib::group_to_multiset_ensures;

    let base = tsn_before(m);
    assert(m.no_duplicates()) by {
        assert forall|i: int, j: int| 0 <= i < j < m.len() implies m[i] != m[j] by {
            lemma_offset(m, i);
            lemma_offset(m, j);
        }
    }
    m.lemma_multiset_has_no_duplicates();
    assert forall|x: DataView| arrived.to_multiset().contains(x) implies
        arrived.to_multiset().count(x) == 1 by {
        assert(m.to_multiset().contains(x));
    }
    arrived.lemma_multiset_has_no_duplicates_conv();
    assert forall|i: int| 0 <= i < arrived.len() implies m.contains(#[trigger] arrived[i]) by {
        assert(arrived.contains(arrived[i]));
        assert(arrived.to_multiset().count(arrived[i]) > 0);
    }
    lemma_pushed(q, arrived, m, q.next_ssn);
    let r = pushed(q, arrived);
    let s = r.ordered[0].chunks;
    assert(arrived.to_multiset().len() == arrived.len() && m.to_multiset().len() == m.len());
    assert forall|i: int| 0 <= i < s.len() implies fwd32(base, (#[trigger] s[i]).tsn) <= m.len()
        && m.contains(s[i]) by {
        assert(arrived.contains(s[i]));
        let j = choose|j: int| 0 <= j < arrived.len() && arrived[j] == s[i];
        assert(m.contains(arrived[j]));
        let k = choose|k: int| 0 <= k < m.len() && m[k] == s[i];
        lemma_offset(m, k);
    }
    assert forall|i: int| 0 <= i < s.len() implies s[i] == m[i] by {
        lemma_at_least(base, s, i);
        lemma_at_most(base, s, i, s.len() as int);
        lemma_offset(m, i);
        let k = choose|k: int| 0 <= k < m.len() && m[k] == s[i];
        lemma_offset(m, k);
    }
    assert(s =~= m);
}

} // verus!
