//! What holds of data that is given up.

use vstd::prelude::*;

use crate::association::gather::{skipped_streams, stream_list};
use crate::association::laws_release::lemma_sorted_dom;
use crate::association::laws_resend::reaches;
use crate::association::resend::{resent, resent_fast};
use crate::association::sack::count_upto;
use crate::association::send::{judged, launched};
use crate::association::stream::ReliabilityType;
use crate::association::view::AssociationView;
use crate::chunk::kinds::ChunkForwardTsnStream;
use crate::chunk::payload::{millis_between, DataView, Instant, PayloadProtocolIdentifier};
use crate::keys::sorted_keys;
use crate::queue::payload_queue::PayloadQueueView;
use crate::util::{fwd16, fwd32, upto32};

verus! {

/// Whether giving up is possible: both ends know FORWARD TSN, the stream is open, and the chunk
/// does not establish a data channel.
pub open spec fn may_be_given_up(s: AssociationView, c: DataView) -> bool {
    &&& s.tcb.peer.use_forward_tsn
    &&& s.streams.contains_key(c.stream_identifier)
    &&& c.payload_type != PayloadProtocolIdentifier::Dcep
}

/// Whether a chunk has had its chances by `now`: it was sent as often as its stream allows, or
/// first sent at least as many milliseconds ago as its stream allows.
pub open spec fn had_its_chances(s: AssociationView, c: DataView, now: Instant) -> bool {
    let st = s.streams[c.stream_identifier];
    &&& may_be_given_up(s, c)
    &&& match st.reliability_type {
        ReliabilityType::Reliable => false,
        ReliabilityType::Rexmit => c.nsent >= st.reliability_value,
        ReliabilityType::Timed => c.since matches Some(since) && (st.reliability_value == 0 || now
            - since >= st.reliability_value * 1_000_000),
    }
}

/// The age of a chunk in milliseconds can be told with 32 bits.
pub open spec fn is_young(c: DataView, now: Instant) -> bool {
    c.since matches Some(since) ==> now - since < 0x1_0000_0000 * 1_000_000
}

proof fn lemma_judged_now(s: AssociationView, c: DataView, now: Instant)
    requires
        is_young(c, now),
    ensures
        judged(c, now, s.tcb.peer.use_forward_tsn, s.streams) == (DataView {
            abandoned: c.abandoned || had_its_chances(s, c, now),
            ..c
        }),
{
    reveal(judged);
    reveal(millis_between);
    if let Some(since) = c.since {
        if now >= since {
            let ms = millis_between(since, now);
            assert(ms == (now - since) / 1_000_000);
            assert(ms < 0x1_0000_0000);
            let v = s.streams[c.stream_identifier].reliability_value;
            assert(ms >= v <==> now - since >= v * 1_000_000) by (nonlinear_arith)
                requires
                    ms == (now - since) / 1_000_000,
                    now >= since,
            ;
        }
    }
}

/// A chunk that is sent for the first time gets the next TSN, is sent once and now, and is else
/// as it waited. It is abandoned exactly if it has had its chances with that; so one with some
/// time to live is not.
pub proof fn law_first_sending_gives_up_nothing_with_time_left(
    s: AssociationView,
    b: bool,
    u: bool,
    now: Instant,
)
    ensures
        s.moved_chunk(b, u, now) is Some <==> s.pending_queue.popped(b, u) is Some,
        s.moved_chunk(b, u, now) matches Some(d) ==> {
            let p = s.pending_queue.popped(b, u)->0;
            &&& d.tsn == s.tcb.tx.my_next_tsn
            &&& d.since == Some(now)
            &&& d.nsent == 1
            &&& d.abandoned == (p.abandoned || had_its_chances(s, d, now))
            &&& d == (DataView {
                tsn: d.tsn,
                since: d.since,
                nsent: d.nsent,
                abandoned: d.abandoned,
                all_inflight: p.all_inflight || p.ending_fragment,
                ..p
            })
            &&& s.streams[p.stream_identifier].reliability_type == ReliabilityType::Timed
                && s.streams[p.stream_identifier].reliability_value > 0 ==> d.abandoned
                == p.abandoned
        },
{
    reveal(launched);
    if let Some(p) = s.pending_queue.popped(b, u) {
        let c = DataView {
            all_inflight: p.all_inflight || p.ending_fragment,
            tsn: s.tcb.tx.my_next_tsn,
            since: Some(now),
            nsent: 1,
            ..p
        };
        lemma_judged_now(s, c, now);
    }
}

/// A chunk that is sent again after a timeout, or fast, is abandoned there exactly if it has had
/// its chances, this one counted, or was abandoned before.
pub proof fn law_sending_again_gives_up_in_time(s: AssociationView, c: DataView, now: Instant)
    requires
        is_young(c, now),
        c.nsent < u32::MAX,
    ensures
        ({
            let again = DataView { nsent: (c.nsent + 1) as u32, ..c };
            let given_up = c.abandoned || had_its_chances(s, again, now);
            &&& s.conditions(now).resent(c) == (DataView {
                retransmit: false,
                abandoned: given_up,
                ..again
            })
            &&& s.conditions(now).resent_fast(c) == (DataView { abandoned: given_up, ..again })
        }),
{
    reveal(resent);
    reveal(resent_fast);
    let again = DataView { nsent: (c.nsent + 1) as u32, ..c };
    lemma_judged_now(s, again, now);
    lemma_judged_now(s, DataView { retransmit: false, ..again }, now);
}

/// What has had its chances does not get others by waiting, and what has time or sendings left is
/// kept.
pub proof fn law_chances_do_not_come_back(
    s: AssociationView,
    c: DataView,
    now: Instant,
    later: Instant,
)
    requires
        now <= later,
        had_its_chances(s, c, now),
        is_young(c, later),
    ensures
        judged(c, later, s.tcb.peer.use_forward_tsn, s.streams).abandoned,
        judged(c, now, s.tcb.peer.use_forward_tsn, s.streams).abandoned,
{
    lemma_judged_now(s, c, now);
    lemma_judged_now(s, c, later);
}

/// Data of a reliable stream, and data that establishes a data channel, is never abandoned by
/// being sent.
pub proof fn law_reliable_data_is_kept(s: AssociationView, c: DataView, now: Instant)
    requires
        !may_be_given_up(s, c) || s.streams[c.stream_identifier].reliability_type
            == ReliabilityType::Reliable,
    ensures
        s.conditions(now).resent(c).abandoned == c.abandoned,
        s.conditions(now).resent_fast(c).abandoned == c.abandoned,
{
    reveal(resent);
    reveal(resent_fast);
    reveal(judged);
}

/// Whether a chunk is one of those that a FORWARD TSN skips.
pub open spec fn is_passed_over(s: AssociationView, t: u32) -> bool {
    let cum = s.tcb.tx.cumulative_tsn_ack_point;
    0 < fwd32(cum, t) <= fwd32(cum, s.tcb.tx.advanced_peer_tsn_ack_point)
}

/// The sequence numbers of a stream lie in one half of the circle behind `base`.
spec fn near(q: PayloadQueueView, i: u32, last: u32, si: u16, base: u16) -> bool {
    forall|t: u32|
        #![trigger q.chunks[t]]
        fwd32(i, t) <= fwd32(i, last) && q.chunks[t].stream_identifier == si ==> fwd16(
            base,
            q.chunks[t].stream_sequence_number,
        ) < 0x8000
}

/// An entry comes from a chunk.
spec fn comes_from(q: PayloadQueueView, i: u32, last: u32, si: u16, ssn: u16) -> bool {
    exists|t: u32|
        #![trigger q.chunks[t]]
        fwd32(i, t) <= fwd32(i, last) && q.chunks.contains_key(t) && q.chunks[t].stream_identifier
            == si && q.chunks[t].stream_sequence_number == ssn
}

proof fn lemma_skipped_origin(
    q: PayloadQueueView,
    i: u32,
    last: u32,
    m: Map<u16, u16>,
    si: u16,
)
    ensures
        ({
            let r = skipped_streams(q, i, last, m);
            r.contains_key(si) ==> (m.contains_key(si) && m[si] == r[si]) || (upto32(i, last)
                && comes_from(q, i, last, si, r[si]))
        }),
        m.dom().finite() ==> skipped_streams(q, i, last, m).dom().finite(),
    decreases count_upto(i, last),
{
    if upto32(i, last) && q.chunks.contains_key(i) {
        let c = q.chunks[i];
        let s = c.stream_identifier;
        let m1 = if m.contains_key(s) && !crate::util::before16(m[s], c.stream_sequence_number) {
            m
        } else {
            m.insert(s, c.stream_sequence_number)
        };
        let next = i.wrapping_add(1);
        lemma_skipped_origin(q, next, last, m1, si);
        let r = skipped_streams(q, i, last, m);
        assert(fwd32(i, i) == 0);
        if r.contains_key(si) {
            if upto32(next, last) && comes_from(q, next, last, si, r[si]) {
                let t = choose|t: u32|
                    #![trigger q.chunks[t]]
                    fwd32(next, t) <= fwd32(next, last) && q.chunks.contains_key(t)
                        && q.chunks[t].stream_identifier == si
                        && q.chunks[t].stream_sequence_number == r[si];
                assert(fwd32(i, t) <= fwd32(i, last));
            } else if m1.contains_key(si) && m1[si] == r[si] {
                if !(m.contains_key(si) && m[si] == r[si]) {
                    assert(q.chunks[i].stream_identifier == si);
                    assert(comes_from(q, i, last, si, r[si]));
                }
            }
        }
    }
}

proof fn lemma_skipped_greatest(
    q: PayloadQueueView,
    i: u32,
    last: u32,
    m: Map<u16, u16>,
    si: u16,
    base: u16,
)
    requires
        near(q, i, last, si, base),
        m.contains_key(si) ==> fwd16(base, m[si]) < 0x8000,
        upto32(i, last) ==> reaches(q, i, last),
    ensures
        ({
            let r = skipped_streams(q, i, last, m);
            &&& m.contains_key(si) ==> r.contains_key(si) && fwd16(base, m[si]) <= fwd16(
                base,
                r[si],
            )
            &&& forall|t: u32|
                #![trigger q.chunks[t]]
                upto32(i, last) && fwd32(i, t) <= fwd32(i, last) && q.chunks[t].stream_identifier
                    == si ==> r.contains_key(si) && fwd16(
                    base,
                    q.chunks[t].stream_sequence_number,
                ) <= fwd16(base, r[si])
        }),
    decreases count_upto(i, last),
{
    if upto32(i, last) {
        assert(fwd32(i, i) == 0);
        assert(q.chunks.contains_key(i));
        let c = q.chunks[i];
        let s = c.stream_identifier;
        let m1 = if m.contains_key(s) && !crate::util::before16(m[s], c.stream_sequence_number) {
            m
        } else {
            m.insert(s, c.stream_sequence_number)
        };
        let next = i.wrapping_add(1);
        assert(near(q, next, last, si, base) || !upto32(next, last)) by {
            if upto32(next, last) {
                assert forall|t: u32|
                    #![trigger q.chunks[t]]
                    fwd32(next, t) <= fwd32(next, last) && q.chunks[t].stream_identifier
                        == si implies fwd16(base, q.chunks[t].stream_sequence_number) < 0x8000 by {
                    assert(fwd32(i, t) <= fwd32(i, last));
                }
            }
        }
        if upto32(next, last) {
            assert(reaches(q, next, last)) by {
                assert forall|x: u32| #[trigger] fwd32(next, x) <= fwd32(next, last) implies
                    q.chunks.contains_key(x) by {
                    assert(fwd32(i, x) <= fwd32(i, last));
                }
            }
            lemma_skipped_greatest(q, next, last, m1, si, base);
        }
        let r = skipped_streams(q, i, last, m);
        assert(r == skipped_streams(q, next, last, m1));
        assert forall|t: u32|
            #![trigger q.chunks[t]]
            fwd32(i, t) <= fwd32(i, last) && q.chunks[t].stream_identifier == si implies
            r.contains_key(si) && fwd16(base, q.chunks[t].stream_sequence_number) <= fwd16(
            base,
            r[si],
        ) by {
            if t != i {
                assert(fwd32(next, t) <= fwd32(next, last));
                assert(upto32(next, last));
            }
        }
    }
}

/// The entry of a FORWARD TSN for a stream.
pub open spec fn entry_for(list: Seq<ChunkForwardTsnStream>, k: int, si: u16) -> bool {
    0 <= k < list.len() && list[k].identifier == si
}

/// A FORWARD TSN tells the point that the peer may skip to, and for each stream with skipped data
/// the last of its skipped sequence numbers, once. It names no stream and no number that is not of
/// skipped data.
pub proof fn law_forward_tsn_tells_what_is_skipped(s: AssociationView, si: u16, base: u16)
    requires
        upto32(
            s.tcb.tx.cumulative_tsn_ack_point.wrapping_add(1),
            s.tcb.tx.advanced_peer_tsn_ack_point,
        ),
        forall|t: u32| #[trigger]
            is_passed_over(s, t) ==> s.inflight_queue.chunks.contains_key(t) && (
            s.inflight_queue.chunks[t].stream_identifier == si ==> fwd16(
                base,
                s.inflight_queue.chunks[t].stream_sequence_number,
            ) < 0x8000),
    ensures
        ({
            let f = s.forward_tsn_chunk();
            let q = s.inflight_queue;
            &&& f.new_cumulative_tsn == s.tcb.tx.advanced_peer_tsn_ack_point
            &&& forall|j: int, k: int| entry_for(f.streams, j, si) && entry_for(f.streams, k, si)
                ==> j == k
            &&& forall|k: int| #[trigger]
                entry_for(f.streams, k, si) ==> exists|t: u32| #[trigger]
                    is_passed_over(s, t) && q.chunks[t].stream_identifier == si
                        && q.chunks[t].stream_sequence_number == f.streams[k].sequence
            &&& forall|t: u32| #[trigger]
                is_passed_over(s, t) && q.chunks[t].stream_identifier == si ==> exists|k: int|
                    #[trigger]
                    entry_for(f.streams, k, si) && fwd16(
                        base,
                        q.chunks[t].stream_sequence_number,
                    ) <= fwd16(base, f.streams[k].sequence)
        }),
{
    let f = s.forward_tsn_chunk();
    let q = s.inflight_queue;
    let cum = s.tcb.tx.cumulative_tsn_ack_point;
    let last = s.tcb.tx.advanced_peer_tsn_ack_point;
    let i = cum.wrapping_add(1);
    let none = Map::<u16, u16>::empty();
    let m = skipped_streams(q, i, last, none);
    assert forall|t: u32| fwd32(i, t) <= fwd32(i, last) <==> #[trigger] is_passed_over(s, t) by {
        if t != cum {
            assert(fwd32(cum, t) == fwd32(i, t) + 1);
        }
        if last != cum {
            assert(fwd32(cum, last) == fwd32(i, last) + 1);
        } else {
            assert(fwd32(i, last) == 0xffff_ffff);
        }
    }
    assert(near(q, i, last, si, base)) by {
        assert forall|t: u32|
            #![trigger q.chunks[t]]
            fwd32(i, t) <= fwd32(i, last) && q.chunks[t].stream_identifier == si implies fwd16(
            base,
            q.chunks[t].stream_sequence_number,
        ) < 0x8000 by {
            assert(is_passed_over(s, t));
        }
    }
    assert(reaches(q, i, last)) by {
        assert forall|x: u32| #[trigger] fwd32(i, x) <= fwd32(i, last) implies
            q.chunks.contains_key(x) by {
            assert(is_passed_over(s, x));
        }
    }
    lemma_skipped_origin(q, i, last, none, si);
    lemma_skipped_greatest(q, i, last, none, si, base);
    let ids = sorted_keys(m.dom());
    lemma_sorted_dom(m.dom());
    crate::keys::lemma_ascending_distinct(ids);
    assert(f.streams == stream_list(m));
    assert forall|k: int| #[trigger] entry_for(f.streams, k, si) implies exists|t: u32| #[trigger]
        is_passed_over(s, t) && q.chunks[t].stream_identifier == si
            && q.chunks[t].stream_sequence_number == f.streams[k].sequence by {
        assert(ids[k] == si);
        assert(ids.to_set().contains(si)) by {
            assert(ids.contains(ids[k]));
        }
        assert(m.contains_key(si));
        let t = choose|t: u32|
            #![trigger q.chunks[t]]
            fwd32(i, t) <= fwd32(i, last) && q.chunks.contains_key(t)
                && q.chunks[t].stream_identifier == si && q.chunks[t].stream_sequence_number
                == m[si];
        assert(is_passed_over(s, t));
    }
    assert forall|t: u32| #[trigger]
        is_passed_over(s, t) && q.chunks[t].stream_identifier == si implies exists|k: int|
        #[trigger]
        entry_for(f.streams, k, si) && fwd16(base, q.chunks[t].stream_sequence_number) <= fwd16(
            base,
            f.streams[k].sequence,
        ) by {
        assert(m.contains_key(si));
        assert(ids.to_set().contains(si));
        let k = choose|k: int| 0 <= k < ids.len() && ids[k] == si;
        assert(entry_for(f.streams, k, si));
    }
}

} // verus!
