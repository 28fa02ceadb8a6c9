//! What holds of requests to reset streams.

use vstd::prelude::*;

use crate::association::gather::with_packet;
use crate::association::laws_flight::flight_is_gapless;
use crate::association::laws_send::law_windows_are_kept;
use crate::association::receive::{lemma_retry_keeps_received, lemma_take_next, open_ids, Replied};
use crate::association::send::send_pending;
use crate::association::timer::TimerSlot;
use crate::association::view::AssociationView;
use crate::chunk::kinds::{ChunkView, ReconfigView};
use crate::chunk::param::{ParamReconfigResponse, ParamView, ReconfigResult, ResetRequestView};
use crate::chunk::payload::Instant;
use crate::keys::{ascending, sorted_keys};
use crate::packet::PacketView;
use crate::util::{fwd32, low32};

verus! {

/// The request that a RECONFIG chunk carries.
pub open spec fn request_of(c: ReconfigView) -> Option<ResetRequestView> {
    match c.param_a {
        Some(ParamView::OutgoingResetRequest(p)) => if c.param_b is None {
            Some(p)
        } else {
            None
        },
        _ => None,
    }
}

/// The answer that a packet carries to the request with this number.
pub open spec fn answers(p: PacketView, rsn: u32, result: ReconfigResult) -> bool {
    p.chunks == seq![
        ChunkView::Reconfig(
            ReconfigView {
                param_a: Some(
                    ParamView::ReconfigResponse(
                        ParamReconfigResponse { reconfig_response_sequence_number: rsn, result },
                    ),
                ),
                param_b: None,
            },
        ),
    ]
}

/// A packet goes to the peer: with its tag, from and to the agreed ports.
pub open spec fn is_addressed(s: AssociationView, p: PacketView) -> bool {
    &&& p.common_header.verification_tag == s.tcb.peer.peer_verification_tag
    &&& p.common_header.source_port == s.tcb.peer.source_port
    &&& p.common_header.destination_port == s.tcb.peer.destination_port
}

/// A request to reset streams is made for all data sent so far: it names the streams and the last
/// TSN that was assigned, which no TSN in flight lies behind, under the next number of requests.
/// It is kept until it is answered and goes to the peer in a packet of its own.
pub proof fn law_reset_request_covers_sent_data(
    s: AssociationView,
    ids: Seq<u16>,
    raws: Seq<Seq<u8>>,
)
    requires
        ids.len() > 0,
    ensures
        ({
            let g = s.gather_new_reconfig(ids, raws);
            let rsn = s.tcb.tx.my_next_rsn;
            let c = g.s.reconfigs[rsn];
            &&& g.s.reconfigs.contains_key(rsn)
            &&& g.s.tcb.tx.my_next_rsn == rsn.wrapping_add(1)
            &&& forall|x: u32|
                x != rsn ==> (#[trigger] g.s.reconfigs.contains_key(x)
                    <==> s.reconfigs.contains_key(x)) && g.s.reconfigs[x] == s.reconfigs[x]
            &&& request_of(c) matches Some(p) && {
                &&& p.reconfig_request_sequence_number == rsn
                &&& p.stream_identifiers == ids
                &&& p.sender_last_tsn.wrapping_add(1) == s.tcb.tx.my_next_tsn
                &&& flight_is_gapless(s) ==> forall|t: u32| #[trigger]
                    s.inflight_queue.chunks.contains_key(t) ==> fwd32(t, p.sender_last_tsn)
                        < 0x8000_0000
            }
            &&& exists|p: PacketView|
                is_addressed(s, p) && p.chunks == seq![ChunkView::Reconfig(c)] && g.raws
                    == #[trigger] with_packet(raws, p)
            &&& g.s.tcb.tx.my_next_tsn == s.tcb.tx.my_next_tsn
            &&& g.s.inflight_queue == s.inflight_queue
        }),
{
    reveal(AssociationView::gather_new_reconfig);
    let g = s.gather_new_reconfig(ids, raws);
    let rsn = s.tcb.tx.my_next_rsn;
    let c = g.s.reconfigs[rsn];
    let p = s.reconfig_packet(c);
    assert(g.raws == with_packet(raws, p));
    assert(is_addressed(s, p));
    let last = s.tcb.tx.my_next_tsn.wrapping_sub(1);
    if flight_is_gapless(s) {
        let base = s.tcb.tx.cumulative_tsn_ack_point;
        let next = s.tcb.tx.my_next_tsn;
        assert forall|t: u32| #[trigger] s.inflight_queue.chunks.contains_key(t) implies fwd32(
            t,
            last,
        ) < 0x8000_0000 by {
            assert(1 <= fwd32(base, t) < fwd32(base, next));
            assert(fwd32(base, last) == fwd32(base, next) - 1);
        }
    }
}

/// The data that goes out together with a request to reset streams is covered by it: it was
/// assigned its TSN before.
pub proof fn law_last_data_goes_before_its_reset(
    s: AssociationView,
    now: Instant,
    ids: Seq<u16>,
    raws: Seq<Seq<u8>>,
)
    requires
        s.wf(),
        ids.len() > 0,
        s.pending_queue.len() < 0x7fff_ffff,
    ensures
        ({
            let d = send_pending(s, now, seq![], seq![]);
            let g = d.s.gather_new_reconfig(ids, raws);
            let p = request_of(g.s.reconfigs[d.s.tcb.tx.my_next_rsn])->0;
            forall|k: int|
                0 <= k < d.chunks.len() && d.chunks.len() < 0x8000_0000 ==> fwd32(
                    (#[trigger] d.chunks[k]).tsn,
                    p.sender_last_tsn,
                ) < 0x8000_0000
        }),
{
    law_windows_are_kept(s, now, seq![], seq![]);
    let d = send_pending(s, now, seq![], seq![]);
    law_reset_request_covers_sent_data(d.s, ids, raws);
    let g = d.s.gather_new_reconfig(ids, raws);
    let p = request_of(g.s.reconfigs[d.s.tcb.tx.my_next_rsn])->0;
    assert forall|k: int|
        0 <= k < d.chunks.len() && d.chunks.len() < 0x8000_0000 implies fwd32(
        (#[trigger] d.chunks[k]).tsn,
        p.sender_last_tsn,
    ) < 0x8000_0000 by {
        let t = d.chunks[k].tsn;
        let n = d.chunks.len() - k;
        assert(t.wrapping_add(low32(n)) == d.s.tcb.tx.my_next_tsn);
        assert(low32(n) == n);
    }
}

/// The numbers that a request names, of streams that are open, each once.
proof fn lemma_open_ids(s: AssociationView, ids: Seq<u16>)
    ensures
        forall|x: u16| #[trigger]
            open_ids(s.streams, ids).contains(x) <==> ids.contains(x) && s.streams.contains_key(x),
        open_ids(s.streams, ids).no_duplicates(),
    decreases ids.len(),
{
    if ids.len() > 0 {
        let d = ids.drop_last();
        let a = open_ids(s.streams, d);
        let r = open_ids(s.streams, ids);
        let l = ids.last();
        lemma_open_ids(s, d);
        assert forall|x: u16| #[trigger] r.contains(x) <==> ids.contains(x)
            && s.streams.contains_key(x) by {
            if ids.contains(x) {
                let j = choose|j: int| 0 <= j < ids.len() && ids[j] == x;
                if j < d.len() {
                    assert(d[j] == x);
                }
            }
            if d.contains(x) {
                let j = choose|j: int| 0 <= j < d.len() && d[j] == x;
                assert(ids[j] == x);
            }
            assert(ids[ids.len() - 1] == l);
            if a.contains(x) {
                let j = choose|j: int| 0 <= j < a.len() && a[j] == x;
                assert(r[j] == x);
            }
            if r.contains(x) && !a.contains(x) {
                let j = choose|j: int| 0 <= j < r.len() && r[j] == x;
                assert(j == a.len());
            }
            if s.streams.contains_key(l) && !d.contains(l) {
                assert(r[a.len() as int] == l);
            }
        }
        assert(r.no_duplicates()) by {
            if r != a {
                assert forall|i: int, j: int| 0 <= i < j < r.len() implies r[i] != r[j] by {
                    if j == a.len() {
                        assert(a.contains(a[i]));
                    }
                }
            }
        }
    }
}

/// All data before a request was received.
pub open spec fn is_due(s: AssociationView, p: ResetRequestView) -> bool {
    fwd32(p.sender_last_tsn, s.tcb.rx.peer_last_tsn) < 0x8000_0000
}

/// A request of the peer whose data was all received is performed at once: exactly the streams
/// that it names are closed, and the answer is success. The streams of them that were open are
/// reset in the other direction too, with a request that covers all data sent so far. A request
/// whose data is missing is kept, closes nothing, and the answer is that it is in progress.
pub proof fn law_request_to_reset_is_answered(s: AssociationView, p: ResetRequestView)
    ensures
        ({
            let c = ReconfigView {
                param_a: Some(ParamView::OutgoingResetRequest(p)),
                param_b: None,
            };
            let rsn = p.reconfig_request_sequence_number;
            let (r, reply) = s.handle_reconfig(c);
            let own = s.tcb.tx.my_next_rsn;
            let some_open = exists|x: u16| #[trigger]
                p.stream_identifiers.contains(x) && s.streams.contains_key(x);
            &&& reply matches Ok(ps) && {
                &&& forall|j: int| 0 <= j < ps.len() ==> is_addressed(s, #[trigger] ps[j])
                &&& !is_due(s, p) ==> {
                    &&& ps.len() == 1 && answers(ps[0], rsn, ReconfigResult::InProgress)
                    &&& r.streams == s.streams
                    &&& r.reconfigs == s.reconfigs
                    &&& r.reconfig_requests == s.reconfig_requests.insert(rsn, p)
                }
                &&& is_due(s, p) ==> {
                    &&& answers(ps.last(), rsn, ReconfigResult::SuccessPerformed)
                    &&& ps.len() == if some_open {
                        2
                    } else {
                        1int
                    }
                    &&& forall|x: u16| #[trigger]
                        r.streams.contains_key(x) <==> s.streams.contains_key(x)
                            && !p.stream_identifiers.contains(x)
                    &&& forall|x: u16| #[trigger]
                        r.streams.contains_key(x) ==> r.streams[x] == s.streams[x]
                    &&& !r.reconfig_requests.contains_key(rsn)
                    &&& forall|x: u32|
                        x != rsn ==> (#[trigger] r.reconfig_requests.contains_key(x)
                            <==> s.reconfig_requests.contains_key(x))
                    &&& !some_open ==> r.reconfigs == s.reconfigs
                    &&& some_open ==> {
                        &&& ps[0].chunks == seq![ChunkView::Reconfig(r.reconfigs[own])]
                        &&& r.reconfigs.contains_key(own)
                        &&& r.tcb.tx.my_next_rsn == own.wrapping_add(1)
                        &&& request_of(r.reconfigs[own]) matches Some(o) && {
                            &&& o.reconfig_request_sequence_number == own
                            &&& o.reconfig_response_sequence_number == rsn
                            &&& o.sender_last_tsn.wrapping_add(1) == s.tcb.tx.my_next_tsn
                            &&& o.stream_identifiers.no_duplicates()
                            &&& forall|x: u16| #[trigger]
                                o.stream_identifiers.contains(x) <==> p.stream_identifiers.contains(
                                    x,
                                ) && s.streams.contains_key(x)
                        }
                    }
                }
            }
        }),
{
    reveal(AssociationView::handle_reconfig);
    reveal(AssociationView::handle_reconfig_param);
    reveal(AssociationView::keep_request);
    reveal(AssociationView::reset_streams);
    reveal(AssociationView::streams_reset);
    reveal(AssociationView::reset_along);
    reveal(Replied::answered);
    lemma_open_ids(s, p.stream_identifiers);
    let c = ReconfigView { param_a: Some(ParamView::OutgoingResetRequest(p)), param_b: None };
    let (r, reply) = s.handle_reconfig(c);
    let ids = open_ids(s.streams, p.stream_identifiers);
    if ids.len() > 0 {
        assert(ids.contains(ids[0]));
    }
    if exists|x: u16| #[trigger] p.stream_identifiers.contains(x) && s.streams.contains_key(x) {
        let x = choose|x: u16| #[trigger]
            p.stream_identifiers.contains(x) && s.streams.contains_key(x);
        assert(ids.contains(x));
    }
    if is_due(s, p) {
        assert forall|x: u16| #[trigger] r.streams.contains_key(x) <==> s.streams.contains_key(x)
            && !p.stream_identifiers.contains(x) by {
            assert(p.stream_identifiers.to_set().contains(x) == p.stream_identifiers.contains(x));
        }
    }
}

/// An answer ends the request that it names, and no other; the reconfiguration timer stops with
/// the last one.
pub proof fn law_answered_request_is_forgotten(s: AssociationView, p: ParamReconfigResponse)
    ensures
        ({
            let c = ReconfigView { param_a: Some(ParamView::ReconfigResponse(p)), param_b: None };
            let (r, reply) = s.handle_reconfig(c);
            let rsn = p.reconfig_response_sequence_number;
            let last = r.reconfigs.dom().is_empty();
            &&& reply matches Ok(ps) && ps.len() == 0
            &&& !r.reconfigs.contains_key(rsn)
            &&& forall|x: u32|
                x != rsn ==> (#[trigger] r.reconfigs.contains_key(x) <==> s.reconfigs.contains_key(
                    x,
                )) && r.reconfigs[x] == s.reconfigs[x]
            &&& r.streams == s.streams
            &&& last ==> r.tcb.timers.reconfig == (TimerSlot { deadline: None, retrans: 0 })
            &&& !last ==> r.tcb.timers == s.tcb.timers
        }),
{
    reveal(AssociationView::handle_reconfig);
    reveal(AssociationView::handle_reconfig_param);
    reveal(AssociationView::reset_answered);
}

/// Each request is kept under its own number.
pub open spec fn requests_filed(m: Map<u32, ResetRequestView>) -> bool {
    forall|k: u32| #[trigger] m.contains_key(k) ==> m[k].reconfig_request_sequence_number == k
}

/// No stream is opened, and what is not kept any longer was performed.
spec fn performs(s: AssociationView, r: AssociationView) -> bool {
    &&& r.tcb.rx == s.tcb.rx
    &&& forall|x: u16| #[trigger] r.streams.contains_key(x) ==> s.streams.contains_key(x)
    &&& forall|k: u32| #[trigger]
        r.reconfig_requests.contains_key(k) ==> s.reconfig_requests.contains_key(k)
            && r.reconfig_requests[k] == s.reconfig_requests[k]
    &&& forall|k: u32, x: u16|
        s.reconfig_requests.contains_key(k) && !r.reconfig_requests.contains_key(k)
            && #[trigger] s.reconfig_requests[k].stream_identifiers.contains(x)
            ==> !#[trigger] r.streams.contains_key(x)
}

proof fn lemma_retry(
    s: AssociationView,
    rsns: Seq<u32>,
    n: int,
    reply: Seq<PacketView>,
)
    requires
        requests_filed(s.reconfig_requests),
        rsns.to_set() == s.reconfig_requests.dom(),
        0 <= n <= rsns.len(),
    ensures
        ({
            let r = s.retry_resets(s.reconfig_requests, rsns, n, reply).s;
            &&& performs(s, r)
            &&& forall|k: u32| #[trigger]
                r.reconfig_requests.contains_key(k) <==> s.reconfig_requests.contains_key(k) && !(
                rsns.take(n).contains(k) && is_due(s, s.reconfig_requests[k]))
        }),
    decreases n,
{
    let m = s.reconfig_requests;
    let r = s.retry_resets(m, rsns, n, reply).s;
    if n > 0 {
        reveal(AssociationView::reset_streams);
        reveal(AssociationView::streams_reset);
        reveal(AssociationView::reset_along);
        reveal(Replied::answered);
        lemma_retry(s, rsns, n - 1, reply);
        let a = s.retry_resets(m, rsns, n - 1, reply);
        let k = rsns[n - 1];
        assert(rsns.to_set().contains(k)) by {
            assert(rsns.contains(rsns[n - 1]));
        }
        assert(m.contains_key(k));
        let p = m[k];
        assert(p.reconfig_request_sequence_number == k);
        assert forall|x: u32| rsns.take(n).contains(x) <==> rsns.take(n - 1).contains(x) || x
            == k by {
            let t = rsns.take(n);
            let u = rsns.take(n - 1);
            if t.contains(x) {
                let j = choose|j: int| 0 <= j < t.len() && t[j] == x;
                if j < n - 1 {
                    assert(u[j] == x);
                }
            }
            if u.contains(x) {
                let j = choose|j: int| 0 <= j < u.len() && u[j] == x;
                assert(t[j] == x);
            }
            assert(t[n - 1] == k);
        }
        if is_due(s, p) {
            assert(is_due(a.s, p));
            assert forall|x: u16| #[trigger] r.streams.contains_key(x) <==> a.s.streams.contains_key(
                x,
            ) && !p.stream_identifiers.contains(x) by {
                assert(p.stream_identifiers.to_set().contains(x) == p.stream_identifiers.contains(
                    x,
                ));
            }
            assert(r.reconfig_requests == a.s.reconfig_requests.remove(k));
        } else {
            assert(r == a.s);
        }
    } else {
        assert(rsns.take(0) =~= seq![]);
    }
}

/// A finite set has its numbers in ascending order.
pub proof fn lemma_sorted_dom32(dom: Set<u32>)
    requires
        dom.finite(),
    ensures
        ascending(sorted_keys(dom)),
        sorted_keys(dom).to_set() == dom,
{
    reveal(sorted_keys);
    lemma_sortable32(dom);
}

proof fn lemma_sortable32(dom: Set<u32>)
    requires
        dom.finite(),
    ensures
        exists|s: Seq<u32>| #[trigger] ascending(s) && s.to_set() == dom,
    decreases dom.len(),
{
    reveal(ascending);
    if dom.len() == 0 {
        let s = Seq::<u32>::empty();
        assert(s.to_set() =~= dom);
        assert(ascending(s));
    } else {
        let x = lemma_greatest32(dom);
        lemma_sortable32(dom.remove(x));
        let s = choose|s: Seq<u32>| #[trigger] ascending(s) && s.to_set() == dom.remove(x);
        let r = s.push(x);
        assert forall|y: u32| r.to_set().contains(y) <==> dom.contains(y) by {
            if r.contains(y) {
                let j = choose|j: int| 0 <= j < r.len() && r[j] == y;
                if j < s.len() {
                    assert(s[j] == y);
                    assert(s.to_set().contains(y));
                }
            }
            if dom.contains(y) {
                if y == x {
                    assert(r[s.len() as int] == x);
                } else {
                    assert(s.to_set().contains(y));
                    let j = choose|j: int| 0 <= j < s.len() && s[j] == y;
                    assert(r[j] == y);
                }
            }
        }
        assert(r.to_set() =~= dom);
        assert(ascending(r)) by {
            assert forall|i: int, j: int| 0 <= i < j < r.len() implies r[i] < r[j] by {
                if j == s.len() {
                    assert(s.to_set().contains(s[i]));
                }
            }
        }
    }
}

proof fn lemma_greatest32(dom: Set<u32>) -> (x: u32)
    requires
        dom.finite(),
        dom.len() > 0,
    ensures
        dom.contains(x),
        forall|y: u32| dom.contains(y) ==> y <= x,
    decreases dom.len(),
{
    let a = dom.choose();
    if dom.len() == 1 {
        assert forall|y: u32| dom.contains(y) implies y <= a by {
            if y != a {
                assert(dom.remove(a).contains(y));
                assert(dom.remove(a).len() == 0);
            }
        }
        a
    } else {
        let b = lemma_greatest32(dom.remove(a));
        assert forall|y: u32| dom.contains(y) implies y <= (if a >= b {
            a
        } else {
            b
        }) by {
            if y != a {
                assert(dom.remove(a).contains(y));
            }
        }
        if a >= b {
            a
        } else {
            b
        }
    }
}

proof fn lemma_advance_performs(s: AssociationView, reply: Seq<PacketView>)
    requires
        requests_filed(s.reconfig_requests),
        s.reconfig_requests.dom().finite(),
        s.has_next(),
    ensures
        ({
            let r = s.advance_peer_tsn(reply).s;
            &&& forall|k: u32| #[trigger]
                r.reconfig_requests.contains_key(k) ==> s.reconfig_requests.contains_key(k)
                    && r.reconfig_requests[k] == s.reconfig_requests[k] && !is_due(
                    r,
                    s.reconfig_requests[k],
                )
            &&& forall|x: u16| #[trigger] r.streams.contains_key(x) ==> s.streams.contains_key(x)
            &&& forall|k: u32, x: u16|
                s.reconfig_requests.contains_key(k) && !r.reconfig_requests.contains_key(k)
                    && #[trigger] s.reconfig_requests[k].stream_identifiers.contains(x)
                    ==> !#[trigger] r.streams.contains_key(x)
        }),
    decreases s.payload_queue.sorted.len(),
{
    reveal(AssociationView::take_next);
    reveal(AssociationView::retry_all_resets);
    lemma_take_next(s);
    let t = s.take_next();
    lemma_retry_keeps_received(t, reply);
    let rsns = sorted_keys(t.reconfig_requests.dom());
    lemma_sorted_dom32(t.reconfig_requests.dom());
    lemma_retry(t, rsns, rsns.len() as int, reply);
    assert(rsns.take(rsns.len() as int) =~= rsns);
    let a = t.retry_all_resets(reply);
    assert(a.s.reconfig_requests.dom().subset_of(t.reconfig_requests.dom()));
    vstd::set_lib::lemma_len_subset(a.s.reconfig_requests.dom(), t.reconfig_requests.dom());
    assert forall|k: u32| #[trigger] a.s.reconfig_requests.contains_key(k) implies !is_due(
        t,
        t.reconfig_requests[k],
    ) by {
        assert(rsns.to_set().contains(k));
    }
    assert(requests_filed(a.s.reconfig_requests));
    let r = s.advance_peer_tsn(reply).s;
    assert(r == a.s.advance_peer_tsn(a.reply).s);
    if a.s.has_next() {
        lemma_advance_performs(a.s, a.reply);
        assert forall|k: u32, x: u16|
            s.reconfig_requests.contains_key(k) && !r.reconfig_requests.contains_key(k)
                && #[trigger] s.reconfig_requests[k].stream_identifiers.contains(x) implies
            !#[trigger] r.streams.contains_key(x) by {
            if a.s.reconfig_requests.contains_key(k) {
                assert(a.s.reconfig_requests[k].stream_identifiers.contains(x));
            } else {
                assert(t.reconfig_requests[k].stream_identifiers.contains(x));
                assert(!a.s.streams.contains_key(x));
            }
        }
    } else {
        assert(r.reconfig_requests == a.s.reconfig_requests);
        assert(r.streams == a.s.streams);
        assert(r.tcb.rx == t.tcb.rx) by {
            assert(!a.s.has_next());
        }
        assert forall|k: u32, x: u16|
            s.reconfig_requests.contains_key(k) && !r.reconfig_requests.contains_key(k)
                && #[trigger] s.reconfig_requests[k].stream_identifiers.contains(x) implies
            !#[trigger] r.streams.contains_key(x) by {
            assert(t.reconfig_requests[k].stream_identifiers.contains(x));
            assert(!a.s.streams.contains_key(x));
        }
    }
}

/// A request that was put off is performed as soon as the data before it was received: once data
/// or a FORWARD TSN moves the last TSN without a gap, no request is kept whose data is complete,
/// and the streams of those that are not kept any longer are closed.
pub proof fn law_put_off_reset_is_performed(s: AssociationView, sack_immediately: bool)
    requires
        requests_filed(s.reconfig_requests),
        s.reconfig_requests.dom().finite(),
        s.has_next(),
    ensures
        ({
            let r = s.after_data(sack_immediately).0;
            &&& forall|k: u32| #[trigger]
                r.reconfig_requests.contains_key(k) ==> s.reconfig_requests.contains_key(k)
                    && r.reconfig_requests[k] == s.reconfig_requests[k] && !is_due(
                    r,
                    s.reconfig_requests[k],
                )
            &&& forall|k: u32, x: u16|
                s.reconfig_requests.contains_key(k) && !r.reconfig_requests.contains_key(k)
                    && #[trigger] s.reconfig_requests[k].stream_identifiers.contains(x)
                    ==> !#[trigger] r.streams.contains_key(x)
        }),
{
    reveal(AssociationView::after_data);
    reveal(crate::association::receive::ack_called_for);
    lemma_advance_performs(s, seq![]);
}

} // verus!
