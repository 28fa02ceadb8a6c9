//! What a SACK chunk does: acknowledged data leaves, the congestion window moves, and missing
//! data is marked for fast retransmission.

use std::collections::HashMap;
use vstd::prelude::*;

use crate::association::state::AssociationState;
use crate::association::stats::AssociationStats;
use crate::association::stream::StreamEvent;
use crate::association::timer::Timer;
use crate::association::view::{
    no_packets, refused, reply_view, Association, AssociationView, Event, Congestion, Owed,
    ReplyView, Sender, Tcb,
};
use crate::buffer::bytes_len;
use crate::chunk::kinds::{ChunkSelectiveAck, GapAckBlock, SackView};
use crate::chunk::payload::{elapsed_millis, millis_between, ChunkPayloadData, DataView, Instant};
use crate::error::{Error, ErrorView};
use crate::fx::{fx_insert, fx_remove};
use crate::keys::{map_keys16, sorted_keys};
use crate::packet::{packet_views, Packet};
use crate::queue::payload_queue::{
    lemma_mark_as_acked_wf, lemma_pop_wf, lemma_set_wf, PayloadQueueView,
};
use crate::util::{
    after32, before32, fwd32, low32, sna32gt, sna32gte, sna32lt, sna32lte, trunc32, upto32,
};

verus! {

/// The outcome of acknowledging data.
pub struct Acked {
    /// The association afterwards.
    pub s: AssociationView,
    /// The bytes that are newly acknowledged, by stream, modulo 2^64.
    pub bytes: Map<u16, u64>,
    /// The highest TSN that is newly acknowledged.
    pub htna: u32,
    /// What is wrong with the SACK.
    pub err: Option<Error>,
}

/// Counts with `n` bytes of a stream added.
pub open spec fn add_bytes(bytes: Map<u16, u64>, si: u16, n: nat) -> Map<u16, u64> {
    let amount: u64 = if bytes.contains_key(si) {
        bytes[si]
    } else {
        0
    };
    bytes.insert(si, amount.wrapping_add(n as u64))
}

/// The sum of the first `n` counts.
pub open spec fn sum_bytes(bytes: Map<u16, u64>, ids: Seq<u16>, n: int) -> u64
    decreases n,
{
    if n <= 0 {
        0
    } else {
        sum_bytes(bytes, ids, n - 1).wrapping_add(bytes[ids[n - 1]])
    }
}

/// The sum of all counts.
pub open spec fn total_bytes_acked(bytes: Map<u16, u64>) -> u64 {
    let ids = sorted_keys(bytes.dom());
    sum_bytes(bytes, ids, ids.len() as int)
}

/// How many TSNs there are from `i` up to `last`.
pub open spec fn count_upto(i: u32, last: u32) -> int {
    if upto32(i, last) {
        fwd32(i, last) + 1
    } else {
        0
    }
}

/// How many TSNs there are from `i` to before `end`.
pub open spec fn count_before(i: u32, end: u32) -> int {
    if before32(i, end) {
        fwd32(i, end)
    } else {
        0
    }
}

/// A round trip is measured with a chunk that was sent once.
pub open spec fn measure(t: Tcb, c: DataView, now: Instant) -> Tcb {
    Tcb {
        tx: Sender { min_tsn2measure_rtt: t.tx.my_next_tsn, ..t.tx },
        rto_mgr: match c.since {
            Some(since) => t.rto_mgr.measured(millis_between(since, now)),
            None => t.rto_mgr,
        },
        ..t
    }
}

/// The chunk with TSN `i` is acknowledged cumulatively. The first outstanding one stops the
/// retransmission timer; the last one of a loss ends fast recovery.
#[verifier::opaque]
pub open spec fn cumulatively_acked(t: Tcb, c: DataView, i: u32, now: Instant) -> Tcb {
    let t1 = if !c.acked && c.nsent == 1 && (c.tsn == t.tx.min_tsn2measure_rtt || after32(
        c.tsn,
        t.tx.min_tsn2measure_rtt,
    )) {
        measure(t, c, now)
    } else {
        t
    };
    Tcb {
        timers: if !c.acked && i == t.tx.cumulative_tsn_ack_point.wrapping_add(1) {
            t.timers.stopped(Timer::T3RTX)
        } else {
            t.timers
        },
        cc: Congestion {
            in_fast_recovery: t.cc.in_fast_recovery && c.tsn != t.cc.fast_recover_exit_point,
            ..t.cc
        },
        ..t1
    }
}

/// Takes the chunk with TSN `i` out of flight; the second value is the bytes that are newly
/// acknowledged, by stream.
#[verifier::opaque]
pub open spec fn pop_one(
    s: AssociationView,
    bytes: Map<u16, u64>,
    i: u32,
    now: Instant,
) -> (AssociationView, Map<u16, u64>) {
    let q = s.inflight_queue.pop(i);
    match s.inflight_queue.popped(i) {
        None => (AssociationView { inflight_queue: q, ..s }, bytes),
        Some(c) => (
            AssociationView { inflight_queue: q, tcb: cumulatively_acked(s.tcb, c, i, now), ..s },
            if c.acked {
                bytes
            } else {
                add_bytes(bytes, c.stream_identifier, c.user_data.len())
            },
        ),
    }
}

/// Takes the chunks from `i` up to `cum` out of flight. Each has to be the oldest one when it
/// leaves.
pub open spec fn pop_acked(
    s: AssociationView,
    bytes: Map<u16, u64>,
    i: u32,
    cum: u32,
    now: Instant,
) -> Acked
    decreases count_upto(i, cum),
{
    if !upto32(i, cum) {
        Acked { s, bytes, htna: cum, err: None }
    } else {
        let (s1, bytes1) = pop_one(s, bytes, i, now);
        if s.inflight_queue.popped(i) is None {
            Acked {
                s: s1,
                bytes: bytes1,
                htna: cum,
                err: Some(Error::ErrInflightQueueTsnPop),
            }
        } else {
            pop_acked(s1, bytes1, i.wrapping_add(1), cum, now)
        }
    }
}

/// The chunk with this TSN is acknowledged by a gap block.
pub open spec fn gap_acked(a: Acked, tsn: u32, now: Instant) -> Acked {
    match a.s.inflight_queue.get(tsn) {
        None => Acked { err: Some(Error::ErrTsnRequestNotExist), ..a },
        Some(c) => if c.acked {
            a
        } else {
            Acked {
                s: AssociationView {
                    inflight_queue: a.s.inflight_queue.mark_as_acked(tsn),
                    tcb: if c.nsent == 1 {
                        measure(a.s.tcb, c, now)
                    } else {
                        a.s.tcb
                    },
                    ..a.s
                },
                bytes: add_bytes(a.bytes, c.stream_identifier, c.user_data.len()),
                htna: if before32(a.htna, tsn) {
                    tsn
                } else {
                    a.htna
                },
                err: None,
            }
        },
    }
}

/// The first `n` TSNs of a block from `start` on are acknowledged.
pub open spec fn block_acked(a: Acked, cum: u32, start: u16, n: int, now: Instant) -> Acked
    decreases n,
{
    if n <= 0 {
        a
    } else {
        let b = block_acked(a, cum, start, n - 1, now);
        if b.err is Some {
            b
        } else {
            gap_acked(b, cum.wrapping_add((start + n - 1) as u32), now)
        }
    }
}

/// The number of TSNs of a block.
pub open spec fn block_len(g: GapAckBlock) -> int {
    if g.end >= g.start {
        g.end - g.start + 1
    } else {
        0
    }
}

/// The first `k` blocks are acknowledged.
pub open spec fn blocks_acked(
    a: Acked,
    cum: u32,
    blocks: Seq<GapAckBlock>,
    k: int,
    now: Instant,
) -> Acked
    decreases k,
{
    if k <= 0 {
        a
    } else {
        let b = blocks_acked(a, cum, blocks, k - 1, now);
        if b.err is Some {
            b
        } else {
            block_acked(b, cum, blocks[k - 1].start, block_len(blocks[k - 1]), now)
        }
    }
}

/// All that a SACK acknowledges.
#[verifier::opaque]
pub open spec fn selective_ack(s: AssociationView, d: SackView, now: Instant) -> Acked {
    let a = pop_acked(
        s,
        Map::empty(),
        s.tcb.tx.cumulative_tsn_ack_point.wrapping_add(1),
        d.cumulative_tsn_ack,
        now,
    );
    if a.err is Some {
        a
    } else {
        blocks_acked(a, d.cumulative_tsn_ack, d.gap_ack_blocks, d.gap_ack_blocks.len() as int, now)
    }
}

/// The greater of two numbers.
pub open spec fn max32(a: u32, b: u32) -> u32 {
    if a >= b {
        a
    } else {
        b
    }
}

/// The lesser of two numbers.
pub open spec fn min32(a: u32, b: u32) -> u32 {
    if a <= b {
        a
    } else {
        b
    }
}

/// The congestion window grows: in slow start by what is acknowledged, up to its double, unless
/// in fast recovery; in congestion avoidance by an MTU for each window of acknowledged data.
/// Either happens only while more data waits to be sent.
pub open spec fn grow_window(w: Congestion, mtu: u32, pending: bool, total: u32) -> Congestion {
    if w.cwnd <= w.ssthresh {
        if !w.in_fast_recovery && pending {
            Congestion { cwnd: w.cwnd.wrapping_add(min32(total, w.cwnd)), ..w }
        } else {
            w
        }
    } else {
        let partial = w.partial_bytes_acked.wrapping_add(total);
        if partial >= w.cwnd && pending {
            Congestion {
                partial_bytes_acked: (partial - w.cwnd) as u32,
                cwnd: w.cwnd.wrapping_add(mtu),
                ..w
            }
        } else {
            Congestion { partial_bytes_acked: partial, ..w }
        }
    }
}

/// The slow start threshold after a loss.
pub open spec fn loss_threshold(cwnd: u32, mtu: u32) -> u32 {
    max32(cwnd / 2, (4u32).wrapping_mul(mtu))
}

/// Fast recovery begins; it ends when `htna` is acknowledged.
pub open spec fn enter_fast_recovery(t: Tcb, htna: u32) -> Tcb {
    Tcb {
        cc: Congestion {
            in_fast_recovery: true,
            fast_recover_exit_point: htna,
            ssthresh: loss_threshold(t.cc.cwnd, t.conf.mtu),
            cwnd: loss_threshold(t.cc.cwnd, t.conf.mtu),
            partial_bytes_acked: 0,
            ..t.cc
        },
        owed: Owed { will_retransmit_fast: true, ..t.owed },
        ..t
    }
}

/// The chunk with this TSN is reported missing; the third report starts fast recovery.
pub open spec fn report_missing(s: AssociationView, tsn: u32, htna: u32) -> AssociationView {
    let c = s.inflight_queue.chunks[tsn];
    if !c.acked && !c.given_up() && c.miss_indicator < 3 {
        let m = (c.miss_indicator + 1) as u32;
        AssociationView {
            inflight_queue: s.inflight_queue.set(tsn, DataView { miss_indicator: m, ..c }),
            tcb: if m == 3 && !s.tcb.cc.in_fast_recovery {
                enter_fast_recovery(s.tcb, htna)
            } else {
                s.tcb
            },
            ..s
        }
    } else {
        s
    }
}

/// The chunks from `tsn` to before `max_tsn` are reported missing; false if one is not in
/// flight.
pub open spec fn report_all_missing(
    s: AssociationView,
    tsn: u32,
    max_tsn: u32,
    htna: u32,
) -> (AssociationView, bool)
    decreases count_before(tsn, max_tsn),
{
    if !before32(tsn, max_tsn) {
        (s, true)
    } else if !s.inflight_queue.chunks.contains_key(tsn) {
        (s, false)
    } else {
        report_all_missing(report_missing(s, tsn, htna), tsn.wrapping_add(1), max_tsn, htna)
    }
}

/// Miss reports of a SACK.
#[verifier::opaque]
pub open spec fn fast_retransmission(
    s: AssociationView,
    cum: u32,
    htna: u32,
    advanced: bool,
) -> (AssociationView, bool) {
    let (s1, ok) = if !s.tcb.cc.in_fast_recovery || advanced {
        let max_tsn = if !s.tcb.cc.in_fast_recovery {
            htna
        } else {
            cum.wrapping_add(low32(s.inflight_queue.chunks.dom().len() as int)).wrapping_add(1)
        };
        report_all_missing(s, cum.wrapping_add(1), max_tsn, htna)
    } else {
        (s, true)
    };
    if ok && s1.tcb.cc.in_fast_recovery && advanced {
        (s1.with_owed(Owed { will_retransmit_fast: true, ..s1.tcb.owed }), true)
    } else {
        (s1, ok)
    }
}

/// The acknowledgement point that the peer may be told of: behind `point` as many chunks as are
/// given up in a row, `n` at most.
pub open spec fn skip_given_up(q: PayloadQueueView, point: u32, n: nat) -> u32
    decreases n,
{
    if n == 0 {
        point
    } else {
        let next = point.wrapping_add(1);
        if q.chunks.contains_key(next) && q.chunks[next].given_up() {
            skip_given_up(q, next, (n - 1) as nat)
        } else {
            point
        }
    }
}

/// The advanced acknowledgement point moves over data that is given up, and a FORWARD TSN is
/// owed if it is then ahead of the acknowledged data.
pub open spec fn skip_abandoned(s: AssociationView) -> AssociationView {
    let point = skip_given_up(
        s.inflight_queue,
        s.tcb.tx.advanced_peer_tsn_ack_point,
        s.inflight_queue.chunks.dom().len(),
    );
    s.with(skipped_to(s.tcb, point))
}

/// The advanced acknowledgement point moves to `point`.
#[verifier::opaque]
pub open spec fn skipped_to(t: Tcb, point: u32) -> Tcb {
    Tcb {
        tx: Sender { advanced_peer_tsn_ack_point: point, ..t.tx },
        owed: Owed {
            will_send_forward_tsn: t.owed.will_send_forward_tsn || after32(
                point,
                t.tx.cumulative_tsn_ack_point,
            ),
            ..t.owed
        },
        ..t
    }
}

/// The streams with `ids` released of what is acknowledged, and an event for each that falls
/// to its threshold.
pub open spec fn release_buffers(
    s: AssociationView,
    bytes: Map<u16, u64>,
    ids: Seq<u16>,
    n: int,
) -> AssociationView
    decreases n,
{
    if n <= 0 {
        s
    } else {
        release_buffer(
            release_buffers(s, bytes, ids, n - 1),
            ids[n - 1],
            bytes[ids[n - 1]],
        )
    }
}

/// A stream released of `n` bytes.
pub open spec fn release_buffer(s: AssociationView, si: u16, n: u64) -> AssociationView {
    if !s.streams.contains_key(si) {
        s
    } else {
        AssociationView {
            streams: s.streams.insert(si, s.streams[si].buffer_released(n)),
            events: if s.streams[si].becomes_low(n) {
                s.events.push(Event::Stream(StreamEvent::BufferedAmountLow { id: si }))
            } else {
                s.events
            },
            ..s
        }
    }
}

/// What the peer's window leaves beside the data in flight.
pub open spec fn remaining_window(advertised: u32, outstanding: u32) -> u32 {
    if outstanding >= advertised {
        0
    } else {
        (advertised - outstanding) as u32
    }
}

/// The acknowledgement point moved: the retransmission timer stops if nothing is in flight, else
/// it runs, and the congestion window grows.
#[verifier::opaque]
pub open spec fn advanced(t: Tcb, idle: bool, pending: bool, total: u32, now: Instant) -> Tcb {
    Tcb {
        timers: if idle {
            t.timers.stopped(Timer::T3RTX)
        } else {
            t.timers.restarted_if_stale(Timer::T3RTX, now, t.rto_mgr.rto)
        },
        cc: grow_window(t.cc, t.conf.mtu, pending, total),
        ..t
    }
}

/// The last step of a SACK: the retransmission timer runs while data is in flight; else a
/// shutdown that waited for this goes on.
#[verifier::opaque]
pub open spec fn after_sack(t: Tcb, idle: bool, state: AssociationState, now: Instant) -> Tcb {
    if !idle {
        Tcb { timers: t.timers.restarted_if_stale(Timer::T3RTX, now, t.rto_mgr.rto), ..t }
    } else if state == AssociationState::ShutdownPending {
        Tcb {
            owed: Owed { will_send_shutdown: true, ..t.owed },
            state: AssociationState::ShutdownSent,
            ..t
        }
    } else if state == AssociationState::ShutdownReceived {
        Tcb {
            owed: Owed { will_send_shutdown_ack: true, ..t.owed },
            state: AssociationState::ShutdownAckSent,
            ..t
        }
    } else {
        t
    }
}

impl AssociationView {
    /// Whether no data is in flight.
    pub open spec fn idle(self) -> bool {
        self.inflight_queue.chunks.dom().is_empty()
    }

    /// The acknowledgement point moved, with `total` bytes newly acknowledged.
    pub open spec fn ack_point_advanced(self, total: u64, now: Instant) -> AssociationView {
        self.with(
            advanced(
                self.tcb,
                self.idle(),
                self.pending_queue.len() > 0,
                low32(total as int),
                now,
            ),
        )
    }

    /// The last step of a SACK.
    pub open spec fn postprocess_sack(
        self,
        state: AssociationState,
        now: Instant,
    ) -> AssociationView {
        self.with(after_sack(self.tcb, self.idle(), state, now))
    }

    /// The acknowledgement point moves to `cum` if that lies behind it, with `total` bytes newly
    /// acknowledged.
    #[verifier::opaque]
    pub open spec fn acked_upto(self, cum: u32, total: u64, now: Instant) -> AssociationView {
        if before32(self.tcb.tx.cumulative_tsn_ack_point, cum) {
            self.with_tx(
                Sender { cumulative_tsn_ack_point: cum, ..self.tcb.tx },
            ).ack_point_advanced(total, now)
        } else {
            self
        }
    }

    /// What a SACK does to the acknowledgement point, the streams and the windows.
    #[verifier::opaque]
    pub open spec fn sack_windows(
        self,
        d: SackView,
        bytes: Map<u16, u64>,
        now: Instant,
    ) -> AssociationView {
        let s1 = self.acked_upto(d.cumulative_tsn_ack, total_bytes_acked(bytes), now);
        let ids = sorted_keys(bytes.dom());
        let s2 = release_buffers(s1, bytes, ids, ids.len() as int);
        s2.with_cc(
            Congestion {
                rwnd: remaining_window(
                    d.advertised_receiver_window_credit,
                    low32(s2.inflight_queue.n_bytes as int),
                ),
                ..s2.tcb.cc
            },
        )
    }

    /// What a SACK does once all that it acknowledges is known to be in flight.
    #[verifier::opaque]
    pub open spec fn sack_accepted(
        self,
        d: SackView,
        bytes: Map<u16, u64>,
        htna: u32,
        now: Instant,
    ) -> (AssociationView, ReplyView) {
        let advanced = before32(self.tcb.tx.cumulative_tsn_ack_point, d.cumulative_tsn_ack);
        let s3 = self.sack_windows(d, bytes, now);
        let (s4, ok) = fast_retransmission(s3, d.cumulative_tsn_ack, htna, advanced);
        if !ok {
            (s4, refused(Error::ErrTsnRequestNotExist))
        } else {
            let s5 = if s4.tcb.peer.use_forward_tsn {
                s4.forward_point()
            } else {
                s4
            };
            (s5.postprocess_sack(self.tcb.state, now), no_packets())
        }
    }

    /// The advanced acknowledgement point catches up with the acknowledged data and moves over
    /// data that is given up.
    pub open spec fn forward_point(self) -> AssociationView {
        let point = self.tcb.tx.advanced_peer_tsn_ack_point;
        let s = if before32(point, self.tcb.tx.cumulative_tsn_ack_point) {
            self.with_tx(
                Sender {
                    advanced_peer_tsn_ack_point: self.tcb.tx.cumulative_tsn_ack_point,
                    ..self.tcb.tx
                },
            )
        } else {
            self
        };
        skip_abandoned(s)
    }

    /// What a SACK does. In a state that sends no data, or if it is older than what is
    /// acknowledged, it is only counted, or not even that.
    #[verifier::opaque]
    pub open spec fn handle_sack(self, d: SackView, now: Instant) -> (AssociationView, ReplyView) {
        if self.tcb.state != AssociationState::Established && self.tcb.state
            != AssociationState::ShutdownPending && self.tcb.state
            != AssociationState::ShutdownReceived {
            (self, no_packets())
        } else {
            let s = self.with(
                Tcb {
                    stats: AssociationStats {
                        n_sacks: self.tcb.stats.n_sacks.wrapping_add(1),
                        ..self.tcb.stats
                    },
                    ..self.tcb
                },
            );
            if after32(self.tcb.tx.cumulative_tsn_ack_point, d.cumulative_tsn_ack) {
                (s, no_packets())
            } else {
                let a = selective_ack(s, d, now);
                match a.err {
                    Some(e) => (a.s, refused(e)),
                    None => a.s.sack_accepted(d, a.bytes, a.htna, now),
                }
            }
        }
    }
}

/// Adds bytes of a stream to the counts.
fn add_acked(bytes: &mut HashMap<u16, u64>, si: u16, n: usize)
    ensures
        final(bytes)@ == add_bytes(old(bytes)@, si, n as nat),
{
    broadcast use vstd::std_specs::hash::group_hash_axioms;

    let amount: u64 = match bytes.get(&si) {
        Some(amount) => *amount,
        None => 0,
    };
    bytes.insert(si, amount.wrapping_add(n as u64));
}

/// Measures a round trip with a chunk.
fn measure_rtt(t: &mut Tcb, c: &ChunkPayloadData, now: Instant)
    ensures
        *final(t) == measure(*old(t), c@, now),
{
    t.tx.min_tsn2measure_rtt = t.tx.my_next_tsn;
    if let Some(since) = c.since {
        let rtt = elapsed_millis(since, now);
        t.rto_mgr.set_new_rtt(rtt);
    }
}

/// Takes note of a chunk that is acknowledged cumulatively.
fn ack_cumulatively(t: &mut Tcb, c: &ChunkPayloadData, i: u32, now: Instant)
    ensures
        *final(t) == cumulatively_acked(*old(t), c@, i, now),
{
    reveal(cumulatively_acked);
    if !c.acked {
        if i == t.tx.cumulative_tsn_ack_point.wrapping_add(1) {
            t.timers.stop(Timer::T3RTX);
        }
        if c.nsent == 1 && sna32gte(c.tsn, t.tx.min_tsn2measure_rtt) {
            measure_rtt(t, c, now);
        }
    }
    if t.cc.in_fast_recovery && c.tsn == t.cc.fast_recover_exit_point {
        t.cc.in_fast_recovery = false;
    }
}

impl Association {
    /// Takes the chunk with TSN `i` out of flight; false if it is not the oldest one.
    fn pop_acked_chunk(
        &mut self,
        i: u32,
        now: Instant,
        bytes: &mut HashMap<u16, u64>,
    ) -> (r: bool)
        requires
            old(self)@.wf(),
        ensures
            (final(self)@, final(bytes)@) == pop_one(old(self)@, old(bytes)@, i, now),
            r == (old(self)@.inflight_queue.popped(i) is Some),
            final(self)@.wf(),
    {
        reveal(pop_one);
        proof {
            lemma_pop_wf(self@.inflight_queue, i);
        }
        match self.inflight_queue.pop(i) {
            Some(c) => {
                if !c.acked {
                    add_acked(bytes, c.stream_identifier, bytes_len(&c.user_data));
                }
                ack_cumulatively(&mut self.tcb, &c, i, now);
                true
            },
            None => false,
        }
    }

    /// Takes the chunks that are acknowledged cumulatively out of flight.
    fn pop_acked_chunks(
        &mut self,
        cumulative_tsn_ack: u32,
        now: Instant,
        bytes: &mut HashMap<u16, u64>,
    ) -> (r: Result<(), Error>)
        requires
            old(self)@.wf(),
        ensures
            ({
                let a = pop_acked(
                    old(self)@,
                    old(bytes)@,
                    old(self)@.tcb.tx.cumulative_tsn_ack_point.wrapping_add(1),
                    cumulative_tsn_ack,
                    now,
                );
                &&& final(self)@ == a.s
                &&& final(bytes)@ == a.bytes
                &&& a.err == (match r {
                    Ok(_) => None,
                    Err(e) => Some(e),
                })
            }),
            final(self)@.wf(),
    {
        let mut i: u32 = self.tcb.tx.cumulative_tsn_ack_point.wrapping_add(1);
        let ghost want = pop_acked(self@, bytes@, i, cumulative_tsn_ack, now);
        while sna32lte(i, cumulative_tsn_ack)
            invariant
                self@.wf(),
                want == pop_acked(self@, bytes@, i, cumulative_tsn_ack, now),
                want == pop_acked(
                    old(self)@,
                    old(bytes)@,
                    old(self)@.tcb.tx.cumulative_tsn_ack_point.wrapping_add(1),
                    cumulative_tsn_ack,
                    now,
                ),
            decreases count_upto(i, cumulative_tsn_ack),
        {
            if !self.pop_acked_chunk(i, now, bytes) {
                return Err(Error::ErrInflightQueueTsnPop);
            }
            i = i.wrapping_add(1);
        }
        Ok(())
    }

    /// Acknowledges the chunk with this TSN by a gap block.
    fn ack_gap(
        &mut self,
        tsn: u32,
        now: Instant,
        bytes: &mut HashMap<u16, u64>,
        htna: u32,
    ) -> (r: Result<u32, Error>)
        requires
            old(self)@.wf(),
        ensures
            ({
                let a = gap_acked(
                    Acked { s: old(self)@, bytes: old(bytes)@, htna, err: None },
                    tsn,
                    now,
                );
                &&& final(self)@ == a.s
                &&& final(bytes)@ == a.bytes
                &&& match r {
                    Ok(h) => a.err is None && h == a.htna,
                    Err(e) => a.err == Some(e) && htna == a.htna,
                }
            }),
            final(self)@.wf(),
    {
        proof {
            lemma_mark_as_acked_wf(self@.inflight_queue, tsn);
        }
        let is_acked = match self.inflight_queue.get(tsn) {
            Some(c) => c.acked,
            None => {
                return Err(Error::ErrTsnRequestNotExist);
            },
        };
        if is_acked {
            return Ok(htna);
        }
        let ghost c = self@.inflight_queue.chunks[tsn];
        let n_bytes_acked = self.inflight_queue.mark_as_acked(tsn);
        if let Some(c) = self.inflight_queue.get(tsn) {
            add_acked(bytes, c.stream_identifier, n_bytes_acked);
            if c.nsent == 1 {
                measure_rtt(&mut self.tcb, c, now);
            }
        }
        assert(self@.tcb == if c.nsent == 1 {
            measure(old(self)@.tcb, c, now)
        } else {
            old(self)@.tcb
        });
        if sna32lt(htna, tsn) {
            Ok(tsn)
        } else {
            Ok(htna)
        }
    }

    /// Acknowledges the TSNs of a gap block.
    fn ack_block(
        &mut self,
        cumulative_tsn_ack: u32,
        g: GapAckBlock,
        now: Instant,
        bytes: &mut HashMap<u16, u64>,
        htna: u32,
    ) -> (r: Result<u32, Error>)
        requires
            old(self)@.wf(),
        ensures
            ({
                let a = block_acked(
                    Acked { s: old(self)@, bytes: old(bytes)@, htna, err: None },
                    cumulative_tsn_ack,
                    g.start,
                    block_len(g),
                    now,
                );
                &&& final(self)@ == a.s
                &&& final(bytes)@ == a.bytes
                &&& match r {
                    Ok(h) => a.err is None && h == a.htna,
                    Err(e) => a.err == Some(e),
                }
            }),
            final(self)@.wf(),
    {
        if g.end < g.start {
            return Ok(htna);
        }
        let ghost a0 = Acked { s: self@, bytes: bytes@, htna, err: None };
        let n: u32 = (g.end as u32) - (g.start as u32) + 1;
        let mut h: u32 = htna;
        let mut k: u32 = 0;
        while k < n
            invariant
                k <= n,
                n == block_len(g),
                n == g.end - g.start + 1,
                self@.wf(),
                a0 == (Acked { s: old(self)@, bytes: old(bytes)@, htna, err: None }),
                block_acked(a0, cumulative_tsn_ack, g.start, k as int, now) == (Acked {
                    s: self@,
                    bytes: bytes@,
                    htna: h,
                    err: None,
                }),
            decreases n - k,
        {
            let tsn = cumulative_tsn_ack.wrapping_add((g.start as u32) + k);
            let ghost b = block_acked(a0, cumulative_tsn_ack, g.start, k as int, now);
            assert(block_acked(a0, cumulative_tsn_ack, g.start, k + 1, now) == gap_acked(
                b,
                tsn,
                now,
            ));
            match self.ack_gap(tsn, now, bytes, h) {
                Ok(x) => {
                    h = x;
                },
                Err(e) => {
                    proof {
                        lemma_block_stops(a0, cumulative_tsn_ack, g.start, k + 1, n as int, now);
                    }
                    return Err(e);
                },
            }
            k += 1;
        }
        Ok(h)
    }

    /// Acknowledges what a SACK covers: returns the bytes that are newly acknowledged, by
    /// stream, and the highest TSN among them.
    pub fn process_selective_ack(&mut self, d: &ChunkSelectiveAck, now: Instant) -> (r: Result<
        (HashMap<u16, u64>, u32),
        Error,
    >)
        requires
            old(self)@.wf(),
        ensures
            ({
                let a = selective_ack(old(self)@, d@, now);
                &&& final(self)@ == a.s
                &&& match r {
                    Ok((bytes, htna)) => a.err is None && bytes@ == a.bytes && htna == a.htna,
                    Err(e) => a.err == Some(e),
                }
            }),
            final(self)@.wf(),
    {
        reveal(selective_ack);
        let mut bytes: HashMap<u16, u64> = HashMap::new();
        let cum = d.cumulative_tsn_ack;
        if let Err(e) = self.pop_acked_chunks(cum, now, &mut bytes) {
            return Err(e);
        }
        let mut htna: u32 = cum;
        let ghost a0 = pop_acked(
            old(self)@,
            Map::empty(),
            old(self)@.tcb.tx.cumulative_tsn_ack_point.wrapping_add(1),
            cum,
            now,
        );
        proof {
            lemma_pop_acked_htna(
                old(self)@,
                Map::empty(),
                old(self)@.tcb.tx.cumulative_tsn_ack_point.wrapping_add(1),
                cum,
                now,
            );
        }
        let mut k: usize = 0;
        while k < d.gap_ack_blocks.len()
            invariant
                k <= d.gap_ack_blocks.len(),
                self@.wf(),
                cum == d.cumulative_tsn_ack,
                selective_ack(old(self)@, d@, now) == blocks_acked(
                    a0,
                    cum,
                    d@.gap_ack_blocks,
                    d@.gap_ack_blocks.len() as int,
                    now,
                ),
                blocks_acked(a0, cum, d@.gap_ack_blocks, k as int, now) == (Acked {
                    s: self@,
                    bytes: bytes@,
                    htna,
                    err: None,
                }),
            decreases d.gap_ack_blocks.len() - k,
        {
            let g = d.gap_ack_blocks[k];
            let ghost b = blocks_acked(a0, cum, d@.gap_ack_blocks, k as int, now);
            assert(blocks_acked(a0, cum, d@.gap_ack_blocks, k + 1, now) == block_acked(
                b,
                cum,
                g.start,
                block_len(g),
                now,
            ));
            match self.ack_block(cum, g, now, &mut bytes, htna) {
                Ok(x) => {
                    htna = x;
                },
                Err(e) => {
                    proof {
                        lemma_blocks_stop(
                            a0,
                            cum,
                            d@.gap_ack_blocks,
                            k + 1,
                            d@.gap_ack_blocks.len() as int,
                            now,
                        );
                    }
                    return Err(e);
                },
            }
            k += 1;
        }
        Ok((bytes, htna))
    }
}

impl Association {
    /// Moves timers and the congestion window after the acknowledgement point advanced.
    pub fn on_cumulative_tsn_ack_point_advanced(&mut self, total_bytes_acked: u64, now: Instant)
        requires
            old(self)@.wf(),
        ensures
            final(self)@ == old(self)@.ack_point_advanced(total_bytes_acked, now),
            final(self)@.wf(),
    {
        let idle = self.inflight_queue.is_empty();
        let pending = !self.pending_queue.is_empty();
        let total = (total_bytes_acked % 0x1_0000_0000) as u32;
        advance_window(&mut self.tcb, idle, pending, total, now);
    }

    /// Reports the chunk with this TSN missing; false if it is not in flight.
    fn report_missing_chunk(&mut self, tsn: u32, htna: u32) -> (r: bool)
        requires
            old(self)@.wf(),
        ensures
            r == old(self)@.inflight_queue.chunks.contains_key(tsn),
            final(self)@ == if r {
                report_missing(old(self)@, tsn, htna)
            } else {
                old(self)@
            },
            final(self)@.wf(),
    {
        let ghost q = self@.inflight_queue;
        let mut third = false;
        match self.inflight_queue.get_mut(tsn) {
            Some(c) => {
                let ghost before = c@;
                if !c.acked && !c.abandoned() && c.miss_indicator < 3 {
                    c.miss_indicator += 1;
                    third = c.miss_indicator == 3;
                }
                proof {
                    lemma_set_wf(q, tsn, c@);
                    if c@ == before {
                        assert(q.set(tsn, before) =~= q);
                    }
                }
            },
            None => {
                return false;
            },
        }
        if third && !self.tcb.cc.in_fast_recovery {
            begin_fast_recovery(&mut self.tcb, htna);
        }
        assert(self@ =~= report_missing(old(self)@, tsn, htna));
        true
    }

    /// Counts miss reports of a SACK, which may start fast recovery.
    pub fn process_fast_retransmission(
        &mut self,
        cum_tsn_ack_point: u32,
        htna: u32,
        cum_tsn_ack_point_advanced: bool,
    ) -> (r: Result<(), Error>)
        requires
            old(self)@.wf(),
        ensures
            ({
                let (s, ok) = fast_retransmission(
                    old(self)@,
                    cum_tsn_ack_point,
                    htna,
                    cum_tsn_ack_point_advanced,
                );
                &&& final(self)@ == s
                &&& r == (if ok {
                    Ok::<(), Error>(())
                } else {
                    Err::<(), Error>(Error::ErrTsnRequestNotExist)
                })
            }),
            final(self)@.wf(),
    {
        reveal(fast_retransmission);
        // Miss indications are incremented outside of fast recovery only for missing TSNs
        // prior to the highest TSN newly acknowledged; in fast recovery, if the acknowledgement
        // point advanced, for all TSNs reported missing.
        if !self.tcb.cc.in_fast_recovery || cum_tsn_ack_point_advanced {
            let max_tsn = if !self.tcb.cc.in_fast_recovery {
                htna
            } else {
                cum_tsn_ack_point.wrapping_add(trunc32(self.inflight_queue.len())).wrapping_add(1)
            };
            let mut tsn: u32 = cum_tsn_ack_point.wrapping_add(1);
            let ghost want = report_all_missing(self@, tsn, max_tsn, htna);
            while sna32lt(tsn, max_tsn)
                invariant
                    self@.wf(),
                    want == report_all_missing(self@, tsn, max_tsn, htna),
                    want.1 ==> fast_retransmission(
                        old(self)@,
                        cum_tsn_ack_point,
                        htna,
                        cum_tsn_ack_point_advanced,
                    ) == (if want.0.tcb.cc.in_fast_recovery && cum_tsn_ack_point_advanced {
                        (
                            want.0.with_owed(
                                Owed { will_retransmit_fast: true, ..want.0.tcb.owed },
                            ),
                            true,
                        )
                    } else {
                        want
                    }),
                    !want.1 ==> fast_retransmission(
                        old(self)@,
                        cum_tsn_ack_point,
                        htna,
                        cum_tsn_ack_point_advanced,
                    ) == want,
                decreases count_before(tsn, max_tsn),
            {
                if !self.report_missing_chunk(tsn, htna) {
                    return Err(Error::ErrTsnRequestNotExist);
                }
                tsn = tsn.wrapping_add(1);
            }
        }
        if self.tcb.cc.in_fast_recovery && cum_tsn_ack_point_advanced {
            self.tcb.owed.will_retransmit_fast = true;
        }
        Ok(())
    }

    /// Moves the advanced acknowledgement point over data that is given up.
    pub fn advance_peer_ack_point(&mut self)
        requires
            old(self)@.wf(),
        ensures
            final(self)@ == skip_abandoned(old(self)@),
            final(self)@.wf(),
    {
        let n = self.inflight_queue.len();
        let ghost q = self@.inflight_queue;
        let mut point: u32 = self.tcb.tx.advanced_peer_tsn_ack_point;
        let mut left: usize = n;
        let mut done = false;
        while left > 0 && !done
            invariant
                q == self@.inflight_queue,
                self@ == old(self)@,
                done ==> point == skip_given_up(
                    q,
                    old(self)@.tcb.tx.advanced_peer_tsn_ack_point,
                    n as nat,
                ),
                !done ==> skip_given_up(q, point, left as nat) == skip_given_up(
                    q,
                    old(self)@.tcb.tx.advanced_peer_tsn_ack_point,
                    n as nat,
                ),
            decreases left, (if done { 0int } else { 1int }),
        {
            let next = point.wrapping_add(1);
            let given_up = match self.inflight_queue.get(next) {
                Some(c) => c.abandoned(),
                None => false,
            };
            if given_up {
                point = next;
                left -= 1;
            } else {
                done = true;
            }
        }
        skip_to(&mut self.tcb, point);
    }

    /// Releases a stream of acknowledged bytes.
    fn release_stream(&mut self, si: u16, n: u64)
        ensures
            final(self)@ == release_buffer(old(self)@, si, n),
    {
        broadcast use vstd::std_specs::hash::group_hash_axioms;

        let ghost m = self@.streams;
        if let Some(mut s) = fx_remove(&mut self.streams, &si) {
            let low = s.on_buffer_released(n);
            fx_insert(&mut self.streams, si, s);
            assert(self@.streams =~= m.insert(si, m[si].buffer_released(n)));
            if low {
                self.events.push_back(Event::Stream(StreamEvent::BufferedAmountLow { id: si }));
            }
        } else {
            assert(self@.streams =~= m);
        }
        assert(self@ =~= release_buffer(old(self)@, si, n));
    }

    /// The last step of a SACK.
    pub fn postprocess_sack(&mut self, state: AssociationState, now: Instant)
        requires
            old(self)@.wf(),
        ensures
            final(self)@ == old(self)@.postprocess_sack(state, now),
            final(self)@.wf(),
    {
        let idle = self.inflight_queue.is_empty();
        finish_sack(&mut self.tcb, idle, state, now);
    }
}

/// The sum of all counts.
fn sum_acked(bytes: &HashMap<u16, u64>, ids: &Vec<u16>) -> (r: u64)
    requires
        ids@ == sorted_keys(bytes@.dom()),
        ids@.to_set() == bytes@.dom(),
    ensures
        r == total_bytes_acked(bytes@),
{
    broadcast use vstd::std_specs::hash::group_hash_axioms;

    let mut total: u64 = 0;
    let mut k: usize = 0;
    while k < ids.len()
        invariant
            k <= ids.len(),
            ids@.to_set() == bytes@.dom(),
            total == sum_bytes(bytes@, ids@, k as int),
        decreases ids.len() - k,
    {
        let si = ids[k];
        assert(ids@.to_set().contains(si)) by {
            assert(ids@.contains(ids@[k as int]));
        }
        assert(bytes@.contains_key(si));
        if let Some(n) = bytes.get(&si) {
            total = total.wrapping_add(*n);
        }
        k += 1;
    }
    total
}

impl Association {
    /// Releases the streams of what is acknowledged.
    fn release_streams(&mut self, bytes: &HashMap<u16, u64>, ids: &Vec<u16>)
        requires
            old(self)@.wf(),
            ids@.to_set() == bytes@.dom(),
        ensures
            final(self)@ == release_buffers(old(self)@, bytes@, ids@, ids@.len() as int),
            final(self)@.wf(),
    {
        broadcast use vstd::std_specs::hash::group_hash_axioms;

        let mut k: usize = 0;
        while k < ids.len()
            invariant
                k <= ids.len(),
                self@.wf(),
                ids@.to_set() == bytes@.dom(),
                self@ == release_buffers(old(self)@, bytes@, ids@, k as int),
            decreases ids.len() - k,
        {
            let si = ids[k];
            assert(ids@.to_set().contains(si)) by {
                assert(ids@.contains(ids@[k as int]));
            }
            assert(bytes@.contains_key(si));
            if let Some(n) = bytes.get(&si) {
                self.release_stream(si, *n);
            }
            k += 1;
        }
    }

    /// Moves the acknowledgement point if `cum` lies behind it.
    fn ack_upto(&mut self, cum: u32, total: u64, now: Instant)
        requires
            old(self)@.wf(),
        ensures
            final(self)@ == old(self)@.acked_upto(cum, total, now),
            final(self)@.wf(),
    {
        reveal(AssociationView::acked_upto);
        if sna32lt(self.tcb.tx.cumulative_tsn_ack_point, cum) {
            self.tcb.tx.cumulative_tsn_ack_point = cum;
            self.on_cumulative_tsn_ack_point_advanced(total, now);
        }
    }

    /// Moves the acknowledgement point, the streams and the windows.
    fn move_windows(
        &mut self,
        d: &ChunkSelectiveAck,
        bytes: &HashMap<u16, u64>,
        now: Instant,
    )
        requires
            old(self)@.wf(),
        ensures
            final(self)@ == old(self)@.sack_windows(d@, bytes@, now),
            final(self)@.wf(),
    {
        reveal(AssociationView::sack_windows);
        let ids = map_keys16(bytes);
        let total = sum_acked(bytes, &ids);
        self.ack_upto(d.cumulative_tsn_ack, total, now);
        self.release_streams(bytes, &ids);
        // Bytes acknowledged were already taken off when they were marked.
        let outstanding = trunc32(self.inflight_queue.get_num_bytes());
        self.tcb.cc.rwnd = if outstanding >= d.advertised_receiver_window_credit {
            0
        } else {
            d.advertised_receiver_window_credit - outstanding
        };
    }

    /// Does what a SACK asks for once all that it acknowledges is known to be in flight.
    pub fn accept_sack(
        &mut self,
        d: &ChunkSelectiveAck,
        bytes: &HashMap<u16, u64>,
        htna: u32,
        now: Instant,
    ) -> (r: Result<Vec<Packet>, Error>)
        requires
            old(self)@.wf(),
        ensures
            (final(self)@, reply_view(r)) == old(self)@.sack_accepted(d@, bytes@, htna, now),
            final(self)@.wf(),
    {
        reveal(AssociationView::sack_accepted);
        let state = self.tcb.state;
        let advanced = sna32lt(self.tcb.tx.cumulative_tsn_ack_point, d.cumulative_tsn_ack);
        self.move_windows(d, bytes, now);
        if let Err(e) = self.process_fast_retransmission(d.cumulative_tsn_ack, htna, advanced) {
            return Err(e);
        }
        if self.tcb.peer.use_forward_tsn {
            self.catch_up_peer_ack_point();
        }
        self.postprocess_sack(state, now);
        let reply: Vec<Packet> = Vec::new();
        assert(packet_views(reply@) =~= seq![]);
        Ok(reply)
    }

    /// Lets the advanced acknowledgement point catch up and move over data that is given up.
    fn catch_up_peer_ack_point(&mut self)
        requires
            old(self)@.wf(),
        ensures
            final(self)@ == old(self)@.forward_point(),
            final(self)@.wf(),
    {
        if sna32lt(
            self.tcb.tx.advanced_peer_tsn_ack_point,
            self.tcb.tx.cumulative_tsn_ack_point,
        ) {
            self.tcb.tx.advanced_peer_tsn_ack_point = self.tcb.tx.cumulative_tsn_ack_point;
        }
        self.advance_peer_ack_point();
    }

    /// Handles a SACK chunk.
    pub fn handle_sack(&mut self, d: &ChunkSelectiveAck, now: Instant) -> (r: Result<
        Vec<Packet>,
        Error,
    >)
        requires
            old(self)@.wf(),
        ensures
            (final(self)@, reply_view(r)) == old(self)@.handle_sack(d@, now),
            final(self)@.wf(),
    {
        reveal(AssociationView::handle_sack);
        let none: Vec<Packet> = Vec::new();
        assert(packet_views(none@) =~= seq![]);
        let state = self.tcb.state;
        if state != AssociationState::Established && state != AssociationState::ShutdownPending
            && state != AssociationState::ShutdownReceived {
            return Ok(none);
        }
        self.tcb.stats.inc_sacks();
        if sna32gt(self.tcb.tx.cumulative_tsn_ack_point, d.cumulative_tsn_ack) {
            // Since the cumulative TSN is monotonically increasing, a SACK whose cumulative TSN
            // is less than the acknowledgement point is an out-of-order SACK.
            return Ok(none);
        }
        match self.process_selective_ack(d, now) {
            Ok((bytes, htna)) => self.accept_sack(d, &bytes, htna, now),
            Err(e) => {
                proof {
                    lemma_ack_errors(
                        old(self)@.with(
                            Tcb {
                                stats: AssociationStats {
                                    n_sacks: old(self)@.tcb.stats.n_sacks.wrapping_add(1),
                                    ..old(self)@.tcb.stats
                                },
                                ..old(self)@.tcb
                            },
                        ),
                        d@,
                        now,
                    );
                }
                Err(e)
            },
        }
    }
}

/// The errors of acknowledging data.
proof fn lemma_ack_errors(s: AssociationView, d: SackView, now: Instant)
    ensures
        selective_ack(s, d, now).err matches Some(e) ==> e@ == ErrorView::Plain(e),
{
    reveal(selective_ack);
    let first = s.tcb.tx.cumulative_tsn_ack_point.wrapping_add(1);
    lemma_pop_errors(s, Map::empty(), first, d.cumulative_tsn_ack, now);
    let a = pop_acked(s, Map::empty(), first, d.cumulative_tsn_ack, now);
    lemma_blocks_errors(
        a,
        d.cumulative_tsn_ack,
        d.gap_ack_blocks,
        d.gap_ack_blocks.len() as int,
        now,
    );
}

proof fn lemma_pop_errors(
    s: AssociationView,
    bytes: Map<u16, u64>,
    i: u32,
    cum: u32,
    now: Instant,
)
    ensures
        pop_acked(s, bytes, i, cum, now).err matches Some(e) ==> e == Error::ErrInflightQueueTsnPop,
    decreases count_upto(i, cum),
{
    if upto32(i, cum) && s.inflight_queue.popped(i) is Some {
        let (s1, bytes1) = pop_one(s, bytes, i, now);
        lemma_pop_errors(s1, bytes1, i.wrapping_add(1), cum, now);
    }
}

proof fn lemma_block_errors(a: Acked, cum: u32, start: u16, n: int, now: Instant)
    requires
        a.err is None,
    ensures
        block_acked(a, cum, start, n, now).err matches Some(e) ==> e
            == Error::ErrTsnRequestNotExist,
    decreases n,
{
    if n > 0 {
        lemma_block_errors(a, cum, start, n - 1, now);
    }
}

proof fn lemma_blocks_errors(
    a: Acked,
    cum: u32,
    blocks: Seq<GapAckBlock>,
    n: int,
    now: Instant,
)
    ensures
        a.err is None ==> (blocks_acked(a, cum, blocks, n, now).err matches Some(e) ==> e
            == Error::ErrTsnRequestNotExist),
    decreases n,
{
    if n > 0 {
        lemma_blocks_errors(a, cum, blocks, n - 1, now);
        let b = blocks_acked(a, cum, blocks, n - 1, now);
        if b.err is None {
            lemma_block_errors(b, cum, blocks[n - 1].start, block_len(blocks[n - 1]), now);
        }
    }
}

/// Moves the retransmission timer and the congestion window.
fn advance_window(t: &mut Tcb, idle: bool, pending: bool, total: u32, now: Instant)
    ensures
        *final(t) == advanced(*old(t), idle, pending, total, now),
{
    reveal(advanced);
    // R2: whenever all outstanding data sent to an address have been acknowledged, turn off
    // the T3-rtx timer of that address.
    if idle {
        t.timers.stop(Timer::T3RTX);
    } else {
        let rto = t.rto_mgr.get_rto();
        t.timers.restart_if_stale(Timer::T3RTX, now, rto);
    }
    let mtu = t.conf.mtu;
    update_window(&mut t.cc, mtu, pending, total);
}

/// Keeps the retransmission timer running, or goes on with a shutdown.
fn finish_sack(t: &mut Tcb, idle: bool, state: AssociationState, now: Instant)
    ensures
        *final(t) == after_sack(*old(t), idle, state, now),
{
    reveal(after_sack);
    if !idle {
        // Start timer. (noop if already started)
        let rto = t.rto_mgr.get_rto();
        t.timers.restart_if_stale(Timer::T3RTX, now, rto);
    } else if state == AssociationState::ShutdownPending {
        // No more outstanding, send shutdown.
        t.owed.will_send_shutdown = true;
        t.state = AssociationState::ShutdownSent;
    } else if state == AssociationState::ShutdownReceived {
        // No more outstanding, send shutdown ack.
        t.owed.will_send_shutdown_ack = true;
        t.state = AssociationState::ShutdownAckSent;
    }
}

/// Moves the advanced acknowledgement point.
fn skip_to(t: &mut Tcb, point: u32)
    ensures
        *final(t) == skipped_to(*old(t), point),
{
    reveal(skipped_to);
    t.tx.advanced_peer_tsn_ack_point = point;
    if sna32gt(point, t.tx.cumulative_tsn_ack_point) {
        t.owed.will_send_forward_tsn = true;
    }
}

/// Lets the congestion window grow.
fn update_window(w: &mut Congestion, mtu: u32, pending: bool, total: u32)
    ensures
        *final(w) == grow_window(*old(w), mtu, pending, total),
{
    if w.cwnd <= w.ssthresh {
        // Slow start
        if !w.in_fast_recovery && pending {
            let increase = if total <= w.cwnd {
                total
            } else {
                w.cwnd
            };
            w.cwnd = w.cwnd.wrapping_add(increase);
        }
    } else {
        // Congestion avoidance
        w.partial_bytes_acked = w.partial_bytes_acked.wrapping_add(total);
        if w.partial_bytes_acked >= w.cwnd && pending {
            w.partial_bytes_acked = w.partial_bytes_acked - w.cwnd;
            w.cwnd = w.cwnd.wrapping_add(mtu);
        }
    }
}

/// The slow start threshold after a loss.
pub fn threshold_after_loss(cwnd: u32, mtu: u32) -> (r: u32)
    ensures
        r == loss_threshold(cwnd, mtu),
{
    let four = (4u32).wrapping_mul(mtu);
    if cwnd / 2 >= four {
        cwnd / 2
    } else {
        four
    }
}

/// Starts fast recovery.
fn begin_fast_recovery(t: &mut Tcb, htna: u32)
    ensures
        *final(t) == enter_fast_recovery(*old(t), htna),
{
    let threshold = threshold_after_loss(t.cc.cwnd, t.conf.mtu);
    t.cc.in_fast_recovery = true;
    t.cc.fast_recover_exit_point = htna;
    t.cc.ssthresh = threshold;
    t.cc.cwnd = threshold;
    t.cc.partial_bytes_acked = 0;
    t.owed.will_retransmit_fast = true;
}

/// Nothing more of a block is acknowledged after an error.
proof fn lemma_block_stops(a: Acked, cum: u32, start: u16, k: int, n: int, now: Instant)
    requires
        k <= n,
        block_acked(a, cum, start, k, now).err is Some,
    ensures
        block_acked(a, cum, start, n, now) == block_acked(a, cum, start, k, now),
    decreases n,
{
    if k < n && n > 0 {
        lemma_block_stops(a, cum, start, k, n - 1, now);
    }
}

/// No more blocks are acknowledged after an error.
proof fn lemma_blocks_stop(
    a: Acked,
    cum: u32,
    blocks: Seq<GapAckBlock>,
    k: int,
    n: int,
    now: Instant,
)
    requires
        k <= n,
        blocks_acked(a, cum, blocks, k, now).err is Some,
    ensures
        blocks_acked(a, cum, blocks, n, now) == blocks_acked(a, cum, blocks, k, now),
    decreases n,
{
    if k < n && n > 0 {
        lemma_blocks_stop(a, cum, blocks, k, n - 1, now);
    }
}

/// Cumulative acknowledgement acknowledges nothing behind its TSN.
proof fn lemma_pop_acked_htna(
    s: AssociationView,
    bytes: Map<u16, u64>,
    i: u32,
    cum: u32,
    now: Instant,
)
    ensures
        pop_acked(s, bytes, i, cum, now).htna == cum,
    decreases count_upto(i, cum),
{
    if upto32(i, cum) && s.inflight_queue.popped(i) is Some {
        let (s1, bytes1) = pop_one(s, bytes, i, now);
        lemma_pop_acked_htna(s1, bytes1, i.wrapping_add(1), cum, now);
    }
}

} // verus!
