//! Which DATA chunks are sent again: after the retransmission timer expired, and fast after
//! they were reported missing.

use fxhash::FxHashMap;
use vstd::prelude::*;

use crate::association::sack::min32;
use crate::association::send::{data_size, judged, lemma_judged};
use crate::association::stats::AssociationStats;
use crate::association::stream::{StreamState, StreamView};
use crate::association::view::{stream_views, Association, AssociationView, Tcb};
use crate::buffer::bytes_len;
use crate::chunk::payload::{data_views, ChunkPayloadData, DataView, Instant};
use crate::config::{COMMON_HEADER_SIZE, DATA_CHUNK_HEADER_SIZE};
use crate::packet::{packet_views, Packet};
use crate::queue::payload_queue::{lemma_set_wf, PayloadQueue, PayloadQueueView};
use crate::util::{get_padding_size, low32, trunc32};

verus! {

/// What decides about sending again, and does not change while that is decided.
pub struct Conditions {
    pub now: Instant,
    pub use_forward_tsn: bool,
    pub streams: Map<u16, StreamView>,
}

/// The peer's window, and the lesser of it and the congestion window.
pub struct Windows {
    pub rwnd: u32,
    pub awnd: u32,
}

/// The outcome of sending again: the chunks in flight, and those of them that are sent.
#[verifier::ext_equal]
pub struct Resending {
    pub q: PayloadQueueView,
    pub chunks: Seq<DataView>,
}

/// A chunk as it is sent again.
#[verifier::opaque]
pub open spec fn resent(
    c: DataView,
    now: Instant,
    use_forward_tsn: bool,
    streams: Map<u16, StreamView>,
) -> DataView {
    judged(
        DataView { retransmit: false, nsent: c.nsent.wrapping_add(1), ..c },
        now,
        use_forward_tsn,
        streams,
    )
}

/// A chunk as it is sent again fast: it may still wait to be retransmitted.
#[verifier::opaque]
pub open spec fn resent_fast(
    c: DataView,
    now: Instant,
    use_forward_tsn: bool,
    streams: Map<u16, StreamView>,
) -> DataView {
    judged(
        DataView { nsent: c.nsent.wrapping_add(1), ..c },
        now,
        use_forward_tsn,
        streams,
    )
}

impl Conditions {
    /// A chunk as it is sent again.
    pub open spec fn resent(self, c: DataView) -> DataView {
        resent(c, self.now, self.use_forward_tsn, self.streams)
    }

    /// A chunk as it is sent again fast.
    pub open spec fn resent_fast(self, c: DataView) -> DataView {
        resent_fast(c, self.now, self.use_forward_tsn, self.streams)
    }
}

/// Whether a chunk is to be sent again: it is marked, and neither acknowledged nor given up.
pub open spec fn is_due(c: DataView) -> bool {
    c.retransmit && !c.acked && !c.given_up()
}

/// Sends again what is due, from `tsn` on, up to the first TSN that is not in flight and as
/// far as the windows allow beside the `sent` bytes. The first chunk in flight may be sent though
/// the peer's window is too small, then alone. `n` is the number of TSNs that are looked at, at
/// most.
pub open spec fn resend(
    w: Conditions,
    win: Windows,
    q: PayloadQueueView,
    chunks: Seq<DataView>,
    tsn: u32,
    is_first: bool,
    sent: nat,
    n: nat,
) -> Resending
    decreases n,
{
    if n == 0 || !q.chunks.contains_key(tsn) {
        Resending { q, chunks }
    } else {
        let c = q.chunks[tsn];
        let next = tsn.wrapping_add(1);
        if !is_due(c) {
            resend(w, win, q, chunks, next, false, sent, (n - 1) as nat)
        } else if is_first && win.rwnd < low32(c.user_data.len() as int) {
            Resending { q: q.set(tsn, w.resent(c)), chunks: chunks.push(w.resent(c)) }
        } else if sent + c.user_data.len() > win.awnd {
            Resending { q, chunks }
        } else {
            resend(
                w,
                win,
                q.set(tsn, w.resent(c)),
                chunks.push(w.resent(c)),
                next,
                false,
                sent + c.user_data.len(),
                (n - 1) as nat,
            )
        }
    }
}

/// Whether a chunk is to be sent again fast: it was reported missing three times and sent once.
pub open spec fn is_lost(c: DataView) -> bool {
    !(c.acked || c.given_up() || c.nsent > 1 || c.miss_indicator < 3)
}

/// Sends again what was lost, from `tsn` on, up to the first TSN that is not in flight, as much as
/// fits into a packet with `size` bytes already. `n` is the number of TSNs that are looked at, at
/// most.
pub open spec fn resend_lost(
    w: Conditions,
    mtu: u32,
    q: PayloadQueueView,
    chunks: Seq<DataView>,
    tsn: u32,
    size: int,
    n: nat,
) -> Resending
    decreases n,
{
    if n == 0 || !q.chunks.contains_key(tsn) {
        Resending { q, chunks }
    } else {
        let c = q.chunks[tsn];
        let next = tsn.wrapping_add(1);
        if !is_lost(c) {
            resend_lost(w, mtu, q, chunks, next, size, (n - 1) as nat)
        } else if mtu < size + data_size(c) {
            Resending { q, chunks }
        } else {
            resend_lost(
                w,
                mtu,
                q.set(tsn, w.resent_fast(c)),
                chunks.push(w.resent_fast(c)),
                next,
                size + data_size(c),
                (n - 1) as nat,
            )
        }
    }
}

/// A count increased `n` times.
pub open spec fn counted_up(x: u64, n: nat) -> u64 {
    x.wrapping_add((n % 0x1_0000_0000_0000_0000) as u64)
}

impl AssociationView {
    /// What decides about sending again.
    pub open spec fn conditions(self, now: Instant) -> Conditions {
        Conditions {
            now,
            use_forward_tsn: self.tcb.peer.use_forward_tsn,
            streams: self.streams,
        }
    }

    /// What is sent again after the retransmission timer expired.
    pub open spec fn resending(self, now: Instant) -> Resending {
        resend(
            self.conditions(now),
            Windows {
                rwnd: self.tcb.cc.rwnd,
                awnd: min32(self.tcb.cc.cwnd, self.tcb.cc.rwnd),
            },
            self.inflight_queue,
            seq![],
            self.tcb.tx.cumulative_tsn_ack_point.wrapping_add(1),
            true,
            0,
            self.inflight_queue.chunks.dom().len(),
        )
    }

    /// What is sent again fast.
    pub open spec fn resending_lost(self, now: Instant) -> Resending {
        resend_lost(
            self.conditions(now),
            self.tcb.conf.mtu,
            self.inflight_queue,
            seq![],
            self.tcb.tx.cumulative_tsn_ack_point.wrapping_add(1),
            12,
            self.inflight_queue.chunks.dom().len(),
        )
    }

    /// The association with other chunks in flight.
    pub open spec fn with_inflight(self, inflight_queue: PayloadQueueView) -> AssociationView {
        AssociationView { inflight_queue, ..self }
    }

    /// The association after the lost chunks were sent again fast.
    pub open spec fn lost_resent(self, r: Resending) -> AssociationView {
        self.with_inflight(r.q).with(
            Tcb {
                stats: AssociationStats {
                    n_fast_retrans: counted_up(self.tcb.stats.n_fast_retrans, r.chunks.len()),
                    ..self.tcb.stats
                },
                ..self.tcb
            },
        )
    }
}

/// Sends the chunk with this TSN again.
fn resend_chunk(
    q: &mut PayloadQueue,
    tsn: u32,
    now: Instant,
    use_forward_tsn: bool,
    streams: &FxHashMap<u16, StreamState>,
) -> (r: ChunkPayloadData)
    requires
        old(q)@.wf(),
        old(q)@.chunks.contains_key(tsn),
    ensures
        r@ == resent(old(q)@.chunks[tsn], now, use_forward_tsn, stream_views(streams@)),
        final(q)@ == old(q)@.set(tsn, r@),
        final(q)@.wf(),
        final(q)@.chunks.dom() == old(q)@.chunks.dom(),
{
    let ghost qv = q@;
    match q.get_mut(tsn) {
        Some(c) => {
            // Not to be retransmitted again before the next T3-rtx timer fires.
            c.retransmit = false;
            c.nsent = c.nsent.wrapping_add(1);
            proof {
                lemma_judged(c@, now, use_forward_tsn, stream_views(streams@));
            }
            Association::check_partial_reliability_status(c, now, use_forward_tsn, streams);
            proof {
                reveal(resent);
                lemma_set_wf(qv, tsn, c@);
                assert(qv.set(tsn, c@).chunks.dom() =~= qv.chunks.dom());
            }
            c.clone()
        },
        None => {
            assert(false);
            ChunkPayloadData::default()
        },
    }
}

/// Sends the chunk with this TSN again fast.
fn resend_chunk_fast(
    q: &mut PayloadQueue,
    tsn: u32,
    now: Instant,
    use_forward_tsn: bool,
    streams: &FxHashMap<u16, StreamState>,
) -> (r: ChunkPayloadData)
    requires
        old(q)@.wf(),
        old(q)@.chunks.contains_key(tsn),
    ensures
        r@ == resent_fast(old(q)@.chunks[tsn], now, use_forward_tsn, stream_views(streams@)),
        final(q)@ == old(q)@.set(tsn, r@),
        final(q)@.wf(),
        final(q)@.chunks.dom() == old(q)@.chunks.dom(),
{
    let ghost qv = q@;
    match q.get_mut(tsn) {
        Some(c) => {
            c.nsent = c.nsent.wrapping_add(1);
            proof {
                lemma_judged(c@, now, use_forward_tsn, stream_views(streams@));
            }
            Association::check_partial_reliability_status(c, now, use_forward_tsn, streams);
            proof {
                reveal(resent_fast);
                lemma_set_wf(qv, tsn, c@);
                assert(qv.set(tsn, c@).chunks.dom() =~= qv.chunks.dom());
            }
            c.clone()
        },
        None => {
            assert(false);
            ChunkPayloadData::default()
        },
    }
}

/// Puts a chunk behind others.
fn push_chunk(chunks: &mut Vec<ChunkPayloadData>, c: ChunkPayloadData)
    ensures
        data_views(final(chunks)@) == data_views(old(chunks)@).push(c@),
{
    let ghost cv = c@;
    chunks.push(c);
    assert(data_views(chunks@) =~= data_views(old(chunks)@).push(cv));
}

/// Whether a chunk is to be sent again.
fn chunk_is_due(c: &ChunkPayloadData) -> (r: bool)
    ensures
        r == is_due(c@),
{
    c.retransmit && !c.acked && !c.abandoned()
}

/// Sends again what is due.
fn resend_marked(
    q: &mut PayloadQueue,
    first_tsn: u32,
    now: Instant,
    use_forward_tsn: bool,
    streams: &FxHashMap<u16, StreamState>,
    rwnd: u32,
    awnd: u32,
) -> (r: Vec<ChunkPayloadData>)
    requires
        old(q)@.wf(),
    ensures
        ({
            let want = resend(
                Conditions { now, use_forward_tsn, streams: stream_views(streams@) },
                Windows { rwnd, awnd },
                old(q)@,
                seq![],
                first_tsn,
                true,
                0,
                old(q)@.chunks.dom().len(),
            );
            &&& final(q)@ == want.q
            &&& data_views(r@) == want.chunks
        }),
        final(q)@.wf(),
        final(q)@.n_bytes == old(q)@.n_bytes,
{
    let ghost w = Conditions { now, use_forward_tsn, streams: stream_views(streams@) };
    let ghost win = Windows { rwnd, awnd };
    let mut chunks: Vec<ChunkPayloadData> = Vec::new();
    let n = q.len();
    let mut left: usize = n;
    let mut tsn: u32 = first_tsn;
    let mut bytes_to_send: usize = 0;
    assert(data_views(chunks@) =~= seq![]);
    let ghost want = resend(w, win, q@, seq![], first_tsn, true, 0, n as nat);
    while left > 0
        invariant
            left <= n,
            q@.wf(),
            q@.n_bytes == old(q)@.n_bytes,
            n == old(q)@.chunks.dom().len(),
            bytes_to_send <= awnd,
            w == (Conditions { now, use_forward_tsn, streams: stream_views(streams@) }),
            win == (Windows { rwnd, awnd }),
            want == resend(w, win, old(q)@, seq![], first_tsn, true, 0, n as nat),
            want == resend(
                w,
                win,
                q@,
                data_views(chunks@),
                tsn,
                left == n,
                bytes_to_send as nat,
                left as nat,
            ),
        decreases left,
    {
        let (due, len) = match q.get(tsn) {
            Some(c) => (chunk_is_due(c), bytes_len(&c.user_data)),
            None => {
                return chunks;
            },
        };
        if due {
            if left == n && rwnd < trunc32(len) {
                // Send it as a zero window probe
                let c = resend_chunk(q, tsn, now, use_forward_tsn, streams);
                push_chunk(&mut chunks, c);
                return chunks;
            }
            if len > (awnd as usize) - bytes_to_send {
                return chunks;
            }
            let c = resend_chunk(q, tsn, now, use_forward_tsn, streams);
            push_chunk(&mut chunks, c);
            bytes_to_send = bytes_to_send + len;
        }
        tsn = tsn.wrapping_add(1);
        left -= 1;
    }
    chunks
}

/// Whether a chunk is to be sent again fast.
fn chunk_is_lost(c: &ChunkPayloadData) -> (r: bool)
    ensures
        r == is_lost(c@),
{
    !(c.acked || c.abandoned() || c.nsent > 1 || c.miss_indicator < 3)
}

/// Sends again what was lost, as much as fits into a packet.
fn resend_missing(
    q: &mut PayloadQueue,
    first_tsn: u32,
    now: Instant,
    use_forward_tsn: bool,
    streams: &FxHashMap<u16, StreamState>,
    mtu: u32,
    stats: &mut AssociationStats,
) -> (r: Vec<ChunkPayloadData>)
    requires
        old(q)@.wf(),
    ensures
        ({
            let want = resend_lost(
                Conditions { now, use_forward_tsn, streams: stream_views(streams@) },
                mtu,
                old(q)@,
                seq![],
                first_tsn,
                12,
                old(q)@.chunks.dom().len(),
            );
            &&& final(q)@ == want.q
            &&& data_views(r@) == want.chunks
        }),
        *final(stats) == (AssociationStats {
            n_fast_retrans: counted_up(old(stats).n_fast_retrans, r@.len()),
            ..*old(stats)
        }),
        final(q)@.wf(),
        final(q)@.n_bytes == old(q)@.n_bytes,
{
    let ghost w = Conditions { now, use_forward_tsn, streams: stream_views(streams@) };
    let mut chunks: Vec<ChunkPayloadData> = Vec::new();
    let n = q.len();
    let mut left: usize = n;
    let mut tsn: u32 = first_tsn;
    let mut fast_retrans_size: u128 = COMMON_HEADER_SIZE as u128;
    assert(data_views(chunks@) =~= seq![]);
    let ghost want = resend_lost(w, mtu, q@, seq![], first_tsn, 12, n as nat);
    while left > 0
        invariant
            left <= n,
            q@.wf(),
            q@.n_bytes == old(q)@.n_bytes,
            n == old(q)@.chunks.dom().len(),
            fast_retrans_size <= 0x1_0000_0000,
            *stats == (AssociationStats {
                n_fast_retrans: counted_up(old(stats).n_fast_retrans, chunks@.len()),
                ..*old(stats)
            }),
            w == (Conditions { now, use_forward_tsn, streams: stream_views(streams@) }),
            want == resend_lost(w, mtu, old(q)@, seq![], first_tsn, 12, n as nat),
            want == resend_lost(
                w,
                mtu,
                q@,
                data_views(chunks@),
                tsn,
                fast_retrans_size as int,
                left as nat,
            ),
        decreases left,
    {
        let (lost, len) = match q.get(tsn) {
            Some(c) => (chunk_is_lost(c), bytes_len(&c.user_data)),
            None => {
                return chunks;
            },
        };
        if lost {
            // As many of the earliest chunks as fit into a single packet are retransmitted,
            // whatever the congestion window is.
            let size: u128 = (DATA_CHUNK_HEADER_SIZE as u128) + (len as u128) + (get_padding_size(
                len,
            ) as u128);
            if (mtu as u128) < fast_retrans_size + size {
                return chunks;
            }
            fast_retrans_size = fast_retrans_size + size;
            stats.inc_fast_retrans();
            let c = resend_chunk_fast(q, tsn, now, use_forward_tsn, streams);
            let ghost k = chunks@.len();
            push_chunk(&mut chunks, c);
            assert(chunks@.len() == data_views(chunks@).len() == k + 1);
        }
        tsn = tsn.wrapping_add(1);
        left -= 1;
    }
    chunks
}

impl Association {
    /// Takes the chunks that are to be sent again after the T3-rtx timer expired, in packets.
    pub fn get_data_packets_to_retransmit(&mut self, now: Instant) -> (r: Vec<Packet>)
        requires
            old(self)@.wf(),
        ensures
            ({
                let want = old(self)@.resending(now);
                &&& final(self)@ == old(self)@.with_inflight(want.q)
                &&& packet_views(r@) == old(self)@.bundled(want.chunks)
            }),
            final(self)@.wf(),
    {
        let rwnd = self.tcb.cc.rwnd;
        let awnd = if self.tcb.cc.cwnd <= rwnd {
            self.tcb.cc.cwnd
        } else {
            rwnd
        };
        let first_tsn = self.tcb.tx.cumulative_tsn_ack_point.wrapping_add(1);
        let chunks = resend_marked(
            &mut self.inflight_queue,
            first_tsn,
            now,
            self.tcb.peer.use_forward_tsn,
            &self.streams,
            rwnd,
            awnd,
        );
        self.bundle_data_chunks_into_packets(chunks)
    }

    /// Takes the chunks that are to be sent again fast.
    pub fn get_lost_data_chunks(&mut self, now: Instant) -> (r: Vec<ChunkPayloadData>)
        requires
            old(self)@.wf(),
        ensures
            ({
                let want = old(self)@.resending_lost(now);
                &&& final(self)@ == old(self)@.lost_resent(want)
                &&& data_views(r@) == want.chunks
            }),
            final(self)@.wf(),
    {
        let first_tsn = self.tcb.tx.cumulative_tsn_ack_point.wrapping_add(1);
        let r = resend_missing(
            &mut self.inflight_queue,
            first_tsn,
            now,
            self.tcb.peer.use_forward_tsn,
            &self.streams,
            self.tcb.conf.mtu,
            &mut self.tcb.stats,
        );
        assert(r@.len() == data_views(r@).len());
        r
    }
}

} // verus!
