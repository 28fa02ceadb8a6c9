//! What goes out with the next packets.

use bytes::Bytes;
use std::collections::HashMap;
use std::collections::VecDeque;
use vstd::prelude::*;

use crate::association::sack::count_upto;
use crate::association::send::{data_chunks, new_data};
use crate::association::state::{AckState, AssociationState};
use crate::association::timer::Timer;
use crate::association::view::{Association, AssociationView, Owed, Receiver, Sender};
use crate::buffer::bytes_view;
use crate::chunk::kinds::{
    chunk_views, Chunk, ChunkForwardTsn, ChunkForwardTsnStream, ChunkReconfig, ChunkSelectiveAck,
    ChunkShutdown, ChunkView, ForwardTsnView, ReconfigView, SackView,
};
use crate::chunk::param::{Param, ParamOutgoingResetRequest, ParamView, ResetRequestView};
use crate::chunk::payload::{data_views, remove_chunk, ChunkPayloadData, DataView, Instant};
use crate::fx::{fx_get, fx_insert};
use crate::keys::{fx_keys32, map_keys16, sorted_keys};
use crate::packet::{packet_encode, packet_views, Packet, PacketView};
use crate::queue::payload_queue::PayloadQueueView;
use crate::util::{after32, before16, sna16lt, sna32gt, sna32lte, upto32};

verus! {

/// The bytes of packets.
pub open spec fn raw_views(v: Seq<Bytes>) -> Seq<Seq<u8>> {
    v.map_values(|b: Bytes| bytes_view(b))
}

/// Packets with one more, unless it cannot be encoded.
#[verifier::opaque]
pub open spec fn with_packet(raws: Seq<Seq<u8>>, p: PacketView) -> Seq<Seq<u8>> {
    match packet_encode(p) {
        Ok(b) => raws.push(b),
        Err(_) => raws,
    }
}

/// Packets with the first `n` of `ps` behind them, without those that cannot be encoded.
pub open spec fn with_packets(raws: Seq<Seq<u8>>, ps: Seq<PacketView>, n: int) -> Seq<Seq<u8>>
    decreases n,
{
    if n <= 0 {
        raws
    } else {
        with_packet(with_packets(raws, ps, n - 1), ps[n - 1])
    }
}

/// Encodes a packet and puts it behind the others.
fn push_packet(raws: &mut Vec<Bytes>, p: &Packet) -> (r: bool)
    ensures
        raw_views(final(raws)@) == with_packet(raw_views(old(raws)@), p@),
        r == (packet_encode(p@) is Ok),
{
    reveal(with_packet);
    match p.marshal() {
        Ok(b) => {
            let ghost bv = bytes_view(b);
            raws.push(b);
            assert(raw_views(raws@) =~= raw_views(old(raws)@).push(bv));
            true
        },
        Err(_) => false,
    }
}

/// Encodes packets and puts them behind the others.
fn push_packets(raws: &mut Vec<Bytes>, ps: &Vec<Packet>)
    ensures
        raw_views(final(raws)@) == with_packets(
            raw_views(old(raws)@),
            packet_views(ps@),
            ps@.len() as int,
        ),
{
    let mut k: usize = 0;
    while k < ps.len()
        invariant
            k <= ps.len(),
            raw_views(raws@) == with_packets(raw_views(old(raws)@), packet_views(ps@), k as int),
        decreases ps.len() - k,
    {
        assert(packet_views(ps@)[k as int] == ps@[k as int]@);
        push_packet(raws, &ps[k]);
        k += 1;
    }
}

/// The outcome of gathering: the association and the packets.
pub struct Gathered {
    pub s: AssociationView,
    pub raws: Seq<Seq<u8>>,
}

/// The RECONFIG chunk that asks the peer to reset streams.
pub open spec fn reset_request(rsn: u32, tsn: u32, ids: Seq<u16>) -> ReconfigView {
    ReconfigView {
        param_a: Some(
            ParamView::OutgoingResetRequest(
                ResetRequestView {
                    reconfig_request_sequence_number: rsn,
                    reconfig_response_sequence_number: 0,
                    sender_last_tsn: tsn,
                    stream_identifiers: ids,
                },
            ),
        ),
        param_b: None,
    }
}

/// The greatest sequence number of each stream among the chunks from `i` up to `last`, or up to
/// the first that is not in flight.
pub open spec fn skipped_streams(
    q: PayloadQueueView,
    i: u32,
    last: u32,
    m: Map<u16, u16>,
) -> Map<u16, u16>
    decreases count_upto(i, last),
{
    if !upto32(i, last) || !q.chunks.contains_key(i) {
        m
    } else {
        let c = q.chunks[i];
        let si = c.stream_identifier;
        skipped_streams(
            q,
            i.wrapping_add(1),
            last,
            if m.contains_key(si) && !before16(m[si], c.stream_sequence_number) {
                m
            } else {
                m.insert(si, c.stream_sequence_number)
            },
        )
    }
}

/// Streams with their sequence numbers, in ascending order.
pub open spec fn stream_list(m: Map<u16, u16>) -> Seq<ChunkForwardTsnStream> {
    sorted_keys(m.dom()).map_values(
        |si: u16| ChunkForwardTsnStream { identifier: si, sequence: m[si] },
    )
}

impl AssociationView {
    /// The packets that wait go out.
    pub open spec fn gather_control(self) -> Gathered {
        Gathered {
            s: AssociationView { control_queue: seq![], ..self },
            raws: with_packets(seq![], self.control_queue, self.control_queue.len() as int),
        }
    }

    /// The data that the retransmission timer calls for goes out.
    #[verifier::opaque]
    pub open spec fn gather_retransmissions(self, raws: Seq<Seq<u8>>, now: Instant) -> Gathered {
        let r = self.resending(now);
        let ps = self.bundled(r.chunks);
        Gathered { s: self.with_inflight(r.q), raws: with_packets(raws, ps, ps.len() as int) }
    }

    /// New data goes out; the retransmission timer runs then.
    #[verifier::opaque]
    pub open spec fn gather_new_data(
        self,
        chunks: Seq<DataView>,
        raws: Seq<Seq<u8>>,
        now: Instant,
    ) -> Gathered {
        if chunks.len() == 0 {
            Gathered { s: self, raws }
        } else {
            let ps = self.bundled(chunks);
            Gathered {
                s: self.with_timers(
                    self.tcb.timers.restarted_if_stale(Timer::T3RTX, now, self.tcb.rto_mgr.rto),
                ),
                raws: with_packets(raws, ps, ps.len() as int),
            }
        }
    }

    /// A RECONFIG chunk in a packet.
    pub open spec fn reconfig_packet(self, c: ReconfigView) -> PacketView {
        self.packet(seq![ChunkView::Reconfig(c)])
    }

    /// Packets with the first `n` pending RECONFIG chunks behind them.
    pub open spec fn with_reconfigs(
        self,
        raws: Seq<Seq<u8>>,
        rsns: Seq<u32>,
        n: int,
    ) -> Seq<Seq<u8>>
        decreases n,
    {
        if n <= 0 {
            raws
        } else {
            with_packet(
                self.with_reconfigs(raws, rsns, n - 1),
                self.reconfig_packet(self.reconfigs[rsns[n - 1]]),
            )
        }
    }

    /// The RECONFIG chunks that the peer did not answer go out again.
    #[verifier::opaque]
    pub open spec fn gather_old_reconfigs(self, raws: Seq<Seq<u8>>) -> Gathered {
        if !self.tcb.owed.will_retransmit_reconfig {
            Gathered { s: self, raws }
        } else {
            let rsns = sorted_keys(self.reconfigs.dom());
            Gathered {
                s: self.with_owed(Owed { will_retransmit_reconfig: false, ..self.tcb.owed }),
                raws: self.with_reconfigs(raws, rsns, rsns.len() as int),
            }
        }
    }

    /// A request to reset the streams that end goes out.
    #[verifier::opaque]
    pub open spec fn gather_new_reconfig(self, ids: Seq<u16>, raws: Seq<Seq<u8>>) -> Gathered {
        if ids.len() == 0 {
            Gathered { s: self, raws }
        } else {
            let rsn = self.tcb.tx.my_next_rsn;
            let c = reset_request(rsn, self.tcb.tx.my_next_tsn.wrapping_sub(1), ids);
            Gathered {
                s: AssociationView {
                    reconfigs: self.reconfigs.insert(rsn, c),
                    ..self.with_tx(
                        Sender {
                            my_next_rsn: rsn.wrapping_add(1),
                            ..self.tcb.tx
                        },
                    )
                },
                raws: with_packet(raws, self.reconfig_packet(c)),
            }
        }
    }

    /// The reconfiguration timer runs while a request waits for its answer.
    #[verifier::opaque]
    pub open spec fn start_reconfig_timer(self, now: Instant) -> AssociationView {
        if self.reconfigs.dom().is_empty() {
            self
        } else {
            self.with_timers(
                self.tcb.timers.started(Timer::Reconfig, now, self.tcb.rto_mgr.rto),
            )
        }
    }

    /// Requests to reset streams go out, old and new.
    #[verifier::opaque]
    pub open spec fn gather_reconfigs(
        self,
        ids: Seq<u16>,
        raws: Seq<Seq<u8>>,
        now: Instant,
    ) -> Gathered {
        if ids.len() == 0 && !self.tcb.owed.will_retransmit_reconfig {
            Gathered { s: self, raws }
        } else {
            let g1 = self.gather_old_reconfigs(raws);
            let g2 = g1.s.gather_new_reconfig(ids, g1.raws);
            Gathered { s: g2.s.start_reconfig_timer(now), raws: g2.raws }
        }
    }

    /// New data and requests to reset streams go out.
    #[verifier::opaque]
    pub open spec fn gather_data_and_reconfigs(
        self,
        raws: Seq<Seq<u8>>,
        now: Instant,
    ) -> Gathered {
        let d = new_data(self, now);
        let g = d.s.gather_new_data(d.chunks, raws, now);
        g.s.gather_reconfigs(d.resets, g.raws, now)
    }

    /// The data that was lost goes out again, in one packet.
    #[verifier::opaque]
    pub open spec fn gather_lost(self, raws: Seq<Seq<u8>>, now: Instant) -> Gathered {
        if !self.tcb.owed.will_retransmit_fast {
            Gathered { s: self, raws }
        } else {
            let s = self.with_owed(Owed { will_retransmit_fast: false, ..self.tcb.owed });
            let r = s.resending_lost(now);
            Gathered {
                s: s.lost_resent(r),
                raws: if r.chunks.len() == 0 {
                    raws
                } else {
                    with_packet(raws, s.packet(data_chunks(r.chunks)))
                },
            }
        }
    }

    /// The SACK chunk that tells what was received.
    pub open spec fn selective_ack_chunk(self) -> SackView {
        SackView {
            cumulative_tsn_ack: self.tcb.rx.peer_last_tsn,
            advertised_receiver_window_credit: self.receiver_window_credit(),
            gap_ack_blocks: self.payload_queue.gap_ack_blocks(self.tcb.rx.peer_last_tsn),
            duplicate_tsn: self.payload_queue.dup_tsn,
        }
    }

    /// The association with the duplicates reported.
    pub open spec fn duplicates_reported(self) -> AssociationView {
        AssociationView { payload_queue: self.payload_queue.pop_duplicates(), ..self }
    }

    /// An acknowledgement goes out if it is owed now.
    #[verifier::opaque]
    pub open spec fn gather_sack(self, raws: Seq<Seq<u8>>) -> Gathered {
        if self.tcb.rx.ack_state != AckState::Immediate {
            Gathered { s: self, raws }
        } else {
            let s = self.with_rx(Receiver { ack_state: AckState::Idle, ..self.tcb.rx });
            Gathered {
                s: s.duplicates_reported(),
                raws: with_packet(
                    raws,
                    s.packet(seq![ChunkView::SelectiveAck(s.selective_ack_chunk())]),
                ),
            }
        }
    }

    /// The FORWARD TSN chunk that tells what is given up.
    pub open spec fn forward_tsn_chunk(self) -> ForwardTsnView {
        ForwardTsnView {
            new_cumulative_tsn: self.tcb.tx.advanced_peer_tsn_ack_point,
            streams: stream_list(
                skipped_streams(
                    self.inflight_queue,
                    self.tcb.tx.cumulative_tsn_ack_point.wrapping_add(1),
                    self.tcb.tx.advanced_peer_tsn_ack_point,
                    Map::empty(),
                ),
            ),
        }
    }

    /// A FORWARD TSN goes out if it is owed and still tells something.
    #[verifier::opaque]
    pub open spec fn gather_forward_tsn(self, raws: Seq<Seq<u8>>) -> Gathered {
        if !self.tcb.owed.will_send_forward_tsn {
            Gathered { s: self, raws }
        } else {
            let s = self.with_owed(Owed { will_send_forward_tsn: false, ..self.tcb.owed });
            Gathered {
                s,
                raws: if after32(
                    s.tcb.tx.advanced_peer_tsn_ack_point,
                    s.tcb.tx.cumulative_tsn_ack_point,
                ) {
                    with_packet(
                        raws,
                        s.packet(seq![ChunkView::ForwardTsn(s.forward_tsn_chunk())]),
                    )
                } else {
                    raws
                },
            }
        }
    }

    /// The association with the shutdown timer running.
    pub open spec fn start_shutdown_timer(self, sent: bool, now: Instant) -> AssociationView {
        if sent {
            self.with_timers(
                self.tcb.timers.started(Timer::T2Shutdown, now, self.tcb.rto_mgr.rto),
            )
        } else {
            self
        }
    }

    /// The chunk of the shutdown sequence that goes out, if one does.
    pub open spec fn shutdown_chunk(self) -> Option<ChunkView> {
        if self.tcb.owed.will_send_shutdown {
            Some(ChunkView::Shutdown(self.tcb.tx.cumulative_tsn_ack_point))
        } else if self.tcb.owed.will_send_shutdown_ack {
            Some(ChunkView::ShutdownAck)
        } else if self.tcb.owed.will_send_shutdown_complete {
            Some(ChunkView::ShutdownComplete)
        } else {
            None
        }
    }

    /// What is owed once the chunk of the shutdown sequence went out.
    pub open spec fn shutdown_owed(self) -> Owed {
        if self.tcb.owed.will_send_shutdown {
            Owed { will_send_shutdown: false, ..self.tcb.owed }
        } else if self.tcb.owed.will_send_shutdown_ack {
            Owed { will_send_shutdown_ack: false, ..self.tcb.owed }
        } else {
            Owed { will_send_shutdown_complete: false, ..self.tcb.owed }
        }
    }

    /// A chunk of the shutdown sequence goes out if it is owed. All but the last one start the
    /// shutdown timer; after the last one, which the second value tells, the association is to
    /// be closed.
    #[verifier::opaque]
    pub open spec fn gather_shutdown(self, raws: Seq<Seq<u8>>, now: Instant) -> (Gathered, bool) {
        match self.shutdown_chunk() {
            None => (Gathered { s: self, raws }, true),
            Some(c) => {
                let s = self.with_owed(self.shutdown_owed());
                let p = s.packet(seq![c]);
                let sent = packet_encode(p) is Ok;
                (
                    Gathered {
                        s: s.start_shutdown_timer(sent && !(c is ShutdownComplete), now),
                        raws: with_packet(raws, p),
                    },
                    !(sent && c is ShutdownComplete),
                )
            },
        }
    }

    /// What goes out in the state `Established`.
    #[verifier::opaque]
    pub open spec fn gather_established(self, raws: Seq<Seq<u8>>, now: Instant) -> Gathered {
        let g1 = self.gather_retransmissions(raws, now);
        let g2 = g1.s.gather_data_and_reconfigs(g1.raws, now);
        let g3 = g2.s.gather_lost(g2.raws, now);
        let g4 = g3.s.gather_sack(g3.raws);
        g4.s.gather_forward_tsn(g4.raws)
    }

    /// What goes out while data in flight keeps a shutdown from going on.
    #[verifier::opaque]
    pub open spec fn gather_closing(self, raws: Seq<Seq<u8>>, now: Instant) -> (Gathered, bool) {
        let g1 = self.gather_retransmissions(raws, now);
        let g2 = g1.s.gather_lost(g1.raws, now);
        let g3 = g2.s.gather_sack(g2.raws);
        g3.s.gather_shutdown(g3.raws, now)
    }

    /// All that goes out. The second value is false if the association is to be closed after
    /// that.
    #[verifier::opaque]
    pub open spec fn gather_outbound(self, now: Instant) -> (Gathered, bool) {
        let g = self.gather_control();
        match self.tcb.state {
            AssociationState::Established => (g.s.gather_established(g.raws, now), true),
            AssociationState::ShutdownPending => g.s.gather_closing(g.raws, now),
            AssociationState::ShutdownSent => g.s.gather_closing(g.raws, now),
            AssociationState::ShutdownReceived => g.s.gather_closing(g.raws, now),
            AssociationState::ShutdownAckSent => g.s.gather_shutdown(g.raws, now),
            _ => (g, true),
        }
    }
}

impl Association {
    /// Takes the packets that wait.
    fn take_control_packets(&mut self) -> (r: Vec<Bytes>)
        requires
            old(self)@.wf(),
        ensures
            ({
                let g = old(self)@.gather_control();
                &&& final(self)@ == g.s
                &&& raw_views(r@) == g.raws
            }),
            final(self)@.wf(),
    {
        let mut packets: VecDeque<Packet> = VecDeque::new();
        std::mem::swap(&mut packets, &mut self.control_queue);
        assert(self@.control_queue =~= seq![]);
        let mut raws: Vec<Bytes> = Vec::new();
        assert(raw_views(raws@) =~= seq![]);
        let mut k: usize = 0;
        while k < packets.len()
            invariant
                k <= packets.len(),
                raw_views(raws@) == with_packets(seq![], packet_views(packets@), k as int),
            decreases packets.len() - k,
        {
            assert(packet_views(packets@)[k as int] == packets@[k as int]@);
            push_packet(&mut raws, &packets[k]);
            k += 1;
        }
        raws
    }

    /// Puts the data that the T3-rtx timer calls for behind the packets.
    pub fn gather_data_packets_to_retransmit(
        &mut self,
        raw_packets: Vec<Bytes>,
        now: Instant,
    ) -> (r: Vec<Bytes>)
        requires
            old(self)@.wf(),
        ensures
            ({
                let g = old(self)@.gather_retransmissions(raw_views(raw_packets@), now);
                &&& final(self)@ == g.s
                &&& raw_views(r@) == g.raws
            }),
            final(self)@.wf(),
    {
        reveal(AssociationView::gather_retransmissions);
        let mut raws = raw_packets;
        let packets = self.get_data_packets_to_retransmit(now);
        push_packets(&mut raws, &packets);
        assert(packets@.len() == packet_views(packets@).len());
        raws
    }

    /// Puts new data behind the packets.
    fn push_new_data(&mut self, chunks: Vec<ChunkPayloadData>, raws: &mut Vec<Bytes>, now: Instant)
        requires
            old(self)@.wf(),
        ensures
            ({
                let g = old(self)@.gather_new_data(
                    data_views(chunks@),
                    raw_views(old(raws)@),
                    now,
                );
                &&& final(self)@ == g.s
                &&& raw_views(final(raws)@) == g.raws
            }),
            final(self)@.wf(),
    {
        reveal(AssociationView::gather_new_data);
        assert(chunks@.len() == data_views(chunks@).len());
        if chunks.len() == 0 {
            return;
        }
        let packets = self.bundle_data_chunks_into_packets(chunks);
        push_packets(raws, &packets);
        assert(packets@.len() == packet_views(packets@).len());
        // Start timer. (noop if already started)
        let rto = self.tcb.rto_mgr.get_rto();
        self.tcb.timers.restart_if_stale(Timer::T3RTX, now, rto);
    }

    /// Puts the RECONFIG chunks that the peer did not answer behind the packets.
    fn push_reconfigs(&self, raws: &mut Vec<Bytes>)
        ensures
            ({
                let rsns = sorted_keys(self@.reconfigs.dom());
                raw_views(final(raws)@) == self@.with_reconfigs(
                    raw_views(old(raws)@),
                    rsns,
                    rsns.len() as int,
                )
            }),
    {
        broadcast use vstd::std_specs::hash::group_hash_axioms;

        let rsns = fx_keys32(&self.reconfigs);
        assert(self.reconfigs@.dom() =~= self@.reconfigs.dom());
        let mut k: usize = 0;
        while k < rsns.len()
            invariant
                k <= rsns.len(),
                rsns@.to_set() == self.reconfigs@.dom(),
                raw_views(raws@) == self@.with_reconfigs(raw_views(old(raws)@), rsns@, k as int),
            decreases rsns.len() - k,
        {
            let rsn = rsns[k];
            assert(rsns@.to_set().contains(rsn)) by {
                assert(rsns@.contains(rsns@[k as int]));
            }
            assert(self.reconfigs@.contains_key(rsn));
            if let Some(c) = fx_get(&self.reconfigs, &rsn) {
                let p = self.wrap(Chunk::Reconfig(c.clone()));
                push_packet(raws, &p);
            }
            k += 1;
        }
    }

    /// Puts the RECONFIG chunks that are to be sent again behind the packets.
    fn push_old_reconfigs(&mut self, raws: &mut Vec<Bytes>)
        requires
            old(self)@.wf(),
        ensures
            ({
                let g = old(self)@.gather_old_reconfigs(raw_views(old(raws)@));
                &&& final(self)@ == g.s
                &&& raw_views(final(raws)@) == g.raws
            }),
            final(self)@.wf(),
    {
        reveal(AssociationView::gather_old_reconfigs);
        if self.tcb.owed.will_retransmit_reconfig {
            self.push_reconfigs(raws);
            self.tcb.owed.will_retransmit_reconfig = false;
        }
    }

    /// Keeps a RECONFIG chunk for retransmission.
    pub fn store_reconfig(&mut self, rsn: u32, c: &ChunkReconfig)
        requires
            old(self)@.wf(),
        ensures
            final(self)@ == (AssociationView {
                reconfigs: old(self)@.reconfigs.insert(rsn, c@),
                ..old(self)@
            }),
            final(self)@.wf(),
    {
        broadcast use vstd::std_specs::hash::group_hash_axioms;

        let ghost m = self@.reconfigs;
        fx_insert(&mut self.reconfigs, rsn, c.clone());
        assert(self@.reconfigs =~= m.insert(rsn, c@));
    }

    /// Puts a request to reset streams behind the packets.
    fn push_new_reconfig(&mut self, ids: Vec<u16>, raws: &mut Vec<Bytes>)
        requires
            old(self)@.wf(),
        ensures
            ({
                let g = old(self)@.gather_new_reconfig(ids@, raw_views(old(raws)@));
                &&& final(self)@ == g.s
                &&& raw_views(final(raws)@) == g.raws
            }),
            final(self)@.wf(),
    {
        reveal(AssociationView::gather_new_reconfig);
        if ids.len() == 0 {
            return;
        }
        let ghost idv = ids@;
        let rsn = self.generate_next_rsn();
        let tsn = self.tcb.tx.my_next_tsn.wrapping_sub(1);
        let c = ChunkReconfig {
            param_a: Some(
                Param::OutgoingResetRequest(
                    ParamOutgoingResetRequest {
                        reconfig_request_sequence_number: rsn,
                        reconfig_response_sequence_number: 0,
                        sender_last_tsn: tsn,
                        stream_identifiers: ids,
                    },
                ),
            ),
            param_b: None,
        };
        assert(c@ == reset_request(rsn, tsn, idv));
        self.store_reconfig(rsn, &c);
        let p = self.wrap(Chunk::Reconfig(c));
        push_packet(raws, &p);
    }

    /// Starts the reconfiguration timer while a request waits for its answer.
    fn run_reconfig_timer(&mut self, now: Instant)
        requires
            old(self)@.wf(),
        ensures
            final(self)@ == old(self)@.start_reconfig_timer(now),
            final(self)@.wf(),
    {
        reveal(AssociationView::start_reconfig_timer);
        assert(self@.reconfigs.dom() =~= self.reconfigs@.dom());
        if !self.reconfigs.is_empty() {
            assert(!self.reconfigs@.dom().is_empty());
            let rto = self.tcb.rto_mgr.get_rto();
            self.tcb.timers.start(Timer::Reconfig, now, rto);
        }
    }

    /// Puts requests to reset streams behind the packets.
    fn push_all_reconfigs(&mut self, ids: Vec<u16>, raws: &mut Vec<Bytes>, now: Instant)
        requires
            old(self)@.wf(),
        ensures
            ({
                let g = old(self)@.gather_reconfigs(ids@, raw_views(old(raws)@), now);
                &&& final(self)@ == g.s
                &&& raw_views(final(raws)@) == g.raws
            }),
            final(self)@.wf(),
    {
        reveal(AssociationView::gather_reconfigs);
        if ids.len() == 0 && !self.tcb.owed.will_retransmit_reconfig {
            return;
        }
        self.push_old_reconfigs(raws);
        self.push_new_reconfig(ids, raws);
        self.run_reconfig_timer(now);
    }

    /// Puts new data, and requests to reset streams, behind the packets.
    pub fn gather_outbound_data_and_reconfig_packets(
        &mut self,
        raw_packets: Vec<Bytes>,
        now: Instant,
    ) -> (r: Vec<Bytes>)
        requires
            old(self)@.wf(),
        ensures
            ({
                let g = old(self)@.gather_data_and_reconfigs(raw_views(raw_packets@), now);
                &&& final(self)@ == g.s
                &&& raw_views(r@) == g.raws
            }),
            final(self)@.wf(),
    {
        reveal(AssociationView::gather_data_and_reconfigs);
        let mut raws = raw_packets;
        // Pop unsent data chunks from the pending queue to send as much as cwnd and rwnd allow.
        let (chunks, sis_to_reset) = self.pop_pending_data_chunks_to_send(now);
        self.push_new_data(chunks, &mut raws, now);
        self.push_all_reconfigs(sis_to_reset, &mut raws, now);
        raws
    }

    /// Puts lost data behind the packets.
    pub fn gather_outbound_fast_retransmission_packets(
        &mut self,
        raw_packets: Vec<Bytes>,
        now: Instant,
    ) -> (r: Vec<Bytes>)
        requires
            old(self)@.wf(),
        ensures
            ({
                let g = old(self)@.gather_lost(raw_views(raw_packets@), now);
                &&& final(self)@ == g.s
                &&& raw_views(r@) == g.raws
            }),
            final(self)@.wf(),
    {
        reveal(AssociationView::gather_lost);
        let mut raws = raw_packets;
        if self.tcb.owed.will_retransmit_fast {
            self.tcb.owed.will_retransmit_fast = false;
            let lost = self.get_lost_data_chunks(now);
            assert(lost@.len() == data_views(lost@).len());
            if lost.len() > 0 {
                let chunks = as_chunks(lost);
                let p = self.create_packet(chunks);
                push_packet(&mut raws, &p);
            }
        }
        raws
    }

    /// The SACK chunk that tells what was received.
    pub fn create_selective_ack_chunk(&mut self) -> (r: ChunkSelectiveAck)
        requires
            old(self)@.wf(),
        ensures
            r@ == old(self)@.selective_ack_chunk(),
            final(self)@ == old(self)@.duplicates_reported(),
            final(self)@.wf(),
    {
        let advertised_receiver_window_credit = self.get_my_receiver_window_credit();
        let gap_ack_blocks = self.payload_queue.get_gap_ack_blocks(self.tcb.rx.peer_last_tsn);
        let duplicate_tsn = self.payload_queue.pop_duplicates();
        proof {
            reveal(PayloadQueueView::wf);
        }
        ChunkSelectiveAck {
            cumulative_tsn_ack: self.tcb.rx.peer_last_tsn,
            advertised_receiver_window_credit,
            gap_ack_blocks,
            duplicate_tsn,
        }
    }

    /// Puts an acknowledgement behind the packets if it is owed now.
    pub fn gather_outbound_sack_packets(&mut self, raw_packets: Vec<Bytes>) -> (r: Vec<Bytes>)
        requires
            old(self)@.wf(),
        ensures
            ({
                let g = old(self)@.gather_sack(raw_views(raw_packets@));
                &&& final(self)@ == g.s
                &&& raw_views(r@) == g.raws
            }),
            final(self)@.wf(),
    {
        reveal(AssociationView::gather_sack);
        let mut raws = raw_packets;
        if self.tcb.rx.ack_state == AckState::Immediate {
            self.tcb.rx.ack_state = AckState::Idle;
            let sack = self.create_selective_ack_chunk();
            let p = self.wrap(Chunk::SelectiveAck(sack));
            push_packet(&mut raws, &p);
        }
        raws
    }

    /// A chunk in a packet.
    pub fn wrap(&self, c: Chunk) -> (r: Packet)
        ensures
            r@ == self@.packet(seq![c@]),
    {
        let ghost cv = c@;
        let mut chunks: Vec<Chunk> = Vec::new();
        chunks.push(c);
        assert(chunk_views(chunks@) =~= seq![cv]);
        self.create_packet(chunks)
    }

    /// The FORWARD TSN chunk that tells what is given up.
    pub fn create_forward_tsn(&self) -> (r: ChunkForwardTsn)
        requires
            self@.wf(),
        ensures
            r@ == self@.forward_tsn_chunk(),
    {
        broadcast use vstd::std_specs::hash::group_hash_axioms;

        let last = self.tcb.tx.advanced_peer_tsn_ack_point;
        let ghost q = self@.inflight_queue;
        // To report only once per stream, with the greatest sequence number.
        let mut stream_map: HashMap<u16, u16> = HashMap::new();
        let mut i: u32 = self.tcb.tx.cumulative_tsn_ack_point.wrapping_add(1);
        let ghost want = skipped_streams(q, i, last, Map::empty());
        while sna32lte(i, last)
            invariant_except_break
                q == self@.inflight_queue,
                want == skipped_streams(q, i, last, stream_map@),
            ensures
                want == stream_map@,
            decreases count_upto(i, last),
        {
            match self.inflight_queue.get(i) {
                Some(c) => {
                    let newer = match stream_map.get(&c.stream_identifier) {
                        Some(ssn) => sna16lt(*ssn, c.stream_sequence_number),
                        None => true,
                    };
                    if newer {
                        stream_map.insert(c.stream_identifier, c.stream_sequence_number);
                    }
                },
                None => {
                    break;
                },
            }
            i = i.wrapping_add(1);
        }
        let streams = list_streams(&stream_map);
        ChunkForwardTsn { new_cumulative_tsn: last, streams }
    }

    /// Puts a FORWARD TSN behind the packets if it is owed.
    pub fn gather_outbound_forward_tsn_packets(&mut self, raw_packets: Vec<Bytes>) -> (r: Vec<
        Bytes,
    >)
        requires
            old(self)@.wf(),
        ensures
            ({
                let g = old(self)@.gather_forward_tsn(raw_views(raw_packets@));
                &&& final(self)@ == g.s
                &&& raw_views(r@) == g.raws
            }),
            final(self)@.wf(),
    {
        reveal(AssociationView::gather_forward_tsn);
        let mut raws = raw_packets;
        if self.tcb.owed.will_send_forward_tsn {
            self.tcb.owed.will_send_forward_tsn = false;
            if sna32gt(
                self.tcb.tx.advanced_peer_tsn_ack_point,
                self.tcb.tx.cumulative_tsn_ack_point,
            ) {
                let fwd_tsn = self.create_forward_tsn();
                let p = self.wrap(Chunk::ForwardTsn(fwd_tsn));
                push_packet(&mut raws, &p);
            }
        }
        raws
    }

    /// Puts a chunk of the shutdown sequence behind the packets if it is owed; false if the
    /// association is to be closed after that.
    #[verifier::rlimit(40)]
    pub fn gather_outbound_shutdown_packets(
        &mut self,
        raw_packets: Vec<Bytes>,
        now: Instant,
    ) -> (r: (Vec<Bytes>, bool))
        requires
            old(self)@.wf(),
        ensures
            ({
                let (g, ok) = old(self)@.gather_shutdown(raw_views(raw_packets@), now);
                &&& final(self)@ == g.s
                &&& raw_views(r.0@) == g.raws
                &&& r.1 == ok
            }),
            final(self)@.wf(),
    {
        reveal(AssociationView::gather_shutdown);
        let mut raws = raw_packets;
        let mut ok = true;
        if self.tcb.owed.will_send_shutdown {
            self.tcb.owed.will_send_shutdown = false;
            let shutdown = ChunkShutdown {
                cumulative_tsn_ack: self.tcb.tx.cumulative_tsn_ack_point,
            };
            let p = self.wrap(Chunk::Shutdown(shutdown));
            if push_packet(&mut raws, &p) {
                self.run_shutdown_timer(now);
            }
        } else if self.tcb.owed.will_send_shutdown_ack {
            self.tcb.owed.will_send_shutdown_ack = false;
            let p = self.wrap(Chunk::ShutdownAck);
            if push_packet(&mut raws, &p) {
                self.run_shutdown_timer(now);
            }
        } else if self.tcb.owed.will_send_shutdown_complete {
            self.tcb.owed.will_send_shutdown_complete = false;
            let p = self.wrap(Chunk::ShutdownComplete);
            if push_packet(&mut raws, &p) {
                ok = false;
            }
        }
        (raws, ok)
    }

    /// Starts the shutdown timer.
    fn run_shutdown_timer(&mut self, now: Instant)
        requires
            old(self)@.wf(),
        ensures
            final(self)@ == old(self)@.start_shutdown_timer(true, now),
            final(self)@.wf(),
    {
        let rto = self.tcb.rto_mgr.get_rto();
        self.tcb.timers.start(Timer::T2Shutdown, now, rto);
    }

    /// Gathers what goes out in the state `Established`.
    fn gather_in_established(&mut self, raw_packets: Vec<Bytes>, now: Instant) -> (r: Vec<Bytes>)
        requires
            old(self)@.wf(),
        ensures
            ({
                let g = old(self)@.gather_established(raw_views(raw_packets@), now);
                &&& final(self)@ == g.s
                &&& raw_views(r@) == g.raws
            }),
            final(self)@.wf(),
    {
        reveal(AssociationView::gather_established);
        let raws = self.gather_data_packets_to_retransmit(raw_packets, now);
        let raws = self.gather_outbound_data_and_reconfig_packets(raws, now);
        let raws = self.gather_outbound_fast_retransmission_packets(raws, now);
        let raws = self.gather_outbound_sack_packets(raws);
        self.gather_outbound_forward_tsn_packets(raws)
    }

    /// Gathers what goes out while data in flight keeps a shutdown from going on.
    fn gather_while_closing(&mut self, raw_packets: Vec<Bytes>, now: Instant) -> (r: (
        Vec<Bytes>,
        bool,
    ))
        requires
            old(self)@.wf(),
        ensures
            ({
                let (g, ok) = old(self)@.gather_closing(raw_views(raw_packets@), now);
                &&& final(self)@ == g.s
                &&& raw_views(r.0@) == g.raws
                &&& r.1 == ok
            }),
            final(self)@.wf(),
    {
        reveal(AssociationView::gather_closing);
        let raws = self.gather_data_packets_to_retransmit(raw_packets, now);
        let raws = self.gather_outbound_fast_retransmission_packets(raws, now);
        let raws = self.gather_outbound_sack_packets(raws);
        self.gather_outbound_shutdown_packets(raws, now)
    }

    /// Gathers outgoing packets. The returned bool value set to false means the association
    /// should be closed down after the final send.
    pub fn gather_outbound(&mut self, now: Instant) -> (r: (Vec<Bytes>, bool))
        requires
            old(self)@.wf(),
        ensures
            ({
                let (g, ok) = old(self)@.gather_outbound(now);
                &&& final(self)@ == g.s
                &&& raw_views(r.0@) == g.raws
                &&& r.1 == ok
            }),
            final(self)@.wf(),
    {
        reveal(AssociationView::gather_outbound);
        let raw_packets = self.take_control_packets();
        match self.tcb.state {
            AssociationState::Established => {
                (self.gather_in_established(raw_packets, now), true)
            },
            AssociationState::ShutdownPending => self.gather_while_closing(raw_packets, now),
            AssociationState::ShutdownSent => self.gather_while_closing(raw_packets, now),
            AssociationState::ShutdownReceived => self.gather_while_closing(raw_packets, now),
            AssociationState::ShutdownAckSent => {
                self.gather_outbound_shutdown_packets(raw_packets, now)
            },
            _ => (raw_packets, true),
        }
    }
}

/// DATA chunks as chunks of a packet.
fn as_chunks(cs: Vec<ChunkPayloadData>) -> (r: Vec<Chunk>)
    ensures
        chunk_views(r@) == data_chunks(data_views(cs@)),
{
    let ghost all = data_views(cs@);
    let mut r: Vec<Chunk> = Vec::new();
    let mut rest = cs;
    let n = rest.len();
    let mut i: usize = 0;
    assert(chunk_views(r@) =~= data_chunks(all.take(0)));
    assert(all.skip(0) =~= all);
    while i < n
        invariant
            i <= n,
            n == all.len(),
            rest.len() == n - i,
            data_views(rest@) == all.skip(i as int),
            chunk_views(r@) == data_chunks(all.take(i as int)),
        decreases n - i,
    {
        let c = remove_chunk(&mut rest, 0);
        let ghost cv = c@;
        assert(cv == all[i as int]);
        assert(data_views(rest@) =~= all.skip(i + 1));
        let ghost before = chunk_views(r@);
        r.push(Chunk::PayloadData(c));
        assert(chunk_views(r@) =~= before.push(ChunkView::PayloadData(cv)));
        assert(chunk_views(r@) =~= data_chunks(all.take(i + 1)));
        i += 1;
    }
    assert(all.take(i as int) =~= all);
    r
}

/// Streams with their sequence numbers, in ascending order.
fn list_streams(m: &HashMap<u16, u16>) -> (r: Vec<ChunkForwardTsnStream>)
    ensures
        r@ == stream_list(m@),
{
    broadcast use vstd::std_specs::hash::group_hash_axioms;

    let ids = map_keys16(m);
    let mut r: Vec<ChunkForwardTsnStream> = Vec::new();
    let mut k: usize = 0;
    while k < ids.len()
        invariant
            k <= ids.len(),
            ids@.to_set() == m@.dom(),
            r@ == ids@.take(k as int).map_values(
                |si: u16| ChunkForwardTsnStream { identifier: si, sequence: m@[si] },
            ),
        decreases ids.len() - k,
    {
        let si = ids[k];
        assert(ids@.to_set().contains(si)) by {
            assert(ids@.contains(ids@[k as int]));
        }
        assert(m@.contains_key(si));
        if let Some(ssn) = m.get(&si) {
            r.push(ChunkForwardTsnStream { identifier: si, sequence: *ssn });
        }
        assert(r@ =~= ids@.take(k + 1).map_values(
            |si: u16| ChunkForwardTsnStream { identifier: si, sequence: m@[si] },
        ));
        k += 1;
    }
    assert(ids@.take(k as int) =~= ids@);
    r
}

} // verus!
