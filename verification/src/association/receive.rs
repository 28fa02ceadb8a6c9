//! What DATA and FORWARD TSN chunks and requests to reset streams do.

use vstd::prelude::*;

use crate::association::handshake::{no_reply, one_packet};
use crate::association::state::{AckMode, AckState};
use crate::association::stats::AssociationStats;
use crate::association::stream::{StreamEvent, StreamId, StreamView};
use crate::association::timer::Timer;
use crate::association::view::{
    no_packets, refused, reply_view, Association, AssociationView, Event, Receiver, ReplyView,
    Sender, Tcb,
};
use crate::buffer::bytes_new;
use crate::chunk::kinds::{
    opt_param_view, Chunk, ChunkError, ChunkForwardTsn, ChunkForwardTsnStream, ChunkReconfig,
    ChunkView, ForwardTsnView, ReconfigView, UNRECOGNIZED_CHUNK_TYPE,
};
use crate::chunk::param::{
    Param, ParamOutgoingResetRequest, ParamReconfigResponse, ParamView, ReconfigResult,
    ResetRequestView,
};
use crate::chunk::payload::{ChunkPayloadData, DataView};
use crate::chunk::tlv::{tlv_views, Tlv, TlvView};
use crate::error::Error;
use crate::fx::{fx_contains_key, fx_get, fx_insert, fx_remove};
use crate::keys::{lemma_ascending_distinct, fx_keys16, fx_keys32, sorted_keys};
use crate::packet::{packet_views, Packet, PacketView};
use crate::queue::payload_queue::{lemma_pop_wf, PayloadQueueView};
use crate::util::{before32, fwd32, sna32lt, sna32lte, upto32};

verus! {

/// The numbers among `ids` of streams that are open, each once, in their order.
pub open spec fn open_ids(streams: Map<u16, StreamView>, ids: Seq<u16>) -> Seq<u16>
    decreases ids.len(),
{
    if ids.len() == 0 {
        seq![]
    } else {
        let before = open_ids(streams, ids.drop_last());
        if streams.contains_key(ids.last()) && !ids.drop_last().contains(ids.last()) {
            before.push(ids.last())
        } else {
            before
        }
    }
}

/// The RECONFIG chunk that answers a request.
pub open spec fn reset_response(rsn: u32, result: ReconfigResult) -> ReconfigView {
    ReconfigView {
        param_a: Some(
            ParamView::ReconfigResponse(
                ParamReconfigResponse { reconfig_response_sequence_number: rsn, result },
            ),
        ),
        param_b: None,
    }
}

/// The RECONFIG chunk that resets streams along with the peer.
pub open spec fn reset_along(rsn: u32, answered: u32, tsn: u32, ids: Seq<u16>) -> ReconfigView {
    ReconfigView {
        param_a: Some(
            ParamView::OutgoingResetRequest(
                ResetRequestView {
                    reconfig_request_sequence_number: rsn,
                    reconfig_response_sequence_number: answered,
                    sender_last_tsn: tsn,
                    stream_identifiers: ids,
                },
            ),
        ),
        param_b: None,
    }
}

/// Whether an acknowledgement may wait.
pub open spec fn may_delay(t: Tcb, sack_immediately: bool, has_packet_loss: bool) -> bool {
    (t.rx.ack_state != AckState::Immediate && !sack_immediately && !has_packet_loss
        && t.conf.ack_mode == AckMode::Normal) || t.conf.ack_mode == AckMode::AlwaysDelay
}

/// What a packet calls for: an acknowledgement that may wait is delayed once, any other is sent
/// with the next packets.
#[verifier::opaque]
pub open spec fn ack_called_for(t: Tcb, sack_immediately: bool, has_packet_loss: bool) -> Tcb {
    if may_delay(t, sack_immediately, has_packet_loss) && t.rx.ack_state == AckState::Idle {
        Tcb { rx: Receiver { delayed_ack_triggered: true, ..t.rx }, ..t }
    } else {
        Tcb { rx: Receiver { immediate_ack_triggered: true, ..t.rx }, ..t }
    }
}

/// The chunks behind `last` are skipped up to `cum`.
pub open spec fn skip_upto(q: PayloadQueueView, last: u32, cum: u32) -> PayloadQueueView
    decreases fwd32(last, cum),
{
    if before32(last, cum) {
        skip_upto(q.pop(last.wrapping_add(1)), last.wrapping_add(1), cum)
    } else {
        q
    }
}

/// The last TSN after the data up to `cum` was skipped.
pub open spec fn skipped_last(last: u32, cum: u32) -> u32 {
    if before32(last, cum) {
        cum
    } else {
        last
    }
}

/// The streams with the ordered messages of the first `n` entries skipped.
pub open spec fn forward_streams(
    streams: Map<u16, StreamView>,
    list: Seq<ChunkForwardTsnStream>,
    n: int,
) -> Map<u16, StreamView>
    decreases n,
{
    if n <= 0 {
        streams
    } else {
        let m = forward_streams(streams, list, n - 1);
        let f = list[n - 1];
        if m.contains_key(f.identifier) {
            m.insert(f.identifier, m[f.identifier].forward_ordered(f.sequence))
        } else {
            m
        }
    }
}

/// The streams with unordered messages up to `tsn` skipped.
pub open spec fn forward_unordered(streams: Map<u16, StreamView>, tsn: u32) -> Map<
    u16,
    StreamView,
> {
    streams.map_values(|s: StreamView| s.forward_unordered(tsn))
}

/// The error cause for a chunk type that is not known.
pub open spec fn unrecognized_chunk_type() -> TlvView {
    TlvView { typ: UNRECOGNIZED_CHUNK_TYPE, value: seq![] }
}

/// The outcome of a step that puts packets behind an answer.
pub struct Replied {
    pub s: AssociationView,
    pub reply: Seq<PacketView>,
}

impl AssociationView {
    /// The association with the streams of a request reset.
    #[verifier::opaque]
    pub open spec fn streams_reset(self, p: ResetRequestView) -> AssociationView {
        AssociationView {
            streams: self.streams.remove_keys(p.stream_identifiers.to_set()),
            reconfig_requests: self.reconfig_requests.remove(p.reconfig_request_sequence_number),
            ..self
        }
    }

    /// The same streams are reset in the other direction, with a request that also waits for its
    /// answer.
    #[verifier::opaque]
    pub open spec fn reset_along(
        self,
        p: ResetRequestView,
        ids: Seq<u16>,
        reply: Seq<PacketView>,
    ) -> Replied {
        if ids.len() == 0 {
            Replied { s: self, reply }
        } else {
            let rsn = self.tcb.tx.my_next_rsn;
            let c = reset_along(
                rsn,
                p.reconfig_request_sequence_number,
                self.tcb.tx.my_next_tsn.wrapping_sub(1),
                ids,
            );
            Replied {
                s: AssociationView {
                    reconfigs: self.reconfigs.insert(rsn, c),
                    ..self.with_tx(Sender { my_next_rsn: rsn.wrapping_add(1), ..self.tcb.tx })
                },
                reply: reply.push(self.reconfig_packet(c)),
            }
        }
    }

    /// A request of the peer to reset streams: performed once all data before it was received,
    /// else put off, and answered either way. With `respond` the streams are reset in the other
    /// direction too.
    #[verifier::opaque]
    pub open spec fn reset_streams(
        self,
        p: ResetRequestView,
        respond: bool,
        reply: Seq<PacketView>,
    ) -> Replied {
        if upto32(p.sender_last_tsn, self.tcb.rx.peer_last_tsn) {
            let ids = if respond {
                open_ids(self.streams, p.stream_identifiers)
            } else {
                seq![]
            };
            self.streams_reset(p).reset_along(p, ids, reply).answered(
                p,
                ReconfigResult::SuccessPerformed,
            )
        } else {
            (Replied { s: self, reply }).answered(p, ReconfigResult::InProgress)
        }
    }

    /// The requests of the first `n` numbers are tried again.
    pub open spec fn retry_resets(
        self,
        requests: Map<u32, ResetRequestView>,
        rsns: Seq<u32>,
        n: int,
        reply: Seq<PacketView>,
    ) -> Replied
        decreases n,
    {
        if n <= 0 {
            Replied { s: self, reply }
        } else {
            let r = self.retry_resets(requests, rsns, n - 1, reply);
            r.s.reset_streams(requests[rsns[n - 1]], false, r.reply)
        }
    }

    /// All requests that were put off are tried again.
    #[verifier::opaque]
    pub open spec fn retry_all_resets(self, reply: Seq<PacketView>) -> Replied {
        let rsns = sorted_keys(self.reconfig_requests.dom());
        self.retry_resets(self.reconfig_requests, rsns, rsns.len() as int, reply)
    }

    /// The next TSN was received; it leaves the queue.
    #[verifier::opaque]
    pub open spec fn take_next(self) -> AssociationView {
        let next = self.tcb.rx.peer_last_tsn.wrapping_add(1);
        let s = AssociationView { payload_queue: self.payload_queue.pop(next), ..self };
        if self.payload_queue.popped(next) is Some {
            s.with_rx(Receiver { peer_last_tsn: next, ..self.tcb.rx })
        } else {
            s
        }
    }

    /// Whether the next TSN was received.
    pub open spec fn has_next(self) -> bool {
        self.payload_queue.popped(self.tcb.rx.peer_last_tsn.wrapping_add(1)) is Some
    }

    /// The last TSN without a gap moves over all that was received behind it, and requests that
    /// were put off are tried again with each.
    pub open spec fn advance_peer_tsn(self, reply: Seq<PacketView>) -> Replied
        decreases self.payload_queue.sorted.len(),
    {
        if !self.has_next() {
            Replied { s: self.take_next(), reply }
        } else {
            proof {
                lemma_take_next(self);
                lemma_retry_keeps_received(self.take_next(), reply);
            }
            let r = self.take_next().retry_all_resets(reply);
            r.s.advance_peer_tsn(r.reply)
        }
    }

    /// After data was received or skipped: the last TSN without a gap moves, and an
    /// acknowledgement is called for.
    #[verifier::opaque]
    pub open spec fn after_data(self, sack_immediately: bool) -> (AssociationView, ReplyView) {
        let r = self.advance_peer_tsn(seq![]);
        (
            r.s.with(
                ack_called_for(
                    r.s.tcb,
                    sack_immediately,
                    !r.s.payload_queue.chunks.dom().is_empty(),
                ),
            ),
            Ok(r.reply),
        )
    }

    /// Whether a chunk is kept: there is room for it, or it closes a gap.
    pub open spec fn has_room(self, d: DataView) -> bool {
        self.receiver_window_credit() > 0 || (self.payload_queue.sorted.len() > 0 && before32(
            d.tsn,
            self.payload_queue.sorted.last(),
        ))
    }

    /// A chunk reaches its stream.
    #[verifier::opaque]
    pub open spec fn deliver(self, d: DataView) -> AssociationView {
        let s = self.streams[d.stream_identifier].handle_data(d);
        let received = self.events.push(Event::DatagramReceived);
        AssociationView {
            streams: self.streams.insert(d.stream_identifier, s),
            events: if s.reassembly_queue.is_readable() {
                received.push(Event::Stream(StreamEvent::Readable { id: d.stream_identifier }))
            } else {
                received
            },
            ..self
        }
    }

    /// A chunk is put among those that were received.
    #[verifier::opaque]
    pub open spec fn store(self, d: DataView) -> AssociationView {
        AssociationView {
            payload_queue: self.payload_queue.push(d, self.tcb.rx.peer_last_tsn),
            ..self
        }
    }

    /// A chunk that is new is kept if there is room for it.
    #[verifier::opaque]
    pub open spec fn accept_data(self, d: DataView) -> AssociationView {
        if !self.payload_queue.accepts(d.tsn, self.tcb.rx.peer_last_tsn) {
            self
        } else {
            let s = self.get_or_create_stream(d.stream_identifier);
            if s.has_room(d) {
                s.store(d).deliver(d)
            } else {
                s
            }
        }
    }

    /// The association with a DATA chunk counted.
    #[verifier::opaque]
    pub open spec fn count_data(self) -> AssociationView {
        self.with(
            Tcb {
                stats: AssociationStats {
                    n_datas: self.tcb.stats.n_datas.wrapping_add(1),
                    ..self.tcb.stats
                },
                ..self.tcb
            },
        )
    }

    /// What a DATA chunk does.
    #[verifier::opaque]
    pub open spec fn handle_data(self, d: DataView) -> (AssociationView, ReplyView) {
        self.count_data().accept_data(d).after_data(d.immediate_sack)
    }

    /// The association with an acknowledgement owed at once.
    #[verifier::opaque]
    pub open spec fn ack_now(self) -> AssociationView {
        self.with(
            Tcb {
                rx: Receiver { ack_state: AckState::Immediate, ..self.tcb.rx },
                timers: self.tcb.timers.stopped(Timer::Ack),
                ..self.tcb
            },
        )
    }

    /// The data up to a TSN is skipped.
    #[verifier::opaque]
    pub open spec fn skip_data(self, c: ForwardTsnView) -> AssociationView {
        AssociationView {
            payload_queue: skip_upto(
                self.payload_queue,
                self.tcb.rx.peer_last_tsn,
                c.new_cumulative_tsn,
            ),
            streams: forward_unordered(
                forward_streams(self.streams, c.streams, c.streams.len() as int),
                c.new_cumulative_tsn,
            ),
            ..self.with_rx(
                Receiver {
                    peer_last_tsn: skipped_last(self.tcb.rx.peer_last_tsn, c.new_cumulative_tsn),
                    ..self.tcb.rx
                },
            )
        }
    }

    /// What a FORWARD TSN chunk does: one that is not known is answered with an error, an old
    /// one is acknowledged at once, and any other skips data.
    #[verifier::opaque]
    pub open spec fn handle_forward_tsn(self, c: ForwardTsnView) -> (AssociationView, ReplyView) {
        if !self.tcb.peer.use_forward_tsn {
            (
                self,
                Ok(seq![self.packet(seq![ChunkView::Error(seq![unrecognized_chunk_type()])])]),
            )
        } else if upto32(c.new_cumulative_tsn, self.tcb.rx.peer_last_tsn) {
            (self.ack_now(), no_packets())
        } else {
            self.skip_data(c).after_data(false)
        }
    }
}

impl AssociationView {
    /// The association with a request of the peer kept until it is performed.
    #[verifier::opaque]
    pub open spec fn keep_request(self, p: ResetRequestView) -> AssociationView {
        AssociationView {
            reconfig_requests: self.reconfig_requests.insert(
                p.reconfig_request_sequence_number,
                p,
            ),
            ..self
        }
    }

    /// The peer answered a request; the reconfiguration timer stops with the last one.
    #[verifier::opaque]
    pub open spec fn reset_answered(self, p: ParamReconfigResponse) -> AssociationView {
        let s = AssociationView {
            reconfigs: self.reconfigs.remove(p.reconfig_response_sequence_number),
            ..self
        };
        if s.reconfigs.dom().is_empty() {
            s.with_timers(self.tcb.timers.stopped(Timer::Reconfig))
        } else {
            s
        }
    }

    /// What a parameter of a RECONFIG chunk does; the second value tells whether it is one that
    /// such a chunk may hold.
    #[verifier::opaque]
    pub open spec fn handle_reconfig_param(
        self,
        param: Option<ParamView>,
        reply: Seq<PacketView>,
    ) -> (Replied, bool) {
        match param {
            None => (Replied { s: self, reply }, true),
            Some(ParamView::OutgoingResetRequest(p)) => (
                self.keep_request(p).reset_streams(p, true, reply),
                true,
            ),
            Some(ParamView::ReconfigResponse(p)) => (
                Replied { s: self.reset_answered(p), reply },
                true,
            ),
            Some(_) => (Replied { s: self, reply }, false),
        }
    }

    /// What a RECONFIG chunk does.
    #[verifier::opaque]
    pub open spec fn handle_reconfig(self, c: ReconfigView) -> (AssociationView, ReplyView) {
        let (a, a_ok) = self.handle_reconfig_param(c.param_a, seq![]);
        if !a_ok {
            (a.s, refused(Error::ErrParameterType))
        } else {
            let (b, b_ok) = a.s.handle_reconfig_param(c.param_b, a.reply);
            if !b_ok {
                (b.s, refused(Error::ErrParameterType))
            } else {
                (b.s, Ok(b.reply))
            }
        }
    }
}

impl Replied {
    /// The outcome with an answer to a request put behind.
    #[verifier::opaque]
    pub open spec fn answered(self, p: ResetRequestView, result: ReconfigResult) -> Replied {
        Replied {
            s: self.s,
            reply: self.reply.push(
                self.s.reconfig_packet(
                    reset_response(p.reconfig_request_sequence_number, result),
                ),
            ),
        }
    }
}

/// Taking the next TSN shortens the queue.
pub proof fn lemma_take_next(s: AssociationView)
    requires
        s.has_next(),
    ensures
        s.take_next().payload_queue.sorted.len() < s.payload_queue.sorted.len(),
{
    reveal(AssociationView::take_next);
    reveal(PayloadQueueView::pop);
    reveal(PayloadQueueView::popped);
}

/// Resetting streams leaves alone what was received.
pub proof fn lemma_reset_keeps_received(
    s: AssociationView,
    p: ResetRequestView,
    respond: bool,
    reply: Seq<PacketView>,
)
    ensures
        s.reset_streams(p, respond, reply).s.payload_queue == s.payload_queue,
        s.reset_streams(p, respond, reply).s.tcb.rx == s.tcb.rx,
{
    reveal(AssociationView::reset_streams);
    reveal(AssociationView::reset_along);
    reveal(AssociationView::streams_reset);
    reveal(Replied::answered);
}

/// Trying requests again leaves alone what was received.
pub proof fn lemma_retries_keep_received(
    s: AssociationView,
    requests: Map<u32, ResetRequestView>,
    rsns: Seq<u32>,
    n: int,
    reply: Seq<PacketView>,
)
    ensures
        s.retry_resets(requests, rsns, n, reply).s.payload_queue == s.payload_queue,
        s.retry_resets(requests, rsns, n, reply).s.tcb.rx == s.tcb.rx,
    decreases n,
{
    if n > 0 {
        lemma_retries_keep_received(s, requests, rsns, n - 1, reply);
        let r = s.retry_resets(requests, rsns, n - 1, reply);
        lemma_reset_keeps_received(r.s, requests[rsns[n - 1]], false, r.reply);
    }
}

/// Trying all requests again leaves alone what was received.
pub proof fn lemma_retry_keeps_received(s: AssociationView, reply: Seq<PacketView>)
    ensures
        s.retry_all_resets(reply).s.payload_queue == s.payload_queue,
        s.retry_all_resets(reply).s.tcb.rx == s.tcb.rx,
{
    reveal(AssociationView::retry_all_resets);
    let rsns = sorted_keys(s.reconfig_requests.dom());
    lemma_retries_keep_received(s, s.reconfig_requests, rsns, rsns.len() as int, reply);
}

/// Takes note of what a packet calls for.
fn call_for_ack(t: &mut Tcb, sack_immediately: bool, has_packet_loss: bool)
    ensures
        *final(t) == ack_called_for(*old(t), sack_immediately, has_packet_loss),
{
    reveal(ack_called_for);
    if (t.rx.ack_state != AckState::Immediate && !sack_immediately && !has_packet_loss
        && t.conf.ack_mode == AckMode::Normal) || t.conf.ack_mode == AckMode::AlwaysDelay {
        if t.rx.ack_state == AckState::Idle {
            t.rx.delayed_ack_triggered = true;
        } else {
            t.rx.immediate_ack_triggered = true;
        }
    } else {
        t.rx.immediate_ack_triggered = true;
    }
}

/// Puts a packet behind an answer.
fn push_reply(reply: &mut Vec<Packet>, p: Packet)
    ensures
        packet_views(final(reply)@) == packet_views(old(reply)@).push(p@),
{
    let ghost pv = p@;
    reply.push(p);
    assert(packet_views(reply@) =~= packet_views(old(reply)@).push(pv));
}

impl Association {
    /// Closes the streams of a request; returns those that were open, each once.
    fn close_requested_streams(&mut self, p: &ParamOutgoingResetRequest) -> (r: Vec<u16>)
        requires
            old(self)@.wf(),
        ensures
            final(self)@ == (AssociationView {
                streams: old(self)@.streams.remove_keys(p@.stream_identifiers.to_set()),
                ..old(self)@
            }),
            r@ == open_ids(old(self)@.streams, p@.stream_identifiers),
            final(self)@.wf(),
    {
        broadcast use vstd::std_specs::hash::group_hash_axioms;

        let ghost m = self@.streams;
        let ghost all = p@.stream_identifiers;
        let mut ids: Vec<u16> = Vec::new();
        let mut k: usize = 0;
        assert(all.take(0).to_set() =~= Set::empty());
        assert(m.remove_keys(Set::empty()) =~= m);
        while k < p.stream_identifiers.len()
            invariant
                k <= p.stream_identifiers.len(),
                all == p@.stream_identifiers,
                m == old(self)@.streams,
                self@.wf(),
                self@ == (AssociationView {
                    streams: m.remove_keys(all.take(k as int).to_set()),
                    ..old(self)@
                }),
                ids@ == open_ids(m, all.take(k as int)),
            decreases p.stream_identifiers.len() - k,
        {
            let id = p.stream_identifiers[k];
            let ghost before = all.take(k as int);
            let ghost after = all.take(k + 1);
            proof {
                assert(after.drop_last() =~= before);
                assert(after.to_set() =~= before.to_set().insert(id)) by {
                    assert(after =~= before.push(id));
                    assert forall|x: u16|
                        after.to_set().contains(x) <==> before.to_set().insert(id).contains(x) by {
                        if before.contains(x) {
                            let j = choose|j: int| 0 <= j < before.len() && before[j] == x;
                            assert(after[j] == x);
                        }
                        assert(after[k as int] == id);
                        if after.contains(x) && x != id {
                            let j = choose|j: int| 0 <= j < after.len() && after[j] == x;
                            assert(before[j] == x);
                        }
                    }
                }
                assert(m.remove_keys(before.to_set()).remove(id) =~= m.remove_keys(
                    after.to_set(),
                ));
                assert(self@.streams.contains_key(id) == self.streams@.contains_key(id));
                if !self@.streams.contains_key(id) {
                    assert(m.remove_keys(before.to_set()) =~= m.remove_keys(after.to_set()));
                }
            }
            if fx_contains_key(&self.streams, &id) {
                ids.push(id);
                self.unregister_stream(id);
            }
            k += 1;
        }
        assert(all.take(k as int) =~= all);
        ids
    }

    /// Forgets a request of the peer.
    fn forget_request(&mut self, rsn: u32)
        requires
            old(self)@.wf(),
        ensures
            final(self)@ == (AssociationView {
                reconfig_requests: old(self)@.reconfig_requests.remove(rsn),
                ..old(self)@
            }),
            final(self)@.wf(),
    {
        broadcast use vstd::std_specs::hash::group_hash_axioms;

        let ghost m = self@.reconfig_requests;
        fx_remove(&mut self.reconfig_requests, &rsn);
        assert(self@.reconfig_requests =~= m.remove(rsn));
    }

    /// Performs a request of the peer; returns the streams that were open.
    fn perform_reset(&mut self, p: &ParamOutgoingResetRequest) -> (r: Vec<u16>)
        requires
            old(self)@.wf(),
        ensures
            final(self)@ == old(self)@.streams_reset(p@),
            r@ == open_ids(old(self)@.streams, p@.stream_identifiers),
            final(self)@.wf(),
    {
        reveal(AssociationView::streams_reset);
        let ids = self.close_requested_streams(p);
        self.forget_request(p.reconfig_request_sequence_number);
        ids
    }

    /// Resets streams along with the peer.
    fn reset_along(
        &mut self,
        p: &ParamOutgoingResetRequest,
        ids: Vec<u16>,
        reply: &mut Vec<Packet>,
    )
        requires
            old(self)@.wf(),
        ensures
            ({
                let r = old(self)@.reset_along(p@, ids@, packet_views(old(reply)@));
                &&& final(self)@ == r.s
                &&& packet_views(final(reply)@) == r.reply
            }),
            final(self)@.wf(),
    {
        reveal(AssociationView::reset_along);
        if ids.len() == 0 {
            return;
        }
        let ghost idv = ids@;
        let rsn = self.generate_next_rsn();
        let tsn = self.tcb.tx.my_next_tsn.wrapping_sub(1);
        let c = ChunkReconfig {
            param_a: Some(
                Param::OutgoingResetRequest(
                    ParamOutgoingResetRequest {
                        reconfig_request_sequence_number: rsn,
                        reconfig_response_sequence_number: p.reconfig_request_sequence_number,
                        sender_last_tsn: tsn,
                        stream_identifiers: ids,
                    },
                ),
            ),
            param_b: None,
        };
        assert(c@ == reset_along(rsn, p@.reconfig_request_sequence_number, tsn, idv));
        self.store_reconfig(rsn, &c);
        let packet = self.wrap(Chunk::Reconfig(c));
        push_reply(reply, packet);
    }

    /// Answers a request of the peer.
    fn answer_reset(
        &self,
        p: &ParamOutgoingResetRequest,
        result: ReconfigResult,
        reply: &mut Vec<Packet>,
    )
        ensures
            (Replied { s: self@, reply: packet_views(final(reply)@) }) == (Replied {
                s: self@,
                reply: packet_views(old(reply)@),
            }).answered(p@, result),
    {
        reveal(Replied::answered);
        let c = ChunkReconfig {
            param_a: Some(
                Param::ReconfigResponse(
                    ParamReconfigResponse {
                        reconfig_response_sequence_number: p.reconfig_request_sequence_number,
                        result,
                    },
                ),
            ),
            param_b: None,
        };
        assert(c@ == reset_response(p@.reconfig_request_sequence_number, result));
        let packet = self.wrap(Chunk::Reconfig(c));
        push_reply(reply, packet);
    }

    /// Handles a request of the peer to reset streams.
    pub fn reset_streams_if_any(
        &mut self,
        p: &ParamOutgoingResetRequest,
        respond: bool,
        reply: &mut Vec<Packet>,
    )
        requires
            old(self)@.wf(),
        ensures
            ({
                let r = old(self)@.reset_streams(p@, respond, packet_views(old(reply)@));
                &&& final(self)@ == r.s
                &&& packet_views(final(reply)@) == r.reply
            }),
            final(self)@.wf(),
    {
        reveal(AssociationView::reset_streams);
        reveal(Replied::answered);
        if !sna32lte(p.sender_last_tsn, self.tcb.rx.peer_last_tsn) {
            self.answer_reset(p, ReconfigResult::InProgress, reply);
            return;
        }
        let open = self.perform_reset(p);
        let ids = if respond {
            open
        } else {
            Vec::new()
        };
        // Answer incoming reset requests with the same reset request.
        self.reset_along(p, ids, reply);
        self.answer_reset(p, ReconfigResult::SuccessPerformed, reply);
    }

    /// Tries the requests of the peer again that were put off.
    fn retry_resets(&mut self, reply: &mut Vec<Packet>)
        requires
            old(self)@.wf(),
        ensures
            ({
                let r = old(self)@.retry_all_resets(packet_views(old(reply)@));
                &&& final(self)@ == r.s
                &&& packet_views(final(reply)@) == r.reply
            }),
            final(self)@.wf(),
    {
        reveal(AssociationView::retry_all_resets);
        let (rsns, requests) = self.copy_requests();
        let ghost m = self@.reconfig_requests;
        let mut k: usize = 0;
        while k < rsns.len()
            invariant
                k <= rsns.len(),
                rsns.len() == requests.len(),
                forall|j: int| 0 <= j < rsns@.len() ==> (#[trigger] requests@[j])@ == m[rsns@[j]],
                self@.wf(),
                (Replied { s: self@, reply: packet_views(reply@) }) == old(self)@.retry_resets(
                    m,
                    rsns@,
                    k as int,
                    packet_views(old(reply)@),
                ),
            decreases rsns.len() - k,
        {
            assert(requests@[k as int]@ == m[rsns@[k as int]]);
            self.reset_streams_if_any(&requests[k], false, reply);
            k += 1;
        }
    }

    /// The requests of the peer that were put off, in the order of their numbers.
    fn copy_requests(&self) -> (r: (Vec<u32>, Vec<ParamOutgoingResetRequest>))
        ensures
            r.0@ == sorted_keys(self@.reconfig_requests.dom()),
            r.0@.len() == r.1@.len(),
            forall|j: int|
                0 <= j < r.0@.len() ==> (#[trigger] r.1@[j])@
                    == self@.reconfig_requests[r.0@[j]],
    {
        broadcast use vstd::std_specs::hash::group_hash_axioms;

        let rsns = fx_keys32(&self.reconfig_requests);
        assert(self.reconfig_requests@.dom() =~= self@.reconfig_requests.dom());
        let mut requests: Vec<ParamOutgoingResetRequest> = Vec::new();
        let mut k: usize = 0;
        while k < rsns.len()
            invariant
                k <= rsns.len(),
                k == requests.len(),
                rsns@.to_set() == self.reconfig_requests@.dom(),
                forall|j: int|
                    0 <= j < k ==> (#[trigger] requests@[j])@ == self@.reconfig_requests[rsns@[j]],
            decreases rsns.len() - k,
        {
            let rsn = rsns[k];
            assert(rsns@.to_set().contains(rsn)) by {
                assert(rsns@.contains(rsns@[k as int]));
            }
            assert(self.reconfig_requests@.contains_key(rsn));
            if let Some(p) = fx_get(&self.reconfig_requests, &rsn) {
                requests.push(p.clone());
            }
            k += 1;
        }
        (rsns, requests)
    }

    /// Takes the next TSN out of the queue if it was received.
    fn pop_next(&mut self) -> (r: bool)
        requires
            old(self)@.wf(),
        ensures
            r == old(self)@.has_next(),
            final(self)@ == old(self)@.take_next(),
            final(self)@.wf(),
    {
        reveal(AssociationView::take_next);
        let next = self.tcb.rx.peer_last_tsn.wrapping_add(1);
        proof {
            lemma_pop_wf(self@.payload_queue, next);
        }
        match self.payload_queue.pop(next) {
            Some(_) => {
                self.tcb.rx.peer_last_tsn = next;
                true
            },
            None => false,
        }
    }

    /// Moves the last TSN without a gap over all that was received behind it.
    fn advance_peer_last_tsn(&mut self, reply: &mut Vec<Packet>)
        requires
            old(self)@.wf(),
        ensures
            ({
                let r = old(self)@.advance_peer_tsn(packet_views(old(reply)@));
                &&& final(self)@ == r.s
                &&& packet_views(final(reply)@) == r.reply
            }),
            final(self)@.wf(),
    {
        let ghost want = self@.advance_peer_tsn(packet_views(reply@));
        loop
            invariant
                self@.wf(),
                want == self@.advance_peer_tsn(packet_views(reply@)),
                want == old(self)@.advance_peer_tsn(packet_views(old(reply)@)),
            decreases self@.payload_queue.sorted.len(),
        {
            let ghost s = self@;
            proof {
                if s.has_next() {
                    lemma_take_next(s);
                    lemma_retry_keeps_received(s.take_next(), packet_views(reply@));
                }
            }
            if !self.pop_next() {
                return;
            }
            self.retry_resets(reply);
        }
    }

    /// A common routine for DATA and FORWARD TSN chunks.
    pub fn handle_peer_last_tsn_and_acknowledgement(&mut self, sack_immediately: bool) -> (r:
        Result<Vec<Packet>, Error>)
        requires
            old(self)@.wf(),
        ensures
            (final(self)@, reply_view(r)) == old(self)@.after_data(sack_immediately),
            final(self)@.wf(),
    {
        reveal(AssociationView::after_data);
        let mut reply: Vec<Packet> = Vec::new();
        assert(packet_views(reply@) =~= seq![]);
        self.advance_peer_last_tsn(&mut reply);
        let has_packet_loss = !self.payload_queue.is_empty();
        call_for_ack(&mut self.tcb, sack_immediately, has_packet_loss);
        Ok(reply)
    }
}

impl Association {
    /// Delivers a chunk to its stream.
    fn deliver(&mut self, d: &ChunkPayloadData)
        requires
            old(self)@.wf(),
            old(self)@.streams.contains_key(d@.stream_identifier),
        ensures
            final(self)@ == old(self)@.deliver(d@),
            final(self)@.wf(),
    {
        broadcast use vstd::std_specs::hash::group_hash_axioms;

        reveal(AssociationView::deliver);
        let ghost m = self@.streams;
        assert(self.streams@.contains_key(d@.stream_identifier));
        if let Some(mut s) = fx_remove(&mut self.streams, &d.stream_identifier) {
            self.events.push_back(Event::DatagramReceived);
            s.handle_data(d);
            if s.reassembly_queue.is_readable() {
                self.events.push_back(
                    Event::Stream(StreamEvent::Readable { id: d.stream_identifier }),
                );
            }
            let ghost sv = s@;
            fx_insert(&mut self.streams, d.stream_identifier, s);
            assert(self@.streams =~= m.insert(d@.stream_identifier, sv));
        }
    }

    /// Puts a chunk among those that were received.
    fn store(&mut self, d: &ChunkPayloadData)
        requires
            old(self)@.wf(),
            old(self)@.payload_queue.n_bytes + d@.user_data.len() <= usize::MAX,
        ensures
            final(self)@ == old(self)@.store(d@),
            final(self)@.wf(),
    {
        reveal(AssociationView::store);
        self.payload_queue.push(d.clone(), self.tcb.rx.peer_last_tsn);
    }

    /// Whether there is room for a chunk, or it closes a gap.
    fn has_room_for(&self, d: &ChunkPayloadData) -> (r: bool)
        ensures
            r == self@.has_room(d@),
    {
        if self.get_my_receiver_window_credit() > 0 {
            return true;
        }
        // Receive buffer is full
        match self.payload_queue.get_last_tsn_received() {
            Some(last_tsn) => sna32lt(d.tsn, *last_tsn),
            None => false,
        }
    }

    /// Makes sure that the stream of a chunk exists.
    fn provide_stream(&mut self, si: StreamId)
        requires
            old(self)@.wf(),
        ensures
            final(self)@ == old(self)@.get_or_create_stream(si),
            final(self)@.streams.contains_key(si),
            final(self)@.payload_queue == old(self)@.payload_queue,
            final(self)@.wf(),
    {
        proof {
            reveal(AssociationView::get_or_create_stream);
            reveal(AssociationView::create_stream);
        }
        let _s = self.get_or_create_stream(si);
    }

    /// Keeps a chunk that is new if there is room for it.
    fn accept_data(&mut self, d: &ChunkPayloadData)
        requires
            old(self)@.wf(),
            old(self)@.payload_queue.n_bytes + d@.user_data.len() <= usize::MAX,
        ensures
            final(self)@ == old(self)@.accept_data(d@),
            final(self)@.wf(),
    {
        reveal(AssociationView::accept_data);
        if !self.payload_queue.can_push(d, self.tcb.rx.peer_last_tsn) {
            return;
        }
        self.provide_stream(d.stream_identifier);
        if self.has_room_for(d) {
            // Pass the new chunk to stream level as soon as it arrives
            self.store(d);
            proof {
                reveal(AssociationView::store);
            }
            self.deliver(d);
        }
    }

    /// Counts a DATA chunk.
    fn count_data(&mut self)
        requires
            old(self)@.wf(),
        ensures
            final(self)@ == old(self)@.count_data(),
            final(self)@.payload_queue == old(self)@.payload_queue,
            final(self)@.wf(),
    {
        reveal(AssociationView::count_data);
        self.tcb.stats.inc_datas();
    }

    /// Handles a DATA chunk.
    pub fn handle_data(&mut self, d: &ChunkPayloadData) -> (r: Result<Vec<Packet>, Error>)
        requires
            old(self)@.wf(),
            old(self)@.payload_queue.n_bytes + d@.user_data.len() <= usize::MAX,
        ensures
            (final(self)@, reply_view(r)) == old(self)@.handle_data(d@),
            final(self)@.wf(),
    {
        reveal(AssociationView::handle_data);
        self.count_data();
        self.accept_data(d);
        self.handle_peer_last_tsn_and_acknowledgement(d.immediate_sack)
    }

    /// Skips ordered messages of a stream.
    fn forward_stream(&mut self, f: ChunkForwardTsnStream)
        requires
            old(self)@.wf(),
        ensures
            final(self)@ == (AssociationView {
                streams: if old(self)@.streams.contains_key(f.identifier) {
                    old(self)@.streams.insert(
                        f.identifier,
                        old(self)@.streams[f.identifier].forward_ordered(f.sequence),
                    )
                } else {
                    old(self)@.streams
                },
                ..old(self)@
            }),
            final(self)@.wf(),
    {
        broadcast use vstd::std_specs::hash::group_hash_axioms;

        let ghost m = self@.streams;
        if let Some(mut s) = fx_remove(&mut self.streams, &f.identifier) {
            s.handle_forward_tsn_for_ordered(f.sequence);
            let ghost sv = s@;
            fx_insert(&mut self.streams, f.identifier, s);
            assert(self@.streams =~= m.insert(f.identifier, sv));
        } else {
            assert(self@.streams =~= m);
        }
    }

    /// Skips ordered messages.
    fn forward_ordered(&mut self, c: &ChunkForwardTsn)
        requires
            old(self)@.wf(),
        ensures
            final(self)@ == (AssociationView {
                streams: forward_streams(
                    old(self)@.streams,
                    c@.streams,
                    c@.streams.len() as int,
                ),
                ..old(self)@
            }),
            final(self)@.wf(),
    {
        let mut k: usize = 0;
        while k < c.streams.len()
            invariant
                k <= c.streams.len(),
                self@.wf(),
                self@ == (AssociationView {
                    streams: forward_streams(old(self)@.streams, c@.streams, k as int),
                    ..old(self)@
                }),
            decreases c.streams.len() - k,
        {
            self.forward_stream(c.streams[k]);
            k += 1;
        }
    }

    /// Skips unordered messages of all streams: a FORWARD TSN does not tell on which streams it
    /// skips unordered ones.
    fn forward_unordered(&mut self, tsn: u32)
        requires
            old(self)@.wf(),
        ensures
            final(self)@ == (AssociationView {
                streams: forward_unordered(old(self)@.streams, tsn),
                ..old(self)@
            }),
            final(self)@.wf(),
    {
        broadcast use vstd::std_specs::hash::group_hash_axioms;

        let ghost m = self@.streams;
        let ids = fx_keys16(&self.streams);
        proof {
            lemma_ascending_distinct(ids@);
        }
        let mut k: usize = 0;
        while k < ids.len()
            invariant
                k <= ids.len(),
                m == old(self)@.streams,
                ids@.to_set() == m.dom(),
                ids@.no_duplicates(),
                self@.wf(),
                self@.streams.dom() == m.dom(),
                forall|si: u16| #[trigger]
                    m.contains_key(si) ==> self@.streams[si] == if ids@.take(k as int).contains(
                        si,
                    ) {
                        m[si].forward_unordered(tsn)
                    } else {
                        m[si]
                    },
                self@ == (AssociationView { streams: self@.streams, ..old(self)@ }),
            decreases ids.len() - k,
        {
            let si = ids[k];
            let ghost before = self@.streams;
            assert(ids@.to_set().contains(si)) by {
                assert(ids@.contains(ids@[k as int]));
            }
            assert(m.contains_key(si));
            assert(self.streams@.contains_key(si)) by {
                assert(self@.streams.contains_key(si));
            }
            assert(!ids@.take(k as int).contains(si));
            if let Some(mut s) = fx_remove(&mut self.streams, &si) {
                s.handle_forward_tsn_for_unordered(tsn);
                let ghost sv = s@;
                fx_insert(&mut self.streams, si, s);
                assert(self@.streams =~= before.insert(si, sv));
            }
            assert(self@.streams.dom() =~= m.dom());
            assert forall|x: u16| #[trigger] m.contains_key(x) implies self@.streams[x]
                == if ids@.take(k + 1).contains(x) {
                m[x].forward_unordered(tsn)
            } else {
                m[x]
            } by {
                let a = ids@.take(k as int);
                let b = ids@.take(k + 1);
                if a.contains(x) {
                    let j = choose|j: int| 0 <= j < a.len() && a[j] == x;
                    assert(b[j] == x);
                }
                assert(b[k as int] == si);
                if b.contains(x) && x != si {
                    let j = choose|j: int| 0 <= j < b.len() && b[j] == x;
                    assert(a[j] == x);
                }
            }
            k += 1;
        }
        assert(ids@.take(k as int) =~= ids@);
        assert(self@.streams =~= forward_unordered(m, tsn)) by {
            assert forall|x: u16| #[trigger] m.contains_key(x) implies self@.streams[x]
                == m[x].forward_unordered(tsn) by {
                assert(ids@.to_set().contains(x));
            }
        }
    }

    /// Skips chunks that were received up to a TSN.
    fn skip_received(&mut self, cum: u32)
        requires
            old(self)@.wf(),
        ensures
            final(self)@ == (AssociationView {
                payload_queue: skip_upto(
                    old(self)@.payload_queue,
                    old(self)@.tcb.rx.peer_last_tsn,
                    cum,
                ),
                ..old(self)@.with_rx(
                    Receiver {
                        peer_last_tsn: skipped_last(old(self)@.tcb.rx.peer_last_tsn, cum),
                        ..old(self)@.tcb.rx
                    },
                )
            }),
            final(self)@.wf(),
    {
        let mut last: u32 = self.tcb.rx.peer_last_tsn;
        let ghost want = skip_upto(self@.payload_queue, last, cum);
        while sna32lt(last, cum)
            invariant
                self@.wf(),
                want == skip_upto(self@.payload_queue, last, cum),
                self@ == (AssociationView {
                    payload_queue: self@.payload_queue,
                    ..old(self)@
                }),
                skipped_last(last, cum) == skipped_last(old(self)@.tcb.rx.peer_last_tsn, cum),
                last == old(self)@.tcb.rx.peer_last_tsn || upto32(last, cum),
            decreases fwd32(last, cum),
        {
            let next = last.wrapping_add(1);
            proof {
                lemma_pop_wf(self@.payload_queue, next);
            }
            // The chunk may not exist.
            self.payload_queue.pop(next);
            last = next;
        }
        self.tcb.rx.peer_last_tsn = last;
    }

    /// Skips data.
    fn skip_data(&mut self, c: &ChunkForwardTsn)
        requires
            old(self)@.wf(),
        ensures
            final(self)@ == old(self)@.skip_data(c@),
            final(self)@.wf(),
    {
        reveal(AssociationView::skip_data);
        self.skip_received(c.new_cumulative_tsn);
        // The abandoned chunks are removed from the streams.
        self.forward_ordered(c);
        self.forward_unordered(c.new_cumulative_tsn);
    }

    /// Owes an acknowledgement at once.
    fn ack_now(&mut self)
        requires
            old(self)@.wf(),
        ensures
            final(self)@ == old(self)@.ack_now(),
            final(self)@.wf(),
    {
        reveal(AssociationView::ack_now);
        self.tcb.rx.ack_state = AckState::Immediate;
        self.tcb.timers.stop(Timer::Ack);
    }

    /// The error that answers a chunk type that is not known.
    fn unrecognized_chunk(&self) -> (r: Packet)
        ensures
            r@ == self@.packet(seq![ChunkView::Error(seq![unrecognized_chunk_type()])]),
    {
        let mut error_causes: Vec<Tlv> = Vec::new();
        error_causes.push(Tlv { typ: UNRECOGNIZED_CHUNK_TYPE, value: bytes_new() });
        assert(tlv_views(error_causes@) =~= seq![unrecognized_chunk_type()]);
        self.wrap(Chunk::Error(ChunkError { error_causes }))
    }

    /// Handles a FORWARD TSN chunk.
    pub fn handle_forward_tsn(&mut self, c: &ChunkForwardTsn) -> (r: Result<Vec<Packet>, Error>)
        requires
            old(self)@.wf(),
        ensures
            (final(self)@, reply_view(r)) == old(self)@.handle_forward_tsn(c@),
            final(self)@.wf(),
    {
        reveal(AssociationView::handle_forward_tsn);
        if !self.tcb.peer.use_forward_tsn {
            let p = self.unrecognized_chunk();
            return Ok(one_packet(p));
        }
        if sna32lte(c.new_cumulative_tsn, self.tcb.rx.peer_last_tsn) {
            // Out of date: a SACK may have been lost in the network.
            self.ack_now();
            return no_reply();
        }
        self.skip_data(c);
        self.handle_peer_last_tsn_and_acknowledgement(false)
    }

    /// Keeps a request of the peer until it is performed.
    fn keep_request(&mut self, p: &ParamOutgoingResetRequest)
        requires
            old(self)@.wf(),
        ensures
            final(self)@ == old(self)@.keep_request(p@),
            final(self)@.wf(),
    {
        broadcast use vstd::std_specs::hash::group_hash_axioms;

        reveal(AssociationView::keep_request);
        let ghost m = self@.reconfig_requests;
        fx_insert(&mut self.reconfig_requests, p.reconfig_request_sequence_number, p.clone());
        assert(self@.reconfig_requests =~= m.insert(p@.reconfig_request_sequence_number, p@));
    }

    /// Takes an answer of the peer.
    fn take_answer(&mut self, p: &ParamReconfigResponse)
        requires
            old(self)@.wf(),
        ensures
            final(self)@ == old(self)@.reset_answered(*p),
            final(self)@.wf(),
    {
        broadcast use vstd::std_specs::hash::group_hash_axioms;

        reveal(AssociationView::reset_answered);
        let ghost m = self@.reconfigs;
        fx_remove(&mut self.reconfigs, &p.reconfig_response_sequence_number);
        assert(self@.reconfigs =~= m.remove(p.reconfig_response_sequence_number));
        assert(self@.reconfigs.dom() =~= self.reconfigs@.dom());
        if self.reconfigs.is_empty() {
            assert(self.reconfigs@.dom().is_empty());
            self.tcb.timers.stop(Timer::Reconfig);
        } else {
            assert(!self.reconfigs@.dom().is_empty());
        }
    }

    /// Handles a parameter of a RECONFIG chunk.
    pub fn handle_reconfig_param(&mut self, raw: &Option<Param>, reply: &mut Vec<Packet>) -> (r:
        Result<(), Error>)
        requires
            old(self)@.wf(),
        ensures
            ({
                let (a, ok) = old(self)@.handle_reconfig_param(
                    opt_param_view(*raw),
                    packet_views(old(reply)@),
                );
                &&& final(self)@ == a.s
                &&& packet_views(final(reply)@) == a.reply
                &&& r == (if ok {
                    Ok::<(), Error>(())
                } else {
                    Err::<(), Error>(Error::ErrParameterType)
                })
            }),
            final(self)@.wf(),
    {
        reveal(AssociationView::handle_reconfig_param);
        match raw {
            None => Ok(()),
            Some(Param::OutgoingResetRequest(p)) => {
                self.keep_request(p);
                self.reset_streams_if_any(p, true, reply);
                Ok(())
            },
            Some(Param::ReconfigResponse(p)) => {
                self.take_answer(p);
                Ok(())
            },
            Some(_) => Err(Error::ErrParameterType),
        }
    }

    /// Handles a RECONFIG chunk.
    pub fn handle_reconfig(&mut self, c: &ChunkReconfig) -> (r: Result<Vec<Packet>, Error>)
        requires
            old(self)@.wf(),
        ensures
            (final(self)@, reply_view(r)) == old(self)@.handle_reconfig(c@),
            final(self)@.wf(),
    {
        reveal(AssociationView::handle_reconfig);
        let mut pp: Vec<Packet> = Vec::new();
        assert(packet_views(pp@) =~= seq![]);
        if let Err(e) = self.handle_reconfig_param(&c.param_a, &mut pp) {
            return Err(e);
        }
        if let Err(e) = self.handle_reconfig_param(&c.param_b, &mut pp) {
            return Err(e);
        }
        Ok(pp)
    }
}

} // verus!
