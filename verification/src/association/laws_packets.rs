//! What holds of packets that are received.

use vstd::prelude::*;

use crate::association::inbound::nothing_called_for;
use crate::association::user::raw_bytes;
use crate::association::laws_reset::is_addressed;
use crate::association::receive::Replied;
use crate::association::view::{AssociationError, AssociationView, Receiver};
use crate::chunk::kinds::{ChunkView, ForwardTsnView, InitView, ReconfigView};
use crate::chunk::param::{ParamView, ResetRequestView};
use crate::chunk::payload::Instant;
use crate::error::{Error, ErrorView};
use crate::packet::{packet_check, CommonHeader, PacketView};

verus! {

/// A packet is looked into if both ports are named, an INIT or INIT ACK is alone in it, and one
/// with an INIT has no tag.
pub open spec fn is_admitted(p: PacketView) -> bool {
    &&& p.common_header.source_port != 0
    &&& p.common_header.destination_port != 0
    &&& forall|i: int| 0 <= i < p.chunks.len() && (#[trigger] p.chunks[i]) is Init ==> p.chunks.len()
        == 1
    &&& p.chunks.len() == 1 ==> (p.chunks[0] matches ChunkView::Init(i) ==> i.is_ack
        || p.common_header.verification_tag == 0)
}

/// A packet that is not admitted does nothing.
pub proof fn law_packet_must_be_admitted(
    s: AssociationView,
    p: PacketView,
    now: Instant,
    fresh: Seq<u8>,
)
    ensures
        is_admitted(p) <==> packet_check(p) is Ok,
        !is_admitted(p) ==> s.handle_packet(p, now, fresh) == (s, Ok::<(), ErrorView>(())),
{
    reveal(AssociationView::handle_packet);
    if p.chunks.len() == 1 {
        assert(p.chunks[0] is Init ==> p.chunks.len() == 1);
    }
    if exists|i: int| 0 <= i < p.chunks.len() && (#[trigger] p.chunks[i]) is Init {
        let i = choose|i: int| 0 <= i < p.chunks.len() && (#[trigger] p.chunks[i]) is Init;
        assert(p.chunks[i] is Init);
    }
}

/// An INIT is acceptable: it has a tag, offers streams both ways and a window of 1500 bytes.
pub open spec fn is_acceptable(i: InitView) -> bool {
    i.initiate_tag != 0 && i.num_inbound_streams > 0 && i.num_outbound_streams > 0
        && i.advertised_receiver_window_credit >= 1500
}

/// An INIT that is not acceptable is an error and changes nothing. Otherwise a chunk has its
/// effect, and the packets that answer it wait behind those that wait already.
pub proof fn law_chunk_is_answered(
    s: AssociationView,
    h: CommonHeader,
    c: ChunkView,
    now: Instant,
    fresh: Seq<u8>,
)
    ensures
        ({
            let (r, o) = s.handle_chunk(h, c, now, fresh);
            let (d, reply) = s.dispatch(h, c, now, fresh);
            let is_bad = c matches ChunkView::Init(i) && !is_acceptable(i);
            &&& is_bad ==> r == s && o is Err
            &&& !is_bad ==> {
                &&& reply matches Ok(ps) ==> {
                    &&& o is Ok
                    &&& r == (AssociationView { control_queue: r.control_queue, ..d })
                    &&& r.control_queue.len() == d.control_queue.len() + ps.len()
                    &&& forall|j: int|
                        0 <= j < d.control_queue.len() ==> #[trigger] r.control_queue[j]
                            == d.control_queue[j]
                    &&& forall|j: int|
                        0 <= j < ps.len() ==> r.control_queue[d.control_queue.len() + j]
                            == #[trigger] ps[j]
                }
                &&& reply matches Err(e) ==> r == d && o == Err::<(), ErrorView>(e)
            }
        }),
{
    reveal(AssociationView::handle_chunk);
}

/// The packet with other chunks.
pub open spec fn with_chunks(p: PacketView, cs: Seq<ChunkView>) -> PacketView {
    PacketView { chunks: cs, ..p }
}

proof fn lemma_same_chunks(
    s: AssociationView,
    p: PacketView,
    q: PacketView,
    i: int,
    j: int,
    now: Instant,
    fresh: Seq<u8>,
)
    requires
        p.common_header == q.common_header,
        0 <= i <= p.chunks.len(),
        0 <= j <= q.chunks.len(),
        p.chunks.skip(i) == q.chunks.skip(j),
    ensures
        s.handle_chunks(p, i, now, fresh) == s.handle_chunks(q, j, now, fresh),
    decreases p.chunks.len() - i,
{
    assert(p.chunks.skip(i).len() == p.chunks.len() - i);
    assert(q.chunks.skip(j).len() == q.chunks.len() - j);
    if i < p.chunks.len() {
        assert(p.chunks.skip(i)[0] == q.chunks.skip(j)[0]);
        assert(j < q.chunks.len());
        assert(p.chunks[i] == q.chunks[j]);
        assert(p.chunks.skip(i + 1) =~= p.chunks.skip(i).skip(1));
        assert(q.chunks.skip(j + 1) =~= q.chunks.skip(j).skip(1));
        let t = s.handle_chunk(p.common_header, p.chunks[i], now, fresh).0;
        lemma_same_chunks(t, p, q, i + 1, j + 1, now, fresh);
    }
}

proof fn lemma_split(
    s: AssociationView,
    p: PacketView,
    k: int,
    n: int,
    now: Instant,
    fresh: Seq<u8>,
)
    requires
        0 <= k <= n <= p.chunks.len(),
    ensures
        ({
            let front = with_chunks(p, p.chunks.take(n));
            let (a, o) = s.handle_chunks(front, k, now, fresh);
            s.handle_chunks(p, k, now, fresh) == if o is Ok {
                a.handle_chunks(p, n, now, fresh)
            } else {
                (a, o)
            }
        }),
    decreases n - k,
{
    let front = with_chunks(p, p.chunks.take(n));
    if k < n {
        assert(front.chunks[k] == p.chunks[k]);
        let (t, o) = s.handle_chunk(p.common_header, p.chunks[k], now, fresh);
        lemma_split(t, p, k + 1, n, now, fresh);
    }
}

/// The chunks of a packet are handled in turn, up to the first error: a packet does what its
/// first chunks do and then, unless they end in an error, what the others do.
pub proof fn law_chunks_are_handled_in_turn(
    s: AssociationView,
    p: PacketView,
    n: int,
    now: Instant,
    fresh: Seq<u8>,
)
    requires
        0 <= n <= p.chunks.len(),
    ensures
        ({
            let front = with_chunks(p, p.chunks.take(n));
            let back = with_chunks(p, p.chunks.skip(n));
            let (a, o) = s.handle_chunks(front, 0, now, fresh);
            &&& o is Ok ==> s.handle_chunks(p, 0, now, fresh) == a.handle_chunks(
                back,
                0,
                now,
                fresh,
            )
            &&& o is Err ==> s.handle_chunks(p, 0, now, fresh) == (a, o)
        }),
        ({
            let one = with_chunks(p, p.chunks.take(1));
            let (r, o) = s.handle_chunks(one, 0, now, fresh);
            let (c, e) = s.handle_chunk(p.common_header, p.chunks[0], now, fresh);
            p.chunks.len() > 0 ==> r == c && (o is Ok <==> e is Ok) && (e is Err ==> o == e)
        }),
{
    let back = with_chunks(p, p.chunks.skip(n));
    let front = with_chunks(p, p.chunks.take(n));
    lemma_split(s, p, 0, n, now, fresh);
    let (a, o) = s.handle_chunks(front, 0, now, fresh);
    assert(back.chunks.skip(0) =~= p.chunks.skip(n));
    lemma_same_chunks(a, p, back, n, 0, now, fresh);
    if p.chunks.len() > 0 {
        let one = with_chunks(p, p.chunks.take(1));
        assert(one.chunks[0] == p.chunks[0]);
        reveal_with_fuel(AssociationView::handle_chunks, 2);
    }
}

/// What earlier packets called for plays no part in what a packet does: two associations that
/// differ in that alone are the same after an admitted packet.
pub proof fn law_each_packet_calls_for_its_own_ack(
    s: AssociationView,
    delayed: bool,
    immediate: bool,
    p: PacketView,
    now: Instant,
    fresh: Seq<u8>,
)
    requires
        is_admitted(p),
    ensures
        ({
            let t = s.with_rx(
                Receiver {
                    delayed_ack_triggered: delayed,
                    immediate_ack_triggered: immediate,
                    ..s.tcb.rx
                },
            );
            s.handle_packet(p, now, fresh) == t.handle_packet(p, now, fresh)
        }),
{
    reveal(AssociationView::handle_packet);
    law_packet_must_be_admitted(s, p, now, fresh);
    let t = s.with_rx(
        Receiver {
            delayed_ack_triggered: delayed,
            immediate_ack_triggered: immediate,
            ..s.tcb.rx
        },
    );
    assert(s.with(nothing_called_for(s.tcb)) == t.with(nothing_called_for(t.tcb)));
}

/// Each kind of chunk has its own effect. An ABORT that is not the user's, an ERROR and a
/// HEARTBEAT ACK are errors and change nothing.
pub proof fn law_chunks_have_their_effects(
    s: AssociationView,
    h: CommonHeader,
    c: ChunkView,
    now: Instant,
    fresh: Seq<u8>,
)
    ensures
        ({
            let (r, reply) = s.dispatch(h, c, now, fresh);
            &&& c matches ChunkView::PayloadData(d) ==> (r, reply) == s.handle_data(d)
            &&& c matches ChunkView::SelectiveAck(a) ==> (r, reply) == s.handle_sack(a, now)
            &&& c matches ChunkView::Reconfig(x) ==> (r, reply) == s.handle_reconfig(x)
            &&& c matches ChunkView::ForwardTsn(x) ==> (r, reply) == s.handle_forward_tsn(x)
            &&& c matches ChunkView::CookieEcho(x) ==> (r, reply) == s.handle_cookie_echo(x)
            &&& c is CookieAck ==> r == s.handle_cookie_ack() && reply is Ok
            &&& c matches ChunkView::Init(i) ==> (r, reply) == if i.is_ack {
                s.handle_init_ack(h, i, now)
            } else {
                s.handle_init(h, i, fresh)
            }
            &&& c is Error ==> r == s && (reply matches Err(e) && e is AbortChunk)
            &&& c is HeartbeatAck ==> r == s && reply is Err
            &&& c matches ChunkView::Abort(causes) ==> {
                let by_user = exists|k: int|
                    0 <= k < causes.len() && (#[trigger] causes[k]).typ == 12;
                &&& by_user ==> reply is Ok && r.tcb.state is Closed
                &&& !by_user ==> r == s && (reply matches Err(e) && e is AbortChunk)
            }
        }),
{
    reveal(AssociationView::dispatch);
    reveal(AssociationView::close_for);
}

/// An association that a packet's error closes is lost because of the peer's error if the peer
/// reported one, and because of the transport otherwise.
pub proof fn law_error_is_named(s: AssociationView, p: PacketView, now: Instant, fresh: Seq<u8>)
    requires
        s.handle_packet(p, now, fresh).1 is Err,
        !(s.handle_packet(p, now, fresh).0.tcb.state is Closed),
        s.handle_packet(p, now, fresh).0.error is None,
    ensures
        ({
            let e = s.handle_packet(p, now, fresh).1->Err_0;
            s.receive(p, now, fresh).error == Some(
                if e is AbortChunk {
                    AssociationError::AssociationClosed
                } else {
                    AssociationError::TransportError
                },
            )
        }),
{
    reveal(AssociationView::receive);
    reveal(AssociationView::close_for);
}

/// A FORWARD TSN where it is not used is answered with an ERROR chunk: the chunk type is not
/// recognized.
pub proof fn law_unused_forward_tsn_is_not_recognized(s: AssociationView, c: ForwardTsnView)
    requires
        !s.tcb.peer.use_forward_tsn,
    ensures
        ({
            let (r, reply) = s.handle_forward_tsn(c);
            &&& r == s
            &&& reply matches Ok(ps) && {
                &&& ps.len() == 1 && is_addressed(s, ps[0]) && ps[0].chunks.len() == 1
                &&& ps[0].chunks[0] matches ChunkView::Error(causes) && {
                    &&& causes.len() == 1
                    &&& causes[0].typ == 6
                    &&& causes[0].value.len() == 0
                }
            }
        }),
{
    reveal(AssociationView::handle_forward_tsn);
}

/// Both parameters of a RECONFIG chunk are looked at, the first one first. One that is neither a
/// request nor an answer is an error.
pub proof fn law_both_parameters_are_handled(
    s: AssociationView,
    a: ReconfigView,
    b: ReconfigView,
    both: ReconfigView,
)
    requires
        a.param_b is None,
        b.param_b is None,
        both.param_a == a.param_a,
        both.param_b == b.param_a,
        both.param_a matches Some(p) ==> p is OutgoingResetRequest || p is ReconfigResponse,
        both.param_b matches Some(p) ==> p is OutgoingResetRequest || p is ReconfigResponse,
    ensures
        ({
            let (r1, o1) = s.handle_reconfig(a);
            let (r2, o2) = r1.handle_reconfig(b);
            let (r, o) = s.handle_reconfig(both);
            &&& r == r2
            &&& o1 is Ok && o2 is Ok && o is Ok
            &&& o->Ok_0 == o1->Ok_0 + o2->Ok_0
        }),
{
    reveal(AssociationView::handle_reconfig);
    reveal(AssociationView::handle_reconfig_param);
    let r1 = s.handle_reconfig(a).0;
    let one = s.handle_reconfig(a).1->Ok_0;
    if let Some(ParamView::OutgoingResetRequest(p)) = b.param_a {
        lemma_replies_behind(r1.keep_request(p), p, one);
    }
    assert(one + Seq::<PacketView>::empty() =~= one);
}

proof fn lemma_replies_behind(s: AssociationView, p: ResetRequestView, reply: Seq<PacketView>)
    ensures
        s.reset_streams(p, true, reply).s == s.reset_streams(p, true, seq![]).s,
        s.reset_streams(p, true, reply).reply == reply + s.reset_streams(p, true, seq![]).reply,
{
    reveal(AssociationView::reset_streams);
    reveal(AssociationView::reset_along);
    reveal(AssociationView::streams_reset);
    reveal(Replied::answered);
    let a = s.reset_streams(p, true, reply).reply;
    let b = s.reset_streams(p, true, seq![]).reply;
    assert(a =~= reply + b);
}

/// A RECONFIG chunk with another parameter is an error.
pub proof fn law_other_parameters_are_errors(s: AssociationView, c: ReconfigView)
    requires
        c.param_a matches Some(p) && !(p is OutgoingResetRequest || p is ReconfigResponse),
    ensures
        s.handle_reconfig(c).1 is Err,
        s.handle_reconfig(c).0 == s,
{
    reveal(AssociationView::handle_reconfig);
    reveal(AssociationView::handle_reconfig_param);
}

/// Bytes that are sent and received are counted as far as the counts reach.
pub proof fn law_bytes_are_counted(s: AssociationView, n: nat)
    ensures
        ({
            let r = s.with_sent(n);
            let c = s.tcb.conf.bytes_sent + n;
            &&& r.tcb.conf.bytes_sent == if c <= usize::MAX {
                c
            } else {
                usize::MAX as int
            }
            &&& r.tcb.conf.bytes_received == s.tcb.conf.bytes_received
        }),
        ({
            let r = s.with_received(n);
            let c = s.tcb.conf.bytes_received + n;
            &&& r.tcb.conf.bytes_received == if c <= usize::MAX {
                c
            } else {
                usize::MAX as int
            }
            &&& r.tcb.conf.bytes_sent == s.tcb.conf.bytes_sent
        }),
{
}

/// The bytes of packets that go out one behind the other add up.
pub proof fn law_packet_bytes_add_up(a: Seq<Seq<u8>>, b: Seq<u8>)
    ensures
        raw_bytes(a.push(b)) == raw_bytes(a) + b.len(),
        raw_bytes(Seq::<Seq<u8>>::empty()) == 0,
{
    assert(a.push(b).drop_last() =~= a);
}

} // verus!
