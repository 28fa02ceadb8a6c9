//! What holds of the handshake.

use vstd::prelude::*;

use crate::association::create::{first_tsn, initial_cwnd, mtu_for, Blueprint, MIN_INITIAL_CWND};
use crate::association::handshake::{
    acknowledged, agreed, cookie_echoed, established, init_ack_received, init_received, last_cookie,
    INIT_PORT,
};
use crate::association::state::AssociationState;
use crate::association::timer::TimerTable;
use crate::association::view::{no_packets, refused, AssociationView, Event, ReplyView, Tcb};
use crate::chunk::kinds::{
    announces_forward_tsn, supported_extensions, ChunkView, InitView, CT_FORWARD_TSN,
};
use crate::chunk::param::ParamView;
use crate::chunk::payload::Instant;
use crate::error::{Error, ErrorView};
use crate::packet::{CommonHeader, PacketView};

verus! {

/// The packet of an answer that holds one.
pub open spec fn only_packet(r: ReplyView) -> PacketView {
    r->Ok_0[0]
}

/// The INIT or INIT ACK of a packet that holds one chunk.
pub open spec fn only_init(p: PacketView) -> InitView {
    p.chunks[0]->Init_0
}

/// The cookie of a packet that holds one chunk, a COOKIE ECHO.
pub open spec fn only_cookie(p: PacketView) -> Seq<u8> {
    p.chunks[0]->CookieEcho_0
}

/// The first steps of an association between a new client and a server: the server answers the
/// INIT, and the client takes the answer.
pub struct Handshake {
    pub client: Blueprint,
    pub server: AssociationView,
    pub random: u32,
    pub fresh: Seq<u8>,
    pub now: Instant,
}

impl Handshake {
    /// The client, which waits for the cookie.
    pub open spec fn client0(self) -> AssociationView {
        self.client.build(self.random, self.now)
    }

    /// The packet with the INIT.
    pub open spec fn init(self) -> PacketView {
        self.client0().control_queue[0]
    }

    /// What the server does with the INIT.
    pub open spec fn init_handled(self) -> (AssociationView, ReplyView) {
        self.server.handle_init(self.init().common_header, only_init(self.init()), self.fresh)
    }

    /// The server that answered the INIT.
    pub open spec fn server1(self) -> AssociationView {
        self.init_handled().0
    }

    /// The packet with the INIT ACK.
    pub open spec fn init_ack(self) -> PacketView {
        only_packet(self.init_handled().1)
    }

    /// What the client does with the INIT ACK.
    pub open spec fn init_ack_handled(self) -> (AssociationView, ReplyView) {
        self.client0().handle_init_ack(
            self.init_ack().common_header,
            only_init(self.init_ack()),
            self.now,
        )
    }

    /// The client that sent the cookie back.
    pub open spec fn client1(self) -> AssociationView {
        self.init_ack_handled().0
    }

    /// The packet with the COOKIE ECHO.
    pub open spec fn cookie_echo(self) -> PacketView {
        self.client1().control_queue.last()
    }

    /// What the server does with the COOKIE ECHO.
    pub open spec fn cookie_echo_handled(self) -> (AssociationView, ReplyView) {
        self.server1().handle_cookie_echo(only_cookie(self.cookie_echo()))
    }

    /// The server at the end.
    pub open spec fn server2(self) -> AssociationView {
        self.cookie_echo_handled().0
    }

    /// The client at the end.
    pub open spec fn client2(self) -> AssociationView {
        self.client1().handle_cookie_ack()
    }

    /// A client with a server that is ready for it.
    pub open spec fn is_possible(self) -> bool {
        &&& self.client.side is Client
        &&& self.client.is_valid()
        &&& self.server.tcb.state == AssociationState::Closed
    }
}

proof fn lemma_client0(h: Handshake)
    requires
        h.is_possible(),
    ensures
        ({
            let c = h.client0();
            let tsn = first_tsn(h.random);
            &&& c.tcb.state == AssociationState::CookieWait
            &&& c.tcb.peer.source_port == INIT_PORT
            &&& c.tcb.peer.destination_port == INIT_PORT
            &&& c.tcb.peer.peer_verification_tag == 0
            &&& c.tcb.conf.my_verification_tag == h.client.local_aid
            &&& c.tcb.tx.my_next_tsn == tsn
            &&& c.tcb.handshake_completed == false
            &&& c.events == Seq::<Event>::empty()
            &&& c.control_queue == seq![
                PacketView {
                    common_header: CommonHeader {
                        source_port: INIT_PORT,
                        destination_port: INIT_PORT,
                        verification_tag: 0,
                    },
                    chunks: seq![ChunkView::Init(h.client.init(tsn))],
                },
            ]
        }),
{
    reveal(Blueprint::build);
    reveal(AssociationView::send_init);
    assert(h.client0().control_queue =~= seq![
        PacketView {
            common_header: CommonHeader {
                source_port: INIT_PORT,
                destination_port: INIT_PORT,
                verification_tag: 0,
            },
            chunks: seq![ChunkView::Init(h.client.init(first_tsn(h.random)))],
        },
    ]);
}

proof fn lemma_announced(c: Seq<u8>)
    ensures
        announces_forward_tsn(seq![supported_extensions()]),
        announces_forward_tsn(seq![ParamView::StateCookie(c), supported_extensions()]),
{
    let types = supported_extensions()->SupportedExtensions_0;
    assert(types[1] == CT_FORWARD_TSN);
    assert(types.contains(CT_FORWARD_TSN));
    let ps = seq![supported_extensions()];
    assert(ps[0] == supported_extensions());
    let qs = seq![ParamView::StateCookie(c), supported_extensions()];
    assert(qs[1] == supported_extensions());
}

proof fn lemma_server1(h: Handshake)
    requires
        h.is_possible(),
    ensures
        ({
            let s = h.server1();
            let cookie = h.server.cookie_or(h.fresh);
            &&& s.my_cookie == Some(cookie)
            &&& s.tcb.state == AssociationState::Closed
            &&& s.tcb.peer.peer_verification_tag == h.client.local_aid
            &&& s.tcb.rx.peer_last_tsn == first_tsn(h.random).wrapping_sub(1)
            &&& s.tcb.peer.use_forward_tsn
            &&& s.tcb.conf == h.server.tcb.conf
            &&& s.tcb.tx == h.server.tcb.tx
            &&& s.events == h.server.events
            &&& h.init_handled().1 is Ok
            &&& h.init_ack() == (PacketView {
                common_header: CommonHeader {
                    source_port: INIT_PORT,
                    destination_port: INIT_PORT,
                    verification_tag: h.client.local_aid,
                },
                chunks: seq![ChunkView::Init(s.init_ack(cookie))],
            })
        }),
{
    lemma_client0(h);
    lemma_announced(h.server.cookie_or(h.fresh));
    reveal(AssociationView::handle_init);
    reveal(init_received);
    reveal(agreed);
}

proof fn lemma_client1(h: Handshake)
    requires
        h.is_possible(),
    ensures
        ({
            let c = h.client1();
            let s = h.server1();
            let cookie = h.server.cookie_or(h.fresh);
            &&& h.init_ack_handled().1 == no_packets()
            &&& c.tcb.state == AssociationState::CookieEchoed
            &&& c.tcb.peer.peer_verification_tag == h.server.tcb.conf.my_verification_tag
            &&& c.tcb.rx.peer_last_tsn == h.server.tcb.tx.my_next_tsn.wrapping_sub(1)
            &&& c.tcb.peer.use_forward_tsn
            &&& c.tcb.conf == h.client0().tcb.conf
            &&& c.tcb.tx == h.client0().tcb.tx
            &&& c.tcb.cc.rwnd == h.server.tcb.conf.max_receive_buffer_size
            &&& c.events == Seq::<Event>::empty()
            &&& c.stored_init is None
            &&& h.cookie_echo().chunks == seq![ChunkView::CookieEcho(cookie)]
        }),
{
    lemma_client0(h);
    lemma_server1(h);
    lemma_announced(h.server.cookie_or(h.fresh));
    reveal(AssociationView::handle_init_ack);
    reveal(AssociationView::accept_init_ack);
    reveal(AssociationView::send_cookie_echo);
    reveal(agreed);
    reveal(init_ack_received);
    reveal(cookie_echoed);
    let ps = seq![ParamView::StateCookie(h.server.cookie_or(h.fresh)), supported_extensions()];
    reveal_with_fuel(last_cookie, 3);
    assert(last_cookie(ps, 2) == Some(h.server.cookie_or(h.fresh)));
}

/// Four packets connect a new client with a server: both are established then and report it once,
/// each knows the tag of the other and expects its first TSN, and both use FORWARD TSN.
pub proof fn law_handshake_connects(h: Handshake)
    requires
        h.is_possible(),
    ensures
        h.init_handled().1 is Ok,
        h.init_ack_handled().1 == no_packets(),
        h.cookie_echo_handled().1 is Ok,
        only_packet(h.cookie_echo_handled().1).chunks == seq![ChunkView::CookieAck],
        h.server2().tcb.state == AssociationState::Established,
        h.client2().tcb.state == AssociationState::Established,
        h.server2().tcb.handshake_completed && h.client2().tcb.handshake_completed,
        h.server2().events == h.server.events.push(Event::Connected),
        h.client2().events == seq![Event::Connected],
        h.server2().tcb.peer.peer_verification_tag == h.client2().tcb.conf.my_verification_tag,
        h.client2().tcb.peer.peer_verification_tag == h.server2().tcb.conf.my_verification_tag,
        h.server2().tcb.rx.peer_last_tsn.wrapping_add(1) == h.client2().tcb.tx.my_next_tsn,
        h.client2().tcb.rx.peer_last_tsn.wrapping_add(1) == h.server2().tcb.tx.my_next_tsn,
        h.server2().tcb.peer.use_forward_tsn && h.client2().tcb.peer.use_forward_tsn,
{
    lemma_client0(h);
    lemma_server1(h);
    lemma_client1(h);
    reveal(AssociationView::handle_cookie_echo);
    reveal(AssociationView::connect);
    reveal(AssociationView::handle_cookie_ack);
    reveal(established);
    reveal(acknowledged);
    assert(h.client2().events =~= seq![Event::Connected]);
}

/// A cookie that is not the one of the association is answered with nothing and changes nothing.
pub proof fn law_wrong_cookie_changes_nothing(s: AssociationView, cookie: Seq<u8>)
    requires
        s.my_cookie != Some(cookie),
    ensures
        s.handle_cookie_echo(cookie) == (s, no_packets()),
{
    reveal(AssociationView::handle_cookie_echo);
}

/// The right cookie that comes again is acknowledged again, without another event.
pub proof fn law_cookie_echo_is_repeatable(s: AssociationView, cookie: Seq<u8>)
    requires
        s.my_cookie == Some(cookie),
        s.tcb.state == AssociationState::Closed,
    ensures
        ({
            let s1 = s.handle_cookie_echo(cookie).0;
            &&& s1.handle_cookie_echo(cookie).0 == s1
            &&& s1.handle_cookie_echo(cookie).1 == s.handle_cookie_echo(cookie).1
        }),
{
    reveal(AssociationView::handle_cookie_echo);
    reveal(AssociationView::connect);
    reveal(established);
}

/// An established association refuses an INIT and is not changed by it.
pub proof fn law_established_refuses_init(
    s: AssociationView,
    h: CommonHeader,
    i: InitView,
    fresh: Seq<u8>,
)
    requires
        s.tcb.state == AssociationState::Established,
    ensures
        s.handle_init(h, i, fresh) == (s, refused(Error::ErrHandleInitState)),
{
    reveal(AssociationView::handle_init);
}

/// Once an association has a cookie, it keeps it: every INIT is answered with the same one.
pub proof fn law_cookie_is_kept(
    s: AssociationView,
    h1: CommonHeader,
    i1: InitView,
    fresh1: Seq<u8>,
    h2: CommonHeader,
    i2: InitView,
    fresh2: Seq<u8>,
)
    requires
        s.handle_init(h1, i1, fresh1).1 is Ok,
    ensures
        s.handle_init(h1, i1, fresh1).0.handle_init(h2, i2, fresh2).0.my_cookie == s.handle_init(
            h1,
            i1,
            fresh1,
        ).0.my_cookie,
{
    reveal(AssociationView::handle_init);
}

/// An INIT ACK or COOKIE ACK that is not waited for changes nothing.
pub proof fn law_unexpected_acks_are_ignored(
    s: AssociationView,
    h: CommonHeader,
    i: InitView,
    now: Instant,
)
    ensures
        s.tcb.state != AssociationState::CookieWait ==> s.handle_init_ack(h, i, now) == (
            s,
            no_packets(),
        ),
        s.tcb.state != AssociationState::CookieEchoed ==> s.handle_cookie_ack() == s,
{
    reveal(AssociationView::handle_init_ack);
    reveal(AssociationView::handle_cookie_ack);
}

/// A new client sends an INIT at once, waits for its answer and repeats it after the initial
/// timeout; a new server sends nothing. Either may send at most as much as the initial window:
/// two MTUs and at least 4380 bytes, but never more than four MTUs.
pub proof fn law_new_association(b: Blueprint, random: u32, now: Instant)
    requires
        b.is_valid(),
    ensures
        b.side is Client ==> b.build(random, now).control_queue.len() == 1 && b.build(
            random,
            now,
        ).tcb.timers.t1_init.deadline is Some,
        b.side is Server ==> b.build(random, now).control_queue.len() == 0 && b.build(
            random,
            now,
        ).tcb.timers.first_deadline() is None,
        b.build(random, now).tcb.cc.cwnd == initial_cwnd(mtu_for(b.max_payload_size)),
        b.build(random, now).tcb.cc.cwnd <= 4 * b.build(random, now).tcb.conf.mtu,
        b.build(random, now).tcb.cc.cwnd == 4 * b.build(random, now).tcb.conf.mtu || (
        MIN_INITIAL_CWND <= b.build(random, now).tcb.cc.cwnd && 2 * b.build(
            random,
            now,
        ).tcb.conf.mtu <= b.build(random, now).tcb.cc.cwnd),
        b.build(random, now).tcb.tx.my_next_tsn != 0,
{
    reveal(Blueprint::build);
    reveal(AssociationView::send_init);
    reveal(TimerTable::started);
}

/// No more streams than both ends offer are agreed on, whatever INITs come.
pub proof fn law_streams_are_negotiated_down(t: Tcb, i: InitView)
    ensures
        agreed(t, i).peer.my_max_num_inbound_streams <= t.peer.my_max_num_inbound_streams,
        agreed(t, i).peer.my_max_num_inbound_streams <= i.num_inbound_streams,
        agreed(t, i).peer.my_max_num_outbound_streams <= t.peer.my_max_num_outbound_streams,
        agreed(t, i).peer.my_max_num_outbound_streams <= i.num_outbound_streams,
{
    reveal(agreed);
}

/// A HEARTBEAT is answered with what it holds.
pub proof fn law_heartbeat_is_echoed(s: AssociationView, info: Seq<u8>, more: Seq<ParamView>)
    ensures
        s.heartbeat_reply(seq![ParamView::HeartbeatInfo(info)] + more) == Ok::<
            Seq<PacketView>,
            ErrorView,
        >(
            seq![
                s.packet(seq![ChunkView::HeartbeatAck(seq![ParamView::HeartbeatInfo(info)])]),
            ],
        ),
{
    reveal(AssociationView::heartbeat_reply);
}

} // verus!
