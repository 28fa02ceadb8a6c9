//! The four-way handshake, and heartbeats.

use bytes::Bytes;
use vstd::prelude::*;

use crate::association::state::AssociationState;
use crate::association::timer::Timer;
use crate::association::view::{
    cookie_view, no_packets, refused, reply_view, Agreement, Association, AssociationView,
    Congestion, Event, Receiver, ReplyView, Tcb,
};
use crate::buffer::{bytes_clone, bytes_eq, bytes_view};
use crate::chunk::kinds::{
    announces_forward_tsn, supported_extensions, Chunk, ChunkCookieEcho, ChunkHeartbeat,
    ChunkHeartbeatAck, ChunkInit, ChunkView, InitView,
};
use crate::chunk::param::{param_views, Param, ParamHeartbeatInfo, ParamStateCookie, ParamView};
use crate::chunk::payload::Instant;
use crate::error::Error;
use crate::packet::{packet_views, CommonHeader, Packet};

verus! {

/// The port of both ends of an association that is opened here.
pub const INIT_PORT: u16 = 5000;

/// The lesser of two numbers.
pub open spec fn min16(a: u16, b: u16) -> u16 {
    if a <= b {
        a
    } else {
        b
    }
}

/// The lesser of two numbers.
fn lesser(a: u16, b: u16) -> (r: u16)
    ensures
        r == min16(a, b),
{
    if a <= b {
        a
    } else {
        b
    }
}

/// The last cookie among the first `n` parameters.
pub open spec fn last_cookie(ps: Seq<ParamView>, n: int) -> Option<Seq<u8>>
    decreases n,
{
    if n <= 0 {
        None
    } else {
        match ps[n - 1] {
            ParamView::StateCookie(c) => Some(c),
            _ => last_cookie(ps, n - 1),
        }
    }
}

/// What an INIT or INIT ACK settles: the peer's tag, no more streams than both ends offer, and
/// the TSN before the peer's first one.
#[verifier::opaque]
pub open spec fn agreed(t: Tcb, i: InitView) -> Tcb {
    Tcb {
        peer: Agreement {
            my_max_num_inbound_streams: min16(
                i.num_inbound_streams,
                t.peer.my_max_num_inbound_streams,
            ),
            my_max_num_outbound_streams: min16(
                i.num_outbound_streams,
                t.peer.my_max_num_outbound_streams,
            ),
            peer_verification_tag: i.initiate_tag,
            ..t.peer
        },
        rx: Receiver { peer_last_tsn: i.initial_tsn.wrapping_sub(1), ..t.rx },
        ..t
    }
}

/// What an INIT settles besides: the ports, and whether both ends know FORWARD TSN.
#[verifier::opaque]
pub open spec fn init_received(t: Tcb, h: CommonHeader, i: InitView) -> Tcb {
    let a = agreed(t, i);
    Tcb {
        peer: Agreement {
            source_port: h.destination_port,
            destination_port: h.source_port,
            use_forward_tsn: a.peer.use_forward_tsn || announces_forward_tsn(i.params),
            ..a.peer
        },
        ..a
    }
}

/// What an INIT ACK settles besides: the windows, and whether both ends know FORWARD TSN.
#[verifier::opaque]
pub open spec fn init_ack_received(t: Tcb, i: InitView) -> Tcb {
    Tcb {
        cc: Congestion {
            rwnd: i.advertised_receiver_window_credit,
            ssthresh: i.advertised_receiver_window_credit,
            ..t.cc
        },
        timers: t.timers.stopped(Timer::T1Init),
        peer: Agreement {
            use_forward_tsn: t.peer.use_forward_tsn || announces_forward_tsn(i.params),
            ..t.peer
        },
        ..t
    }
}

/// The cookie is on its way to the peer.
#[verifier::opaque]
pub open spec fn cookie_echoed(t: Tcb, now: Instant) -> Tcb {
    Tcb {
        timers: t.timers.started(Timer::T1Cookie, now, t.rto_mgr.rto),
        state: AssociationState::CookieEchoed,
        ..t
    }
}

/// The handshake is done.
#[verifier::opaque]
pub open spec fn established(t: Tcb) -> Tcb {
    Tcb {
        timers: t.timers.stopped(Timer::T1Init).stopped(Timer::T1Cookie),
        state: AssociationState::Established,
        handshake_completed: true,
        ..t
    }
}

/// The handshake is done on the side that sent the cookie.
#[verifier::opaque]
pub open spec fn acknowledged(t: Tcb) -> Tcb {
    Tcb {
        timers: t.timers.stopped(Timer::T1Cookie),
        state: AssociationState::Established,
        handshake_completed: true,
        ..t
    }
}

/// The ports of an association that is opened here.
pub open spec fn with_init_ports(t: Tcb) -> Tcb {
    Tcb {
        peer: Agreement { source_port: INIT_PORT, destination_port: INIT_PORT, ..t.peer },
        ..t
    }
}

impl AssociationView {
    /// The stored INIT goes out, if there is one.
    #[verifier::opaque]
    pub open spec fn send_init(self) -> AssociationView {
        match self.stored_init {
            None => self,
            Some(i) => {
                let s = self.with(with_init_ports(self.tcb));
                s.enqueue(s.packet(seq![ChunkView::Init(i)]))
            },
        }
    }

    /// The stored COOKIE ECHO goes out, if there is one.
    #[verifier::opaque]
    pub open spec fn send_cookie_echo(self) -> AssociationView {
        match self.stored_cookie_echo {
            None => self,
            Some(c) => self.enqueue(self.packet(seq![ChunkView::CookieEcho(c)])),
        }
    }

    /// The INIT ACK that answers an INIT.
    pub open spec fn init_ack(self, cookie: Seq<u8>) -> InitView {
        InitView {
            is_ack: true,
            initial_tsn: self.tcb.tx.my_next_tsn,
            num_outbound_streams: self.tcb.peer.my_max_num_outbound_streams,
            num_inbound_streams: self.tcb.peer.my_max_num_inbound_streams,
            initiate_tag: self.tcb.conf.my_verification_tag,
            advertised_receiver_window_credit: self.tcb.conf.max_receive_buffer_size,
            params: seq![ParamView::StateCookie(cookie), supported_extensions()],
        }
    }

    /// The cookie of this association; `fresh` if it has none yet.
    pub open spec fn cookie_or(self, fresh: Seq<u8>) -> Seq<u8> {
        match self.my_cookie {
            Some(c) => c,
            None => fresh,
        }
    }

    /// What an INIT does: before the association is established, it is answered with an INIT
    /// ACK that carries the cookie. `fresh` is the cookie of an association that has none yet.
    #[verifier::opaque]
    pub open spec fn handle_init(
        self,
        h: CommonHeader,
        i: InitView,
        fresh: Seq<u8>,
    ) -> (AssociationView, ReplyView) {
        if self.tcb.state != AssociationState::Closed && self.tcb.state
            != AssociationState::CookieWait && self.tcb.state != AssociationState::CookieEchoed {
            (self, refused(Error::ErrHandleInitState))
        } else {
            let cookie = self.cookie_or(fresh);
            let s = AssociationView {
                my_cookie: Some(cookie),
                ..self.with(init_received(self.tcb, h, i))
            };
            (s, Ok(seq![s.packet(seq![ChunkView::Init(s.init_ack(cookie))])]))
        }
    }

    /// What an INIT ACK does once its ports are right: the cookie goes back to the peer.
    #[verifier::opaque]
    pub open spec fn accept_init_ack(self, i: InitView, now: Instant) -> (
        AssociationView,
        ReplyView,
    ) {
        let s = AssociationView { stored_init: None, ..self.with(init_ack_received(self.tcb, i)) };
        match last_cookie(i.params, i.params.len() as int) {
            None => (s, refused(Error::ErrInitAckNoCookie)),
            Some(c) => {
                let s1 = AssociationView { stored_cookie_echo: Some(c), ..s }.send_cookie_echo();
                (s1.with(cookie_echoed(s1.tcb, now)), no_packets())
            },
        }
    }

    /// What an INIT ACK does: in the state `CookieWait` only, and if it comes from the port that
    /// the INIT went to.
    #[verifier::opaque]
    pub open spec fn handle_init_ack(self, h: CommonHeader, i: InitView, now: Instant) -> (
        AssociationView,
        ReplyView,
    ) {
        if self.tcb.state != AssociationState::CookieWait {
            (self, no_packets())
        } else {
            let s = self.with(agreed(self.tcb, i));
            if s.tcb.peer.source_port != h.destination_port || s.tcb.peer.destination_port
                != h.source_port {
                (s, no_packets())
            } else {
                s.accept_init_ack(i, now)
            }
        }
    }

    /// A HEARTBEAT is answered with what it holds.
    #[verifier::opaque]
    pub open spec fn heartbeat_reply(self, ps: Seq<ParamView>) -> ReplyView {
        if ps.len() > 0 {
            match ps[0] {
                ParamView::HeartbeatInfo(info) => Ok(
                    seq![
                        self.packet(
                            seq![ChunkView::HeartbeatAck(seq![ParamView::HeartbeatInfo(info)])],
                        ),
                    ],
                ),
                _ => no_packets(),
            }
        } else {
            no_packets()
        }
    }

    /// The answer to a cookie that is right.
    pub open spec fn cookie_ack(self) -> ReplyView {
        Ok(seq![self.packet(seq![ChunkView::CookieAck])])
    }

    /// The association once the peer returned the cookie.
    #[verifier::opaque]
    pub open spec fn connect(self) -> AssociationView {
        AssociationView {
            stored_init: None,
            stored_cookie_echo: None,
            ..self.with(established(self.tcb)).notify(Event::Connected)
        }
    }

    /// What a COOKIE ECHO does: with the right cookie it completes the handshake, or is
    /// acknowledged again.
    #[verifier::opaque]
    pub open spec fn handle_cookie_echo(self, cookie: Seq<u8>) -> (AssociationView, ReplyView) {
        if self.my_cookie != Some(cookie) {
            (self, no_packets())
        } else {
            match self.tcb.state {
                AssociationState::Established => (self, self.cookie_ack()),
                AssociationState::Closed => (self.connect(), self.connect().cookie_ack()),
                AssociationState::CookieWait => (self.connect(), self.connect().cookie_ack()),
                AssociationState::CookieEchoed => (self.connect(), self.connect().cookie_ack()),
                _ => (self, no_packets()),
            }
        }
    }

    /// What a COOKIE ACK does: in the state `CookieEchoed` it completes the handshake.
    #[verifier::opaque]
    pub open spec fn handle_cookie_ack(self) -> AssociationView {
        if self.tcb.state != AssociationState::CookieEchoed {
            self
        } else {
            AssociationView {
                stored_cookie_echo: None,
                ..self.with(acknowledged(self.tcb)).notify(Event::Connected)
            }
        }
    }
}

/// Takes over what an INIT or INIT ACK settles.
fn agree(t: &mut Tcb, i: &ChunkInit)
    ensures
        *final(t) == agreed(*old(t), i@),
{
    reveal(agreed);
    t.peer.my_max_num_inbound_streams = lesser(
        i.num_inbound_streams,
        t.peer.my_max_num_inbound_streams,
    );
    t.peer.my_max_num_outbound_streams = lesser(
        i.num_outbound_streams,
        t.peer.my_max_num_outbound_streams,
    );
    t.peer.peer_verification_tag = i.initiate_tag;
    t.rx.peer_last_tsn = i.initial_tsn.wrapping_sub(1);
}

/// Takes over what an INIT settles.
fn receive_init(t: &mut Tcb, h: CommonHeader, i: &ChunkInit)
    ensures
        *final(t) == init_received(*old(t), h, i@),
{
    reveal(init_received);
    agree(t, i);
    t.peer.source_port = h.destination_port;
    t.peer.destination_port = h.source_port;
    if i.supports_forward_tsn() {
        t.peer.use_forward_tsn = true;
    }
}

/// Takes over what an INIT ACK settles.
fn receive_init_ack(t: &mut Tcb, i: &ChunkInit)
    ensures
        *final(t) == init_ack_received(*old(t), i@),
{
    reveal(init_ack_received);
    t.cc.rwnd = i.advertised_receiver_window_credit;
    // The initial value of ssthresh may be the size of the receiver's advertised window.
    t.cc.ssthresh = i.advertised_receiver_window_credit;
    t.timers.stop(Timer::T1Init);
    if i.supports_forward_tsn() {
        t.peer.use_forward_tsn = true;
    }
}

/// Takes note that the cookie is on its way.
fn echo_cookie(t: &mut Tcb, now: Instant)
    ensures
        *final(t) == cookie_echoed(*old(t), now),
{
    reveal(cookie_echoed);
    let rto = t.rto_mgr.get_rto();
    t.timers.start(Timer::T1Cookie, now, rto);
    t.state = AssociationState::CookieEchoed;
}

/// Takes note that the handshake is done.
fn establish(t: &mut Tcb)
    ensures
        *final(t) == established(*old(t)),
{
    reveal(established);
    t.timers.stop(Timer::T1Init);
    t.timers.stop(Timer::T1Cookie);
    t.state = AssociationState::Established;
    t.handshake_completed = true;
}

/// Takes note that the peer acknowledged the cookie.
fn acknowledge(t: &mut Tcb)
    ensures
        *final(t) == acknowledged(*old(t)),
{
    reveal(acknowledged);
    t.timers.stop(Timer::T1Cookie);
    t.state = AssociationState::Established;
    t.handshake_completed = true;
}

/// The last cookie of a parameter list.
fn find_cookie(ps: &Vec<Param>) -> (r: Option<ParamStateCookie>)
    ensures
        cookie_view(r) == last_cookie(param_views(ps@), ps@.len() as int),
{
    let mut n: usize = ps.len();
    while n > 0
        invariant
            n <= ps.len(),
            last_cookie(param_views(ps@), ps@.len() as int) == last_cookie(
                param_views(ps@),
                n as int,
            ),
        decreases n,
    {
        assert(param_views(ps@)[n - 1] == ps@[n - 1]@);
        if let Param::StateCookie(c) = &ps[n - 1] {
            return Some(c.clone());
        }
        n -= 1;
    }
    None
}

/// An answer of one packet.
pub fn one_packet(p: Packet) -> (r: Vec<Packet>)
    ensures
        packet_views(r@) == seq![p@],
{
    let ghost pv = p@;
    let mut r: Vec<Packet> = Vec::new();
    r.push(p);
    assert(packet_views(r@) =~= seq![pv]);
    r
}

/// An answer without packets.
pub fn no_reply() -> (r: Result<Vec<Packet>, Error>)
    ensures
        reply_view(r) == no_packets(),
{
    let none: Vec<Packet> = Vec::new();
    assert(packet_views(none@) =~= seq![]);
    Ok(none)
}

impl Association {
    /// Puts a packet behind the ones that wait.
    pub fn enqueue(&mut self, p: Packet)
        requires
            old(self)@.wf(),
        ensures
            final(self)@ == old(self)@.enqueue(p@),
            final(self)@.wf(),
    {
        let ghost pv = p@;
        self.control_queue.push_back(p);
        assert(self@.control_queue =~= old(self)@.control_queue.push(pv));
    }

    /// Sends the stored INIT.
    pub fn send_init(&mut self) -> (r: Result<(), Error>)
        requires
            old(self)@.wf(),
        ensures
            final(self)@ == old(self)@.send_init(),
            r == (if old(self)@.stored_init is Some {
                Ok::<(), Error>(())
            } else {
                Err::<(), Error>(Error::ErrInitNotStoredToSend)
            }),
            final(self)@.wf(),
    {
        reveal(AssociationView::send_init);
        let init = match &self.stored_init {
            Some(i) => i.clone(),
            None => {
                return Err(Error::ErrInitNotStoredToSend);
            },
        };
        self.tcb.peer.source_port = INIT_PORT;
        self.tcb.peer.destination_port = INIT_PORT;
        let p = self.wrap(Chunk::Init(init));
        self.enqueue(p);
        Ok(())
    }

    /// Sends the stored COOKIE ECHO.
    pub fn send_cookie_echo(&mut self) -> (r: Result<(), Error>)
        requires
            old(self)@.wf(),
        ensures
            final(self)@ == old(self)@.send_cookie_echo(),
            r == (if old(self)@.stored_cookie_echo is Some {
                Ok::<(), Error>(())
            } else {
                Err::<(), Error>(Error::ErrCookieEchoNotStoredToSend)
            }),
            final(self)@.wf(),
    {
        reveal(AssociationView::send_cookie_echo);
        let echo = match &self.stored_cookie_echo {
            Some(c) => c.clone(),
            None => {
                return Err(Error::ErrCookieEchoNotStoredToSend);
            },
        };
        let p = self.wrap(Chunk::CookieEcho(echo));
        self.enqueue(p);
        Ok(())
    }

    /// The INIT ACK that answers an INIT.
    fn create_init_ack(&self, cookie: &Bytes) -> (r: ChunkInit)
        ensures
            r@ == self@.init_ack(bytes_view(*cookie)),
    {
        let mut params: Vec<Param> = Vec::new();
        params.push(Param::StateCookie(ParamStateCookie { cookie: bytes_clone(cookie) }));
        let mut init_ack = ChunkInit {
            is_ack: true,
            initial_tsn: self.tcb.tx.my_next_tsn,
            num_outbound_streams: self.tcb.peer.my_max_num_outbound_streams,
            num_inbound_streams: self.tcb.peer.my_max_num_inbound_streams,
            initiate_tag: self.tcb.conf.my_verification_tag,
            advertised_receiver_window_credit: self.tcb.conf.max_receive_buffer_size,
            params,
        };
        init_ack.set_supported_extensions();
        assert(init_ack@.params =~= seq![
            ParamView::StateCookie(bytes_view(*cookie)),
            supported_extensions(),
        ]);
        init_ack
    }

    /// Handles an INIT chunk. `fresh` is the cookie of an association that has none yet.
    pub fn handle_init(&mut self, p: &Packet, i: &ChunkInit, fresh: &Bytes) -> (r: Result<
        Vec<Packet>,
        Error,
    >)
        requires
            old(self)@.wf(),
        ensures
            (final(self)@, reply_view(r)) == old(self)@.handle_init(
                p@.common_header,
                i@,
                bytes_view(*fresh),
            ),
            final(self)@.wf(),
    {
        reveal(AssociationView::handle_init);
        let state = self.tcb.state;
        if state != AssociationState::Closed && state != AssociationState::CookieWait && state
            != AssociationState::CookieEchoed {
            return Err(Error::ErrHandleInitState);
        }
        let cookie = match &self.my_cookie {
            Some(c) => bytes_clone(&c.cookie),
            None => bytes_clone(fresh),
        };
        receive_init(&mut self.tcb, p.common_header, i);
        let init_ack = self.create_init_ack(&cookie);
        self.my_cookie = Some(ParamStateCookie { cookie });
        let p = self.wrap(Chunk::Init(init_ack));
        Ok(one_packet(p))
    }

    /// Handles an INIT ACK chunk once its ports are right.
    fn take_init_ack(&mut self, i: &ChunkInit, now: Instant) -> (r: Result<Vec<Packet>, Error>)
        requires
            old(self)@.wf(),
        ensures
            (final(self)@, reply_view(r)) == old(self)@.accept_init_ack(i@, now),
            final(self)@.wf(),
    {
        reveal(AssociationView::accept_init_ack);
        receive_init_ack(&mut self.tcb, i);
        self.stored_init = None;
        let cookie = match find_cookie(&i.params) {
            Some(c) => c.cookie,
            None => {
                return Err(Error::ErrInitAckNoCookie);
            },
        };
        self.stored_cookie_echo = Some(ChunkCookieEcho { cookie });
        if let Err(e) = self.send_cookie_echo() {
            return Err(e);
        }
        echo_cookie(&mut self.tcb, now);
        no_reply()
    }

    /// Handles an INIT ACK chunk.
    pub fn handle_init_ack(&mut self, p: &Packet, i: &ChunkInit, now: Instant) -> (r: Result<
        Vec<Packet>,
        Error,
    >)
        requires
            old(self)@.wf(),
        ensures
            (final(self)@, reply_view(r)) == old(self)@.handle_init_ack(p@.common_header, i@, now),
            final(self)@.wf(),
    {
        reveal(AssociationView::handle_init_ack);
        if self.tcb.state != AssociationState::CookieWait {
            // If an INIT ACK is received by an endpoint in any state other than the COOKIE-WAIT
            // state, the endpoint should discard the INIT ACK chunk.
            return no_reply();
        }
        agree(&mut self.tcb, i);
        if self.tcb.peer.source_port != p.common_header.destination_port
            || self.tcb.peer.destination_port != p.common_header.source_port {
            return no_reply();
        }
        self.take_init_ack(i, now)
    }

    /// Handles a HEARTBEAT chunk.
    pub fn handle_heartbeat(&self, c: &ChunkHeartbeat) -> (r: Result<Vec<Packet>, Error>)
        ensures
            reply_view(r) == self@.heartbeat_reply(param_views(c.params@)),
    {
        reveal(AssociationView::heartbeat_reply);
        if c.params.len() > 0 {
            assert(param_views(c.params@)[0] == c.params@[0]@);
            if let Param::HeartbeatInfo(hbi) = &c.params[0] {
                let info = bytes_clone(&hbi.heartbeat_information);
                let mut params: Vec<Param> = Vec::new();
                params.push(
                    Param::HeartbeatInfo(ParamHeartbeatInfo { heartbeat_information: info }),
                );
                assert(param_views(params@) =~= seq![
                    ParamView::HeartbeatInfo(bytes_view(hbi.heartbeat_information)),
                ]);
                let p = self.wrap(Chunk::HeartbeatAck(ChunkHeartbeatAck { params }));
                return Ok(one_packet(p));
            }
        }
        no_reply()
    }

    /// Completes the handshake after the peer returned the cookie.
    fn complete_handshake(&mut self)
        requires
            old(self)@.wf(),
        ensures
            final(self)@ == old(self)@.connect(),
            final(self)@.wf(),
    {
        reveal(AssociationView::connect);
        establish(&mut self.tcb);
        self.stored_init = None;
        self.stored_cookie_echo = None;
        self.events.push_back(Event::Connected);
    }

    /// The answer to a cookie that is right.
    fn acknowledge_cookie(&self) -> (r: Result<Vec<Packet>, Error>)
        ensures
            reply_view(r) == self@.cookie_ack(),
    {
        let p = self.wrap(Chunk::CookieAck);
        Ok(one_packet(p))
    }

    /// Handles a COOKIE ECHO chunk.
    pub fn handle_cookie_echo(&mut self, c: &ChunkCookieEcho) -> (r: Result<Vec<Packet>, Error>)
        requires
            old(self)@.wf(),
        ensures
            (final(self)@, reply_view(r)) == old(self)@.handle_cookie_echo(bytes_view(c.cookie)),
            final(self)@.wf(),
    {
        reveal(AssociationView::handle_cookie_echo);
        let right = match &self.my_cookie {
            Some(my_cookie) => bytes_eq(&my_cookie.cookie, &c.cookie),
            None => false,
        };
        if !right {
            return no_reply();
        }
        match self.tcb.state {
            AssociationState::Established => self.acknowledge_cookie(),
            AssociationState::Closed => {
                self.complete_handshake();
                self.acknowledge_cookie()
            },
            AssociationState::CookieWait => {
                self.complete_handshake();
                self.acknowledge_cookie()
            },
            AssociationState::CookieEchoed => {
                self.complete_handshake();
                self.acknowledge_cookie()
            },
            _ => no_reply(),
        }
    }

    /// Handles a COOKIE ACK chunk.
    pub fn handle_cookie_ack(&mut self) -> (r: Result<Vec<Packet>, Error>)
        requires
            old(self)@.wf(),
        ensures
            final(self)@ == old(self)@.handle_cookie_ack(),
            reply_view(r) == no_packets(),
            final(self)@.wf(),
    {
        reveal(AssociationView::handle_cookie_ack);
        if self.tcb.state == AssociationState::CookieEchoed {
            acknowledge(&mut self.tcb);
            self.stored_cookie_echo = None;
            self.events.push_back(Event::Connected);
        }
        // At any state other than COOKIE-ECHOED, an endpoint should silently discard a received
        // COOKIE ACK chunk.
        no_reply()
    }
}

} // verus!
