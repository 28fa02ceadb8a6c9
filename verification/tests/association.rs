use bytes::Bytes;
use sctp_proto::association::state::{AckMode, AckState, AssociationState};
use sctp_proto::association::stream::StreamEvent;
use sctp_proto::association::timer::{calculate_next_timeout, RtoManager, Timer};
use sctp_proto::association::view::{Association, AssociationError, Event};
use sctp_proto::chunk::kinds::{
    Chunk, ChunkAbort, ChunkCookieEcho, ChunkError, ChunkForwardTsn, ChunkForwardTsnStream,
    ChunkHeartbeat, ChunkHeartbeatAck, ChunkInit, ChunkReconfig, ChunkSelectiveAck, ChunkShutdown,
    GapAckBlock,
};
use sctp_proto::chunk::param::{
    Param, ParamHeartbeatInfo, ParamOutgoingResetRequest, ParamReconfigResponse, ReconfigResult,
};
use sctp_proto::chunk::payload::{ChunkPayloadData, PayloadProtocolIdentifier};
use sctp_proto::chunk::tlv::Tlv;
use sctp_proto::config::{ServerConfig, TransportConfig};
use sctp_proto::error::Error;
use sctp_proto::packet::{CommonHeader, Packet, PartialDecode};
use sctp_proto::shared::{
    AssociationEvent, AssociationEventInner, IpAddr, Payload, Side, SocketAddr, Transmit,
};
use std::sync::Arc;

const MS: u64 = 1_000_000;
const MTU: u32 = 1228;

fn addr(port: u16) -> SocketAddr {
    SocketAddr { ip: IpAddr::V4(0x7f00_0001), port, flowinfo: 0, scope_id: 0 }
}

fn config() -> TransportConfig {
    TransportConfig {
        max_receive_buffer_size: 100_000,
        max_message_size: 65536,
        max_num_outbound_streams: 10,
        max_num_inbound_streams: 20,
    }
}

fn client() -> Association {
    Association::new_with_random(None, Arc::new(config()), 1200, 111, addr(1), None, 0, 1000)
}

fn server() -> Association {
    let transport = config();
    Association::new_with_random(
        Some(Arc::new(ServerConfig { transport })),
        Arc::new(transport),
        1200,
        222,
        addr(2),
        Some(IpAddr::V4(5)),
        0,
        5000,
    )
}

fn outgoing(a: &mut Association, now: u64) -> Vec<Bytes> {
    match a.poll_transmit(now) {
        None => vec![],
        Some(t) => match t.payload {
            Payload::RawEncode(v) => v,
            Payload::PartialDecode(_) => panic!("not an outgoing datagram"),
        },
    }
}

fn packets(a: &mut Association, now: u64) -> Vec<Packet> {
    outgoing(a, now).iter().map(|raw| Packet::unmarshal(raw).unwrap()).collect()
}

fn deliver(a: &mut Association, raw: &Bytes, now: u64) {
    let d = PartialDecode::unmarshal(raw).unwrap();
    a.handle_event(AssociationEvent(AssociationEventInner::Datagram(Transmit {
        now,
        remote: addr(9),
        ecn: None,
        local_ip: None,
        payload: Payload::PartialDecode(d),
    })));
}

fn pump(from: &mut Association, to: &mut Association, now: u64) -> usize {
    let raws = outgoing(from, now);
    for raw in &raws {
        deliver(to, raw, now);
    }
    raws.len()
}

fn connected() -> (Association, Association) {
    let mut a = client();
    let mut b = server();
    for _ in 0..2 {
        pump(&mut a, &mut b, 10 * MS);
        pump(&mut b, &mut a, 10 * MS);
    }
    assert!(matches!(a.poll(), Some(Event::Connected)));
    assert!(matches!(b.poll(), Some(Event::Connected)));
    (a, b)
}

/// Why the association was lost, if that is the next event.
fn lost(a: &mut Association) -> Option<AssociationError> {
    match a.poll() {
        Some(Event::AssociationLost { reason }) => Some(reason),
        _ => None,
    }
}

fn message(text: &[u8]) -> ChunkPayloadData {
    let mut c = ChunkPayloadData::default();
    c.beginning_fragment = true;
    c.ending_fragment = true;
    c.stream_identifier = 1;
    c.payload_type = PayloadProtocolIdentifier::Binary;
    c.user_data = Bytes::copy_from_slice(text);
    c
}

fn messages(n: u16, size: usize) -> Vec<ChunkPayloadData> {
    (0..n)
        .map(|k| {
            let mut c = message(&vec![k as u8; size]);
            c.stream_sequence_number = k;
            c
        })
        .collect()
}

fn sack(cum: u32, blocks: Vec<GapAckBlock>) -> ChunkSelectiveAck {
    ChunkSelectiveAck {
        cumulative_tsn_ack: cum,
        advertised_receiver_window_credit: 100_000,
        gap_ack_blocks: blocks,
        duplicate_tsn: vec![],
    }
}

fn header() -> CommonHeader {
    CommonHeader { source_port: 5000, destination_port: 5000, verification_tag: 1 }
}

fn packet(chunk: Chunk) -> Packet {
    Packet { common_header: header(), chunks: vec![chunk] }
}

/// Hands over a chunk in a packet of its own.
fn hand(a: &mut Association, chunk: Chunk, now: u64) -> Result<(), Error> {
    a.handle_inbound(&packet(chunk), now)
}

fn data(tsn: u32, ssn: u16, text: &[u8]) -> ChunkPayloadData {
    let mut c = message(text);
    c.tsn = tsn;
    c.stream_sequence_number = ssn;
    c
}

fn read(a: &mut Association, si: u16) -> Option<Vec<u8>> {
    let m = a.streams.get_mut(&si).unwrap().reassembly_queue.read()?;
    let mut v = Vec::new();
    for c in &m {
        v.extend_from_slice(&c.user_data);
    }
    Some(v)
}

#[test]
fn a_new_client_sends_an_init() {
    let mut a = client();
    assert_eq!(a.side(), Side::Client);
    assert_eq!(a.remote_addr(), addr(1));
    assert_eq!(a.local_ip(), None);
    assert_eq!(a.state(), AssociationState::CookieWait);
    assert!(a.is_handshaking());
    assert!(!a.is_closed());
    assert_eq!(a.rtt(), 0);
    assert_eq!(a.tcb.conf.mtu, MTU);
    assert_eq!(a.tcb.cc.cwnd, 4380);
    assert_eq!(a.poll_timeout(), Some(3000 * MS));
    assert!(!a.is_idle());
    let ps = packets(&mut a, 0);
    assert_eq!(ps.len(), 1);
    assert_eq!(ps[0].common_header.verification_tag, 0);
    match &ps[0].chunks[0] {
        Chunk::Init(i) => {
            assert!(!i.is_ack);
            assert_eq!(i.initiate_tag, 111);
            assert_eq!(i.initial_tsn, 1000);
            assert_eq!(i.num_outbound_streams, 10);
            assert_eq!(i.num_inbound_streams, 20);
            assert_eq!(i.advertised_receiver_window_credit, 100_000);
            assert!(i.supports_forward_tsn());
        }
        other => panic!("{:?}", other),
    }
    assert!(a.poll_transmit(0).is_none());
}

#[test]
fn a_new_server_waits() {
    let mut b = server();
    assert_eq!(b.side(), Side::Server);
    assert_eq!(b.local_ip(), Some(IpAddr::V4(5)));
    assert_eq!(b.state(), AssociationState::Closed);
    assert!(b.is_drained());
    assert!(b.is_idle());
    assert_eq!(b.poll_timeout(), None);
    assert!(b.poll_transmit(0).is_none());
    assert!(b.poll().is_none());
}

#[test]
fn a_default_association_is_blank() {
    let a = Association::default();
    assert_eq!(a.state(), AssociationState::Closed);
    assert_eq!(a.rtt(), 0);
    assert_eq!(a.bytes_sent(), 0);
    assert_eq!(a.bytes_received(), 0);
    assert_eq!(a.stats().n_datas, 0);
    assert_eq!(a.max_message_size(), 0);
}

#[test]
fn first_numbers_are_random_and_not_zero() {
    let mut tsns = Vec::new();
    for _ in 0..8 {
        let a = Association::new(None, Arc::new(config()), 1200, 1, addr(1), None, 0);
        assert_ne!(a.tcb.tx.my_next_tsn, 0);
        assert_eq!(a.tcb.tx.cumulative_tsn_ack_point, a.tcb.tx.my_next_tsn.wrapping_sub(1));
        tsns.push(a.tcb.tx.my_next_tsn);
    }
    assert!(tsns.iter().any(|t| *t != tsns[0]));
    let zero =
        Association::new_with_random(None, Arc::new(config()), 1200, 1, addr(1), None, 0, 0);
    assert_eq!(zero.tcb.tx.my_next_tsn, 1);
}

#[test]
fn larger_packets_start_with_a_larger_window() {
    let a = Association::new_with_random(None, Arc::new(config()), 3000, 1, addr(1), None, 0, 1);
    assert_eq!(a.tcb.cc.cwnd, 2 * 3028);
}

#[test]
fn the_first_window_is_bounded_by_four_packets() {
    let made = |size| {
        Association::new_with_random(None, Arc::new(config()), size, 1, addr(1), None, 0, 1)
    };
    // min(4 * MTU, max(2 * MTU, 4380)) with an MTU of 28 more than the size
    for (size, cwnd) in [(0, 112), (100, 512), (1066, 4376), (1067, 4380), (2162, 4380), (2163, 4382)]
    {
        let a = made(size);
        assert_eq!(a.tcb.conf.mtu, size + 28);
        assert_eq!(a.tcb.cc.cwnd, cwnd);
    }
}

#[test]
fn a_client_tells_no_address_of_its_own() {
    let ip = Some(IpAddr::V4(5));
    let a = Association::new_with_random(None, Arc::new(config()), 1200, 1, addr(1), ip, 0, 1);
    assert_eq!(a.local_ip(), None);
}

#[test]
fn handshake_connects_both_sides() {
    let mut a = client();
    let mut b = server();
    assert_eq!(pump(&mut a, &mut b, MS), 1);
    assert_eq!(b.state(), AssociationState::Closed);
    assert_eq!(b.my_cookie.as_ref().unwrap().cookie.len(), 32);
    assert_eq!(pump(&mut b, &mut a, MS), 1);
    assert_eq!(a.state(), AssociationState::CookieEchoed);
    assert_eq!(pump(&mut a, &mut b, MS), 1);
    assert_eq!(b.state(), AssociationState::Established);
    assert!(matches!(b.poll(), Some(Event::Connected)));
    assert_eq!(pump(&mut b, &mut a, MS), 1);
    assert_eq!(a.state(), AssociationState::Established);
    assert!(matches!(a.poll(), Some(Event::Connected)));
    assert!(!a.is_handshaking() && !b.is_handshaking());
    assert_eq!(a.tcb.peer.peer_verification_tag, 222);
    assert_eq!(b.tcb.peer.peer_verification_tag, 111);
    assert_eq!(a.tcb.rx.peer_last_tsn, 4999);
    assert_eq!(b.tcb.rx.peer_last_tsn, 999);
    assert!(a.tcb.peer.use_forward_tsn && b.tcb.peer.use_forward_tsn);
    assert_eq!(b.tcb.peer.my_max_num_inbound_streams, 20);
    assert_eq!(b.tcb.peer.my_max_num_outbound_streams, 10);
    assert!(a.is_idle() && b.is_idle());
}

#[test]
fn cookies_differ() {
    let mut cookies = Vec::new();
    for _ in 0..2 {
        let mut a = client();
        let mut b = server();
        pump(&mut a, &mut b, MS);
        cookies.push(b.my_cookie.unwrap().cookie);
    }
    assert_ne!(cookies[0], cookies[1]);
}

#[test]
fn a_cookie_is_kept() {
    let mut a = client();
    let mut b = server();
    let raw = outgoing(&mut a, 0);
    deliver(&mut b, &raw[0], 0);
    let first = b.my_cookie.as_ref().unwrap().cookie.clone();
    deliver(&mut b, &raw[0], 0);
    assert_eq!(b.my_cookie.as_ref().unwrap().cookie, first);
}

#[test]
fn a_wrong_cookie_does_nothing() {
    let mut a = client();
    let mut b = server();
    pump(&mut a, &mut b, 0);
    outgoing(&mut b, 0);
    let echo = ChunkCookieEcho { cookie: Bytes::from_static(b"guess") };
    assert_eq!(hand(&mut b, Chunk::CookieEcho(echo), 0), Ok(()));
    assert_eq!(b.state(), AssociationState::Closed);
    assert!(outgoing(&mut b, 0).is_empty());
    assert!(b.poll().is_none());
}

#[test]
fn a_cookie_echo_can_be_repeated() {
    let (_a, mut b) = connected();
    let cookie = b.my_cookie.as_ref().unwrap().cookie.clone();
    assert_eq!(hand(&mut b, Chunk::CookieEcho(ChunkCookieEcho { cookie }), 0), Ok(()));
    let ps = packets(&mut b, 0);
    assert_eq!(ps.len(), 1);
    assert!(matches!(ps[0].chunks[0], Chunk::CookieAck));
    assert!(b.poll().is_none());
}

#[test]
fn unexpected_acks_do_nothing() {
    let (mut a, _b) = connected();
    assert_eq!(hand(&mut a, Chunk::CookieAck, 0), Ok(()));
    assert!(a.poll().is_none());
    assert_eq!(hand(&mut a, Chunk::ShutdownAck, 0), Ok(()));
    assert_eq!(hand(&mut a, Chunk::ShutdownComplete, 0), Ok(()));
    assert_eq!(a.state(), AssociationState::Established);
}

fn init_chunk(is_ack: bool) -> ChunkInit {
    ChunkInit {
        is_ack,
        initiate_tag: 5,
        advertised_receiver_window_credit: 9000,
        num_outbound_streams: 1,
        num_inbound_streams: 1,
        initial_tsn: 7,
        params: vec![],
    }
}

#[test]
fn init_in_an_established_association_closes_it() {
    let (mut a, _b) = connected();
    let p = Packet {
        common_header: CommonHeader { verification_tag: 0, ..header() },
        chunks: vec![Chunk::Init(init_chunk(false))],
    };
    assert_eq!(
        a.handle_init(&p, &init_chunk(false), &Bytes::new()).unwrap_err(),
        Error::ErrHandleInitState
    );
    let raw = p.marshal().unwrap();
    deliver(&mut a, &raw, 0);
    assert!(a.is_closed());
    assert_eq!(lost(&mut a), Some(AssociationError::TransportError));
}

#[test]
fn init_ack_without_a_cookie_is_refused() {
    let mut a = client();
    assert_eq!(hand(&mut a, Chunk::Init(init_chunk(true)), 0), Err(Error::ErrInitAckNoCookie));
}

#[test]
fn init_ack_out_of_turn_is_ignored() {
    let (mut a, _b) = connected();
    assert_eq!(hand(&mut a, Chunk::Init(init_chunk(true)), 0), Ok(()));
    assert_eq!(a.state(), AssociationState::Established);
}

#[test]
fn what_is_not_stored_cannot_be_sent() {
    let mut b = server();
    assert_eq!(b.send_init(), Err(Error::ErrInitNotStoredToSend));
    assert_eq!(b.send_cookie_echo(), Err(Error::ErrCookieEchoNotStoredToSend));
}

#[test]
fn bad_chunks_and_packets() {
    let (mut a, _b) = connected();
    // a packet that fails its check does nothing
    let mut p = packet(Chunk::ShutdownAck);
    p.common_header.source_port = 0;
    assert_eq!(a.handle_inbound(&p, 0), Ok(()));
    // a chunk that fails its check is an error
    let mut i = init_chunk(true);
    i.initiate_tag = 0;
    assert_eq!(hand(&mut a, Chunk::Init(i), 0), Err(Error::ErrChunkTypeInitInitateTagZero));
    let ack = ChunkHeartbeatAck { params: vec![] };
    assert_eq!(hand(&mut a, Chunk::HeartbeatAck(ack), 0), Err(Error::ErrChunkTypeUnhandled));
    assert_eq!(a.state(), AssociationState::Established);
}

#[test]
fn aborts_and_errors() {
    let (mut a, mut b) = connected();
    let causes = || {
        vec![
            Tlv { typ: 2, value: Bytes::new() },
            Tlv { typ: 13, value: Bytes::from_static(b"x") },
        ]
    };
    let text = "(Missing Mandatory Parameter)(Protocol Violation)".to_string();
    assert_eq!(
        hand(&mut a, Chunk::Abort(ChunkAbort { error_causes: causes() }), 0),
        Err(Error::ErrAbortChunk(text.clone()))
    );
    assert_eq!(
        hand(&mut a, Chunk::Error(ChunkError { error_causes: causes() }), 0),
        Err(Error::ErrAbortChunk(text))
    );
    assert_eq!(a.state(), AssociationState::Established);
    // an ABORT that the peer's user asked for closes the association
    let user = ChunkAbort { error_causes: vec![Tlv { typ: 12, value: Bytes::new() }] };
    assert_eq!(hand(&mut a, Chunk::Abort(user), 0), Ok(()));
    assert!(a.is_closed());
    assert_eq!(lost(&mut a), Some(AssociationError::ApplicationClosed));
    // any other one does so through the event
    let raw = packet(Chunk::Abort(ChunkAbort { error_causes: causes() })).marshal().unwrap();
    deliver(&mut b, &raw, 0);
    assert!(b.is_closed());
    assert_eq!(lost(&mut b), Some(AssociationError::AssociationClosed));
}

#[test]
fn heartbeats_are_echoed() {
    let (mut a, _b) = connected();
    let info = Bytes::from_static(b"are you there");
    let hb = ChunkHeartbeat {
        params: vec![Param::HeartbeatInfo(ParamHeartbeatInfo { heartbeat_information: info.clone() })],
    };
    let ps = a.handle_heartbeat(&hb).unwrap();
    assert_eq!(ps.len(), 1);
    assert_eq!(ps[0].common_header.verification_tag, 222);
    match &ps[0].chunks[0] {
        Chunk::HeartbeatAck(c) => match &c.params[0] {
            Param::HeartbeatInfo(p) => assert_eq!(p.heartbeat_information, info),
            other => panic!("{:?}", other),
        },
        other => panic!("{:?}", other),
    }
    assert!(a.handle_heartbeat(&ChunkHeartbeat { params: vec![] }).unwrap().is_empty());
}

#[test]
fn data_arrives_and_is_acknowledged() {
    let (mut a, mut b) = connected();
    a.open_stream(1, PayloadProtocolIdentifier::Binary).unwrap();
    assert_eq!(a.send_payload_data(vec![message(b"hello")]), Ok(()));
    a.streams.get_mut(&1).unwrap().buffered_amount = 5;
    assert_eq!(a.buffered_amount(), 5);
    assert_eq!(pump(&mut a, &mut b, 20 * MS), 1);
    assert_eq!(a.buffered_amount(), 5);
    assert_eq!(a.inflight_queue.len(), 1);
    assert_eq!(a.tcb.tx.my_next_tsn, 1001);
    assert_eq!(a.poll_timeout(), Some(20 * MS + 3000 * MS));

    assert!(matches!(b.poll(), Some(Event::Stream(StreamEvent::Opened))));
    assert!(matches!(b.poll(), Some(Event::DatagramReceived)));
    assert!(matches!(b.poll(), Some(Event::Stream(StreamEvent::Readable { id: 1 }))));
    assert!(b.poll().is_none());
    assert_eq!(b.accept_stream().unwrap().stream_identifier, 1);
    assert!(b.accept_stream().is_none());
    assert_eq!(b.get_my_receiver_window_credit(), 100_000 - 5);
    assert_eq!(read(&mut b, 1), Some(b"hello".to_vec()));
    assert_eq!(b.get_my_receiver_window_credit(), 100_000);
    assert_eq!(b.stats().n_datas, 1);

    // the acknowledgement is delayed
    assert_eq!(b.tcb.rx.ack_state, AckState::Delay);
    assert!(outgoing(&mut b, 21 * MS).is_empty());
    assert_eq!(b.poll_timeout(), Some(220 * MS));
    b.handle_timeout(219 * MS);
    assert!(outgoing(&mut b, 219 * MS).is_empty());
    b.handle_timeout(220 * MS);
    assert_eq!(b.stats().n_ack_timeouts, 1);
    assert_eq!(pump(&mut b, &mut a, 220 * MS), 1);
    assert_eq!(a.stats().n_sacks, 1);
    assert!(a.inflight_queue.is_empty());
    assert_eq!(a.buffered_amount(), 0);
    assert_eq!(a.tcb.tx.cumulative_tsn_ack_point, 1000);
    assert!(a.is_idle());
    // a round trip of 200 ms was measured
    assert_eq!(a.rtt(), 200);
    assert_eq!(a.tcb.rto_mgr.get_rto(), 1000);
    assert!(matches!(
        a.poll(),
        Some(Event::Stream(StreamEvent::BufferedAmountLow { id: 1 }))
    ));
    assert!(a.poll().is_none());
}

#[test]
fn a_request_without_an_answer_is_sent_again() {
    let (mut a, _b) = connected();
    assert_eq!(a.send_reset_request(1), Ok(()));
    let first = outgoing(&mut a, 0);
    assert_eq!(first.len(), 1);
    let t = a.poll_timeout().unwrap();
    assert_eq!(t, 3000 * MS);
    a.handle_timeout(t);
    assert_eq!(outgoing(&mut a, t), first);
    assert!(outgoing(&mut a, t).is_empty());
}

#[test]
fn every_second_packet_is_acknowledged_at_once() {
    let (_a, mut b) = connected();
    assert_eq!(hand(&mut b, Chunk::PayloadData(data(1000, 0, b"x")), 0), Ok(()));
    assert_eq!(b.tcb.rx.ack_state, AckState::Delay);
    assert_eq!(hand(&mut b, Chunk::PayloadData(data(1001, 1, b"y")), 0), Ok(()));
    assert_eq!(b.tcb.rx.ack_state, AckState::Immediate);
    let ps = packets(&mut b, 0);
    match &ps[0].chunks[0] {
        Chunk::SelectiveAck(s) => {
            assert_eq!(s.cumulative_tsn_ack, 1001);
            assert_eq!(s.advertised_receiver_window_credit, 99_998);
            assert!(s.gap_ack_blocks.is_empty());
        }
        other => panic!("{:?}", other),
    }
    assert_eq!(b.tcb.rx.ack_state, AckState::Idle);
    assert!(b.is_idle());
}

#[test]
fn acks_are_not_delayed_where_it_is_asked_for() {
    let (_a, mut b) = connected();
    let mut d = data(1000, 0, b"x");
    d.immediate_sack = true;
    assert_eq!(hand(&mut b, Chunk::PayloadData(d), 0), Ok(()));
    assert_eq!(b.tcb.rx.ack_state, AckState::Immediate);
    let (_a, mut b) = connected();
    b.tcb.conf.ack_mode = AckMode::NoDelay;
    assert_eq!(hand(&mut b, Chunk::PayloadData(data(1000, 0, b"x")), 0), Ok(()));
    assert_eq!(b.tcb.rx.ack_state, AckState::Immediate);
}

#[test]
fn gaps_are_reported_and_closed() {
    let (_a, mut b) = connected();
    assert_eq!(hand(&mut b, Chunk::PayloadData(data(1002, 2, b"c")), 0), Ok(()));
    assert_eq!(b.tcb.rx.peer_last_tsn, 999);
    let ps = packets(&mut b, 0);
    match &ps[0].chunks[0] {
        Chunk::SelectiveAck(s) => {
            assert_eq!(s.cumulative_tsn_ack, 999);
            assert_eq!(s.gap_ack_blocks, vec![GapAckBlock { start: 3, end: 3 }]);
        }
        other => panic!("{:?}", other),
    }
    assert_eq!(hand(&mut b, Chunk::PayloadData(data(1000, 0, b"a")), 0), Ok(()));
    assert_eq!(b.tcb.rx.peer_last_tsn, 1000);
    assert_eq!(hand(&mut b, Chunk::PayloadData(data(1001, 1, b"b")), 0), Ok(()));
    assert_eq!(b.tcb.rx.peer_last_tsn, 1002);
    assert!(b.payload_queue.is_empty());
    assert_eq!(read(&mut b, 1), Some(b"a".to_vec()));
    assert_eq!(read(&mut b, 1), Some(b"b".to_vec()));
    assert_eq!(read(&mut b, 1), Some(b"c".to_vec()));
    assert_eq!(read(&mut b, 1), None);
}

#[test]
fn duplicate_data_is_only_acknowledged() {
    let (_a, mut b) = connected();
    assert_eq!(hand(&mut b, Chunk::PayloadData(data(1000, 0, b"a")), 0), Ok(()));
    while b.poll().is_some() {}
    assert_eq!(hand(&mut b, Chunk::PayloadData(data(1000, 0, b"a")), 0), Ok(()));
    assert!(b.poll().is_none());
    assert_eq!(b.stats().n_datas, 2);
    assert_eq!(b.tcb.rx.ack_state, AckState::Immediate);
    assert_eq!(read(&mut b, 1), Some(b"a".to_vec()));
    assert_eq!(read(&mut b, 1), None);
}

#[test]
fn a_full_buffer_takes_no_more() {
    let (_a, mut b) = connected();
    b.tcb.conf.max_receive_buffer_size = 3;
    assert_eq!(hand(&mut b, Chunk::PayloadData(data(1000, 0, b"abc")), 0), Ok(()));
    assert_eq!(b.get_my_receiver_window_credit(), 0);
    assert_eq!(hand(&mut b, Chunk::PayloadData(data(1001, 1, b"d")), 0), Ok(()));
    assert_eq!(b.tcb.rx.peer_last_tsn, 1000);
    assert_eq!(read(&mut b, 1), Some(b"abc".to_vec()));
    assert_eq!(hand(&mut b, Chunk::PayloadData(data(1001, 1, b"d")), 0), Ok(()));
    assert_eq!(b.tcb.rx.peer_last_tsn, 1001);
}

#[test]
fn the_congestion_window_limits_what_is_sent() {
    let (mut a, _b) = connected();
    assert_eq!(a.send_payload_data(messages(10, 1200)), Ok(()));
    let raws = outgoing(&mut a, 0);
    // 3 * 1200 <= 4380 < 4 * 1200, one chunk for each packet
    assert_eq!(raws.len(), 3);
    for raw in &raws {
        assert_eq!(raw.len(), 12 + 16 + 1200);
        assert!(raw.len() <= MTU as usize);
    }
    assert_eq!(a.inflight_queue.len(), 3);
    assert_eq!(a.buffered_amount(), 12_000);
    assert_eq!(a.tcb.cc.rwnd, 100_000 - 3600);
    let tsns: Vec<u32> = a.inflight_queue.sorted.clone();
    assert_eq!(tsns, vec![1000, 1001, 1002]);
}

#[test]
fn small_chunks_share_packets() {
    let (mut a, _b) = connected();
    assert_eq!(a.send_payload_data(messages(30, 100)), Ok(()));
    let ps = packets(&mut a, 0);
    // 10 * (16 + 100) <= 1228 - 12 < 11 * (16 + 100)
    assert_eq!(ps.iter().map(|p| p.chunks.len()).collect::<Vec<_>>(), vec![10, 10, 10]);
    let mut tsn = 1000;
    for p in &ps {
        for c in &p.chunks {
            match c {
                Chunk::PayloadData(d) => assert_eq!(d.tsn, tsn),
                other => panic!("{:?}", other),
            }
            tsn += 1;
        }
    }
}

#[test]
fn padding_counts_towards_the_packet() {
    let (mut a, _b) = connected();
    // 12 + 2 * (16 + 592) == 1228; one byte more is padded to four
    assert_eq!(a.send_payload_data(messages(2, 592)), Ok(()));
    assert_eq!(outgoing(&mut a, 0).len(), 1);
    let (mut a, _b) = connected();
    assert_eq!(a.send_payload_data(vec![message(&[0; 592]), message(&[0; 593])]), Ok(()));
    assert_eq!(outgoing(&mut a, 0).len(), 2);
}

#[test]
fn a_packet_without_chunks_goes_before_data_too_large_for_a_packet() {
    // (size, chunks of each packet) with an MTU of 100; 12 + 88 == 100
    for (size, want) in [(88, vec![1, 1]), (89, vec![0, 1, 1])] {
        let (mut a, _b) = connected();
        a.tcb.conf.mtu = 100;
        assert_eq!(a.send_payload_data(messages(2, size)), Ok(()));
        let ps = packets(&mut a, 0);
        assert_eq!(ps.iter().map(|p| p.chunks.len()).collect::<Vec<_>>(), want);
    }
}

#[test]
fn an_empty_fragment_of_a_message_ends_its_stream() {
    let (mut a, _b) = connected();
    a.open_stream(1, PayloadProtocolIdentifier::Binary).unwrap();
    let mut first = message(b"ab");
    first.ending_fragment = false;
    let mut rest = message(b"");
    rest.beginning_fragment = false;
    let chunks = vec![first, rest];
    assert!(a.pending_queue.can_push_all(&chunks));
    assert_eq!(a.send_payload_data(chunks), Ok(()));
    let ps = packets(&mut a, 0);
    assert_eq!(ps.len(), 2);
    assert!(matches!(ps[0].chunks[0], Chunk::PayloadData(_)));
    assert!(matches!(ps[1].chunks[0], Chunk::Reconfig(_)));
    assert_eq!(a.buffered_amount(), 2);
}

#[test]
fn bytes_are_counted_in_datagrams() {
    let (mut a, mut b) = connected();
    let (sent, received) = (a.bytes_sent(), b.bytes_received());
    assert_eq!(sent, received);
    assert!(sent > 0);
    assert_eq!(a.send_payload_data(messages(1, 10)), Ok(()));
    pump(&mut a, &mut b, 20 * MS);
    // 12 + 16 + 10, padded to a multiple of four
    assert_eq!(a.bytes_sent(), sent + 40);
    assert_eq!(b.bytes_received(), received + 40);
}

#[test]
fn one_chunk_probes_a_closed_window() {
    let (mut a, _b) = connected();
    a.tcb.cc.rwnd = 0;
    assert_eq!(a.send_payload_data(messages(3, 10)), Ok(()));
    let ps = packets(&mut a, 0);
    assert_eq!(ps.len(), 1);
    assert_eq!(ps[0].chunks.len(), 1);
    assert!(outgoing(&mut a, 0).is_empty());
}

#[test]
fn sacks_release_data_and_grow_the_window() {
    let (mut a, _b) = connected();
    assert_eq!(a.send_payload_data(messages(10, 1200)), Ok(()));
    outgoing(&mut a, 0);
    assert!(a.handle_sack(&sack(1001, vec![]), MS).unwrap().is_empty());
    assert_eq!(a.inflight_queue.sorted, vec![1002]);
    assert_eq!(a.tcb.cc.cwnd, 4380 + 2400);
    assert_eq!(a.tcb.cc.rwnd, 100_000 - 1200);
    assert_eq!(a.buffered_amount(), 8 * 1200);
    // without data that waits the window does not grow
    let (mut a, _b) = connected();
    assert_eq!(a.send_payload_data(messages(2, 1200)), Ok(()));
    outgoing(&mut a, 0);
    assert!(a.handle_sack(&sack(1001, vec![]), MS).is_ok());
    assert_eq!(a.tcb.cc.cwnd, 4380);
    assert!(a.is_idle());
}

#[test]
fn congestion_avoidance_grows_by_one_packet() {
    let (mut a, _b) = connected();
    a.tcb.cc.ssthresh = 1000;
    a.tcb.cc.cwnd = 2400;
    a.tcb.cc.rwnd = 100_000;
    assert_eq!(a.send_payload_data(messages(10, 1200)), Ok(()));
    outgoing(&mut a, 0);
    assert!(a.handle_sack(&sack(1000, vec![]), MS).is_ok());
    assert_eq!((a.tcb.cc.cwnd, a.tcb.cc.partial_bytes_acked), (2400, 1200));
    assert!(a.handle_sack(&sack(1001, vec![]), MS).is_ok());
    assert_eq!((a.tcb.cc.cwnd, a.tcb.cc.partial_bytes_acked), (2400 + MTU, 0));
}

#[test]
fn stale_sacks_are_counted_only() {
    let (mut a, _b) = connected();
    assert_eq!(a.send_payload_data(messages(2, 10)), Ok(()));
    outgoing(&mut a, 0);
    assert!(a.handle_sack(&sack(998, vec![]), MS).unwrap().is_empty());
    assert_eq!(a.stats().n_sacks, 1);
    assert_eq!(a.inflight_queue.len(), 2);
    assert_eq!(a.tcb.tx.cumulative_tsn_ack_point, 999);
    let mut c = client();
    assert!(c.handle_sack(&sack(998, vec![]), MS).is_ok());
    assert_eq!(c.stats().n_sacks, 0);
}

#[test]
fn sacks_of_what_was_never_sent_are_refused() {
    let (mut a, _b) = connected();
    assert_eq!(
        a.handle_sack(&sack(1000, vec![]), MS).unwrap_err(),
        Error::ErrInflightQueueTsnPop
    );
    let (mut a, _b) = connected();
    let gap = vec![GapAckBlock { start: 2, end: 2 }];
    assert_eq!(a.handle_sack(&sack(999, gap), MS).unwrap_err(), Error::ErrTsnRequestNotExist);
}

#[test]
fn gap_blocks_acknowledge() {
    let (mut a, _b) = connected();
    assert_eq!(a.send_payload_data(messages(3, 100)), Ok(()));
    outgoing(&mut a, 0);
    let gap = vec![GapAckBlock { start: 2, end: 3 }];
    assert!(a.handle_sack(&sack(999, gap), MS).is_ok());
    assert!(!a.inflight_queue.get(1000).unwrap().acked);
    assert!(a.inflight_queue.get(1001).unwrap().acked);
    assert!(a.inflight_queue.get(1002).unwrap().acked);
    assert_eq!(a.inflight_queue.get_num_bytes(), 100);
    assert_eq!(a.inflight_queue.get(1000).unwrap().miss_indicator, 1);
}

#[test]
fn three_reports_lead_to_a_fast_retransmission() {
    let (mut a, _b) = connected();
    a.tcb.cc.cwnd = 20_000;
    assert_eq!(a.send_payload_data(messages(6, 1200)), Ok(()));
    outgoing(&mut a, 0);
    for k in 2..5u16 {
        assert!(!a.tcb.cc.in_fast_recovery);
        let gap = vec![GapAckBlock { start: 2, end: k }];
        assert!(a.handle_sack(&sack(999, gap), MS).is_ok());
    }
    assert!(a.tcb.cc.in_fast_recovery);
    assert_eq!(a.tcb.cc.cwnd, 10_000);
    assert_eq!(a.tcb.cc.ssthresh, 10_000);
    assert_eq!(a.tcb.cc.fast_recover_exit_point, 1003);
    let ps = packets(&mut a, 2 * MS);
    assert_eq!(ps.len(), 1);
    match &ps[0].chunks[0] {
        Chunk::PayloadData(d) => assert_eq!(d.tsn, 1000),
        other => panic!("{:?}", other),
    }
    assert_eq!(a.stats().n_fast_retrans, 1);
    // the window is not cut again
    let gap = vec![GapAckBlock { start: 2, end: 5 }];
    assert!(a.handle_sack(&sack(999, gap), MS).is_ok());
    assert_eq!(a.tcb.cc.cwnd, 10_000);
    // the acknowledgement of the exit point ends fast recovery
    assert!(a.handle_sack(&sack(1004, vec![]), MS).is_ok());
    assert!(!a.tcb.cc.in_fast_recovery);
}

#[test]
fn padding_counts_towards_a_fast_retransmission() {
    // 12 + (16 + 32) + (16 + n) bytes, with n padded to a multiple of four
    for (n, sent) in [(24, 2), (25, 1), (26, 1)] {
        let (mut a, _b) = connected();
        assert_eq!(a.send_payload_data(vec![message(&[0; 30]), message(&vec![0; n])]), Ok(()));
        outgoing(&mut a, 0);
        for tsn in [1000, 1001] {
            a.inflight_queue.get_mut(tsn).unwrap().miss_indicator = 3;
        }
        a.tcb.conf.mtu = 100;
        a.tcb.owed.will_retransmit_fast = true;
        let raws = outgoing(&mut a, MS);
        assert_eq!(raws.len(), 1);
        assert!(raws[0].len() <= 100);
        assert_eq!(Packet::unmarshal(&raws[0]).unwrap().chunks.len(), sent);
    }
}

#[test]
fn what_is_given_up_is_not_sent_again() {
    let (mut a, _b) = connected();
    assert_eq!(a.send_payload_data(messages(2, 10)), Ok(()));
    outgoing(&mut a, 0);
    for tsn in [1000, 1001] {
        a.inflight_queue.get_mut(tsn).unwrap().retransmit = true;
    }
    let c = a.inflight_queue.get_mut(1000).unwrap();
    c.abandoned = true;
    c.all_inflight = true;
    let ps = packets(&mut a, MS);
    assert_eq!(ps.len(), 1);
    assert_eq!(ps[0].chunks.len(), 1);
    match &ps[0].chunks[0] {
        Chunk::PayloadData(d) => assert_eq!(d.tsn, 1001),
        other => panic!("{:?}", other),
    }
    assert_eq!(a.inflight_queue.get(1000).unwrap().nsent, 1);
}

#[test]
fn only_the_first_chunk_probes_a_closed_window_again() {
    let (mut a, _b) = connected();
    assert_eq!(a.send_payload_data(messages(2, 10)), Ok(()));
    outgoing(&mut a, 0);
    a.inflight_queue.mark_all_to_retrasmit();
    a.tcb.cc.rwnd = 0;
    let ps = packets(&mut a, MS);
    assert_eq!(ps.len(), 1);
    assert_eq!(ps[0].chunks.len(), 1);
    match &ps[0].chunks[0] {
        Chunk::PayloadData(d) => assert_eq!(d.tsn, 1000),
        other => panic!("{:?}", other),
    }
}

#[test]
fn a_small_window_is_cut_to_four_packets() {
    let (mut a, _b) = connected();
    assert_eq!(a.send_payload_data(messages(3, 100)), Ok(()));
    outgoing(&mut a, 0);
    a.inflight_queue.get_mut(1000).unwrap().miss_indicator = 2;
    let gap = vec![GapAckBlock { start: 2, end: 2 }];
    assert!(a.handle_sack(&sack(999, gap), MS).is_ok());
    assert_eq!(a.tcb.cc.cwnd, 4 * MTU);
}

#[test]
fn lost_data_is_sent_again() {
    let (mut a, mut b) = connected();
    assert_eq!(a.send_payload_data(messages(2, 500)), Ok(()));
    assert_eq!(outgoing(&mut a, 10 * MS).len(), 1);
    let t = a.poll_timeout().unwrap();
    assert_eq!(t, 3010 * MS);
    a.handle_timeout(t - 1);
    assert!(outgoing(&mut a, t - 1).is_empty());
    a.handle_timeout(t);
    assert_eq!(a.stats().n_t3timeouts, 1);
    assert_eq!(a.tcb.cc.cwnd, MTU);
    assert_eq!(a.tcb.cc.ssthresh, 4 * MTU);
    // twice as long until the next time
    assert_eq!(a.poll_timeout(), Some(t + 6000 * MS));
    assert_eq!(pump(&mut a, &mut b, t), 1);
    assert_eq!(a.inflight_queue.get(1000).unwrap().nsent, 2);
    assert_eq!(read(&mut b, 1).unwrap().len(), 500);
    assert_eq!(read(&mut b, 1).unwrap().len(), 500);
}

#[test]
fn the_handshake_gives_up() {
    let mut a = client();
    assert_eq!(outgoing(&mut a, 0).len(), 1);
    for k in 1..=8 {
        let t = a.poll_timeout().unwrap();
        a.handle_timeout(t);
        assert_eq!(outgoing(&mut a, t).len(), 1, "{}", k);
        assert!(a.poll().is_none());
    }
    let t = a.poll_timeout().unwrap();
    a.handle_timeout(t);
    assert!(outgoing(&mut a, t).is_empty());
    assert_eq!(a.poll_timeout(), None);
    assert!(a.is_closed() && !a.is_handshaking());
    match a.poll() {
        Some(Event::AssociationLost { reason }) => assert_eq!(
            reason,
            AssociationError::HandshakeFailed(Error::ErrHandshakeInitAck)
        ),
        other => panic!("{:?}", other),
    }
    assert!(a.poll().is_none());
}

#[test]
fn the_cookie_gives_up() {
    let mut a = client();
    let mut b = server();
    pump(&mut a, &mut b, 0);
    pump(&mut b, &mut a, 0);
    assert_eq!(a.state(), AssociationState::CookieEchoed);
    let mut sent = 0;
    while let Some(t) = a.poll_timeout() {
        sent += outgoing(&mut a, t).len();
        a.handle_timeout(t);
    }
    assert_eq!(sent, 9);
    match a.poll() {
        Some(Event::AssociationLost { reason }) => assert_eq!(
            reason,
            AssociationError::HandshakeFailed(Error::ErrHandshakeCookieEcho)
        ),
        other => panic!("{:?}", other),
    }
}

#[test]
fn shutdown_goes_through_its_steps() {
    let (mut a, mut b) = connected();
    assert_eq!(a.shutdown(), Ok(()));
    assert!(a.poll_endpoint_event().unwrap().is_drained());
    assert!(a.poll_endpoint_event().is_none());
    assert_eq!(a.state(), AssociationState::ShutdownSent);
    assert_eq!(a.shutdown(), Err(Error::ErrShutdownNonEstablished));
    let raws = outgoing(&mut a, 0);
    match &Packet::unmarshal(&raws[0]).unwrap().chunks[0] {
        Chunk::Shutdown(s) => assert_eq!(s.cumulative_tsn_ack, 999),
        other => panic!("{:?}", other),
    }
    assert_eq!(a.tcb.timers.get(Timer::T2Shutdown), Some(3000 * MS));
    deliver(&mut b, &raws[0], 0);
    assert_eq!(b.state(), AssociationState::ShutdownAckSent);
    assert_eq!(pump(&mut b, &mut a, 0), 1);
    let (raws, open) = a.gather_outbound(0);
    assert!(!open);
    assert_eq!(raws.len(), 1);
    assert!(matches!(
        Packet::unmarshal(&raws[0]).unwrap().chunks[0],
        Chunk::ShutdownComplete
    ));
    deliver(&mut b, &raws[0], 0);
    assert!(b.is_closed());
    assert_eq!(b.poll_timeout(), None);
    assert_eq!(lost(&mut b), Some(AssociationError::ApplicationClosed));
}

#[test]
fn a_lost_shutdown_is_sent_again() {
    let (mut a, _b) = connected();
    assert_eq!(a.shutdown(), Ok(()));
    assert_eq!(outgoing(&mut a, 0).len(), 1);
    let t = a.poll_timeout().unwrap();
    a.handle_timeout(t);
    let ps = packets(&mut a, t);
    assert!(matches!(ps[0].chunks[0], Chunk::Shutdown(_)));
}

#[test]
fn a_shutdown_waits_for_data_in_flight() {
    let (mut a, _b) = connected();
    assert_eq!(a.send_payload_data(messages(1, 10)), Ok(()));
    outgoing(&mut a, 0);
    let s = Chunk::Shutdown(ChunkShutdown { cumulative_tsn_ack: 0 });
    assert_eq!(hand(&mut a, s, 0), Ok(()));
    assert_eq!(a.state(), AssociationState::ShutdownReceived);
    assert!(a.handle_sack(&sack(1000, vec![]), 0).is_ok());
    assert_eq!(a.state(), AssociationState::ShutdownAckSent);
    let ps = packets(&mut a, 0);
    assert!(matches!(ps[0].chunks[0], Chunk::ShutdownAck));
}

#[test]
fn an_own_shutdown_waits_for_data_in_flight() {
    let (mut a, _b) = connected();
    assert_eq!(a.send_payload_data(messages(1, 10)), Ok(()));
    assert_eq!(outgoing(&mut a, 0).len(), 1);
    assert_eq!(a.shutdown(), Ok(()));
    assert_eq!(a.state(), AssociationState::ShutdownPending);
    assert!(outgoing(&mut a, 0).is_empty());
    assert!(a.handle_sack(&sack(1000, vec![]), 0).is_ok());
    assert_eq!(a.state(), AssociationState::ShutdownSent);
    let ps = packets(&mut a, 0);
    assert_eq!(ps.len(), 1);
    match &ps[0].chunks[0] {
        Chunk::Shutdown(s) => assert_eq!(s.cumulative_tsn_ack, 1000),
        other => panic!("{:?}", other),
    }
}

#[test]
fn close_ends_all() {
    let (mut a, _b) = connected();
    a.open_stream(3, PayloadProtocolIdentifier::String).unwrap();
    assert_eq!(a.send_payload_data(messages(1, 10)), Ok(()));
    outgoing(&mut a, 0);
    assert!(!a.is_idle());
    assert_eq!(a.close(), Ok(()));
    assert!(a.is_closed() && a.is_drained() && a.is_idle());
    assert!(a.streams.is_empty());
    assert!(outgoing(&mut a, 0).is_empty());
    assert_eq!(a.close(), Ok(()));
    assert_eq!(a.shutdown(), Err(Error::ErrShutdownNonEstablished));
    assert_eq!(a.send_payload_data(vec![]), Err(Error::ErrPayloadDataStateNotExist));
    assert_eq!(a.send_reset_request(3), Err(Error::ErrResetPacketInStateNotExist));
}

#[test]
fn an_association_that_becomes_closed_is_reported_lost_once() {
    let (mut a, _b) = connected();
    assert!(a.poll().is_none());
    assert_eq!(a.close(), Ok(()));
    assert_eq!(lost(&mut a), Some(AssociationError::LocallyClosed));
    assert!(a.poll().is_none());
    // closing it again reports nothing
    assert_eq!(a.close(), Ok(()));
    assert!(a.poll().is_none());
}

#[test]
fn a_reason_that_waits_is_kept() {
    let (mut a, _b) = connected();
    a.error = Some(AssociationError::TimedOut);
    assert_eq!(a.close(), Ok(()));
    assert_eq!(lost(&mut a), Some(AssociationError::TimedOut));
    assert!(a.poll().is_none());
}

#[test]
fn closing_ends_the_handshake() {
    let mut a = client();
    assert!(a.is_handshaking());
    assert_eq!(a.close(), Ok(()));
    assert!(!a.is_handshaking());
    assert_eq!(lost(&mut a), Some(AssociationError::LocallyClosed));
    assert!(server().is_handshaking());
}

#[test]
fn streams_are_found_again() {
    let (mut a, _b) = connected();
    assert_eq!(a.stream(7).unwrap_err(), Error::ErrStreamNotExisted);
    assert_eq!(a.open_stream(7, PayloadProtocolIdentifier::String).unwrap().stream_identifier, 7);
    assert_eq!(a.stream(7).unwrap().stream_identifier, 7);
    assert_eq!(
        a.open_stream(7, PayloadProtocolIdentifier::String).unwrap_err(),
        Error::ErrStreamAlreadyExist
    );
    a.unregister_stream(7);
    assert_eq!(a.stream(7).unwrap_err(), Error::ErrStreamNotExisted);
    // what is opened here is not there to be accepted
    assert!(a.accept_stream().is_none());
}

#[test]
fn a_stream_that_ends_is_reset_on_both_sides() {
    let (mut a, mut b) = connected();
    a.open_stream(1, PayloadProtocolIdentifier::Binary).unwrap();
    assert_eq!(a.send_payload_data(vec![message(b"last")]), Ok(()));
    assert_eq!(a.send_reset_request(1), Ok(()));
    assert_eq!(pump(&mut a, &mut b, 0), 2);
    assert!(b.stream(1).is_err());
    assert_eq!(a.reconfigs.len(), 1);
    assert!(a.tcb.timers.get(Timer::Reconfig).is_some());
    // the answer and the request of the other direction
    assert_eq!(pump(&mut b, &mut a, 0), 2);
    assert!(a.stream(1).is_err());
    // the stream was open here too, so one more request goes along with the answer
    assert_eq!(a.reconfigs.len(), 1);
    assert_eq!(pump(&mut a, &mut b, 0), 2);
    assert!(b.reconfigs.is_empty());
    assert_eq!(pump(&mut b, &mut a, 0), 1);
    assert!(a.reconfigs.is_empty());
    assert!(a.tcb.timers.get(Timer::Reconfig).is_none());
}

fn reset(tsn: u32, ids: Vec<u16>) -> ParamOutgoingResetRequest {
    ParamOutgoingResetRequest {
        reconfig_request_sequence_number: 40,
        reconfig_response_sequence_number: 0,
        sender_last_tsn: tsn,
        stream_identifiers: ids,
    }
}

fn result_of(p: &Packet) -> ReconfigResult {
    match &p.chunks[0] {
        Chunk::Reconfig(c) => match &c.param_a {
            Some(Param::ReconfigResponse(r)) => {
                assert_eq!(r.reconfig_response_sequence_number, 40);
                r.result
            }
            other => panic!("{:?}", other),
        },
        other => panic!("{:?}", other),
    }
}

#[test]
fn a_reset_waits_for_data() {
    let (_a, mut b) = connected();
    assert_eq!(hand(&mut b, Chunk::PayloadData(data(1000, 0, b"a")), 0), Ok(()));
    let c = ChunkReconfig {
        param_a: Some(Param::OutgoingResetRequest(reset(1001, vec![1]))),
        param_b: None,
    };
    let reply = b.handle_reconfig(&c).unwrap();
    assert_eq!(reply.len(), 1);
    assert_eq!(result_of(&reply[0]), ReconfigResult::InProgress);
    assert!(b.stream(1).is_ok());
    // the missing data comes, and the reset is performed
    let reply = b.handle_data(&data(1001, 1, b"b")).unwrap();
    assert_eq!(reply.len(), 1);
    assert_eq!(result_of(&reply[0]), ReconfigResult::SuccessPerformed);
    assert!(b.stream(1).is_err());
    assert!(b.reconfig_requests.is_empty());
}

#[test]
fn other_params_of_a_reconfig_are_refused() {
    let (mut a, _b) = connected();
    let c = ChunkReconfig {
        param_a: Some(Param::HeartbeatInfo(ParamHeartbeatInfo {
            heartbeat_information: Bytes::new(),
        })),
        param_b: None,
    };
    assert_eq!(a.handle_reconfig(&c).unwrap_err(), Error::ErrParameterType);
    let c = ChunkReconfig {
        param_a: Some(Param::ReconfigResponse(ParamReconfigResponse {
            reconfig_response_sequence_number: 1,
            result: ReconfigResult::Denied,
        })),
        param_b: None,
    };
    assert!(a.handle_reconfig(&c).unwrap().is_empty());
}

#[test]
fn forward_tsn_skips_data() {
    let (_a, mut b) = connected();
    assert_eq!(hand(&mut b, Chunk::PayloadData(data(1002, 2, b"c")), 0), Ok(()));
    let c = ChunkForwardTsn {
        new_cumulative_tsn: 1001,
        streams: vec![ChunkForwardTsnStream { identifier: 1, sequence: 1 }],
    };
    assert!(b.handle_forward_tsn(&c).unwrap().is_empty());
    assert_eq!(b.tcb.rx.peer_last_tsn, 1002);
    assert!(b.payload_queue.is_empty());
    assert_eq!(read(&mut b, 1), Some(b"c".to_vec()));
    // an old one is acknowledged at once
    b.tcb.rx.ack_state = AckState::Idle;
    assert!(b.handle_forward_tsn(&c).unwrap().is_empty());
    assert_eq!(b.tcb.rx.ack_state, AckState::Immediate);
    // where it is not known it is an error
    b.tcb.peer.use_forward_tsn = false;
    let reply = b.handle_forward_tsn(&c).unwrap();
    match &reply[0].chunks[0] {
        Chunk::Error(e) => {
            assert_eq!(e.error_causes.len(), 1);
            assert_eq!(e.error_causes[0].typ, 6);
        }
        other => panic!("{:?}", other),
    }
}

#[test]
fn abandoned_data_is_told_with_a_forward_tsn() {
    let (mut a, _b) = connected();
    a.open_stream(1, PayloadProtocolIdentifier::Binary).unwrap();
    assert_eq!(a.send_payload_data(messages(2, 10)), Ok(()));
    outgoing(&mut a, 0);
    for tsn in [1000, 1001] {
        let c = a.inflight_queue.get_mut(tsn).unwrap();
        c.abandoned = true;
        c.all_inflight = true;
    }
    let t = a.poll_timeout().unwrap();
    a.handle_timeout(t);
    let ps = packets(&mut a, t);
    assert_eq!(ps.len(), 1);
    match &ps[0].chunks[0] {
        Chunk::ForwardTsn(c) => {
            assert_eq!(c.new_cumulative_tsn, 1001);
            assert_eq!(
                c.streams,
                vec![ChunkForwardTsnStream { identifier: 1, sequence: 1 }]
            );
        }
        other => panic!("{:?}", other),
    }
}

#[test]
fn timeouts_double() {
    assert_eq!(calculate_next_timeout(1000, 0), 1000);
    assert_eq!(calculate_next_timeout(1000, 1), 2000);
    assert_eq!(calculate_next_timeout(1000, 5), 32000);
    assert_eq!(calculate_next_timeout(1000, 6), 60000);
    assert_eq!(calculate_next_timeout(1, 31), 60000);
    assert_eq!(calculate_next_timeout(0, 4), 0);
}

#[test]
fn round_trips_are_smoothed() {
    let mut m = RtoManager::new();
    assert_eq!(m.get_rto(), 3000);
    assert_eq!(m.set_new_rtt(600), 600);
    assert_eq!(m.get_rto(), 1800);
    // srtt = (7 * 600 + 1000) / 8, 4 * rttvar = (3 * 1200 + 4 * 400) / 4
    assert_eq!(m.set_new_rtt(1000), 650);
    assert_eq!(m.get_rto(), 650 + 1300);
    let mut m = RtoManager::new();
    m.set_new_rtt(1);
    assert_eq!(m.get_rto(), 1000);
    let mut m = RtoManager::new();
    m.set_new_rtt(100_000);
    assert_eq!(m.get_rto(), 60_000);
}

#[test]
fn an_outgoing_datagram_is_no_event() {
    let (mut a, _b) = connected();
    let before = format!("{:?}", a.tcb);
    a.handle_event(AssociationEvent(AssociationEventInner::Datagram(Transmit {
        now: 0,
        remote: addr(9),
        ecn: None,
        local_ip: None,
        payload: Payload::RawEncode(vec![]),
    })));
    assert_eq!(format!("{:?}", a.tcb), before);
}

#[test]
fn the_message_size_can_be_set() {
    let mut a = client();
    assert_eq!(a.max_message_size(), 65536);
    a.set_max_message_size(7);
    assert_eq!(a.max_message_size(), 7);
}

#[test]
fn a_second_timeout_does_nothing() {
    let (mut a, _b) = connected();
    assert_eq!(a.send_payload_data(messages(2, 500)), Ok(()));
    outgoing(&mut a, 0);
    let t = a.poll_timeout().unwrap();
    a.handle_timeout(t);
    let once = format!("{:?}", a);
    a.handle_timeout(t);
    assert_eq!(format!("{:?}", a), once);
}

#[test]
fn flight_has_no_gaps() {
    let (mut a, _b) = connected();
    assert_eq!(a.send_payload_data(messages(9, 1200)), Ok(()));
    let mut acked = 999;
    while !a.inflight_queue.is_empty() || !a.pending_queue.is_empty() {
        outgoing(&mut a, 0);
        let flight: Vec<u32> = (acked + 1..a.tcb.tx.my_next_tsn).collect();
        assert_eq!(a.inflight_queue.sorted, flight);
        // one chunk after the other is acknowledged, with the next one behind a gap
        acked += 1;
        let gap = if flight.len() > 2 { vec![GapAckBlock { start: 2, end: 2 }] } else { vec![] };
        assert!(a.handle_sack(&sack(acked, gap), 0).is_ok());
    }
    assert_eq!(acked, 1008);
    assert_eq!(a.tcb.tx.my_next_tsn, 1009);
}

#[test]
fn exactly_what_was_received_is_acknowledged() {
    let (mut a, mut b) = connected();
    a.tcb.cc.cwnd = 20_000;
    assert_eq!(a.send_payload_data(messages(6, 1200)), Ok(()));
    let raws = outgoing(&mut a, 0);
    assert_eq!(raws.len(), 6);
    for k in [0, 2, 3, 5] {
        deliver(&mut b, &raws[k], 0);
    }
    assert_eq!(pump(&mut b, &mut a, 0), 1);
    assert_eq!(a.tcb.tx.cumulative_tsn_ack_point, 1000);
    assert_eq!(a.inflight_queue.sorted, vec![1001, 1002, 1003, 1004, 1005]);
    let acked: Vec<u32> = a
        .inflight_queue
        .sorted
        .iter()
        .filter(|t| a.inflight_queue.get(**t).unwrap().acked)
        .cloned()
        .collect();
    assert_eq!(acked, vec![1002, 1003, 1005]);
}

#[test]
fn a_whole_message_goes_through() {
    let (mut a, mut b) = connected();
    let text: Vec<u8> = (0..20_000u32).map(|k| (k % 251) as u8).collect();
    let parts: Vec<&[u8]> = text.chunks(1200).collect();
    let n = parts.len();
    let chunks = parts
        .iter()
        .enumerate()
        .map(|(k, part)| {
            let mut c = message(part);
            c.beginning_fragment = k == 0;
            c.ending_fragment = k == n - 1;
            c
        })
        .collect();
    assert_eq!(a.send_payload_data(chunks), Ok(()));
    let mut now = 0;
    for _ in 0..100 {
        now += 250 * MS;
        pump(&mut a, &mut b, now);
        b.handle_timeout(now);
        pump(&mut b, &mut a, now);
        a.handle_timeout(now);
    }
    assert_eq!(a.buffered_amount(), 0);
    assert_eq!(read(&mut b, 1), Some(text));
}

#[test]
fn unknown_error_causes_are_named_by_their_codes() {
    let (mut a, _b) = connected();
    let error_causes = vec![Tlv { typ: 40_000, value: Bytes::new() }];
    assert_eq!(
        hand(&mut a, Chunk::Error(ChunkError { error_causes }), 0),
        Err(Error::ErrAbortChunk("(Unknown CauseCode: 40000)".to_string()))
    );
}
