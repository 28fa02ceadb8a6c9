use bytes::{Bytes, BytesMut};
use sctp_proto::chunk::kinds::{
    Chunk, ChunkAbort, ChunkCookieEcho, ChunkError, ChunkForwardTsn, ChunkForwardTsnStream,
    ChunkHeartbeat, ChunkHeartbeatAck, ChunkInit, ChunkReconfig, ChunkSelectiveAck, ChunkShutdown,
    GapAckBlock, CT_COOKIE_ECHO, CT_INIT, CT_INIT_ACK,
};
use sctp_proto::chunk::param::{
    Param, ParamHeartbeatInfo, ParamOutgoingResetRequest, ParamReconfigResponse, ParamStateCookie,
    ReconfigResult,
};
use sctp_proto::chunk::payload::{ChunkPayloadData, PayloadProtocolIdentifier};
use sctp_proto::chunk::tlv::Tlv;
use sctp_proto::error::Error;
use sctp_proto::packet::{generate_packet_checksum, CommonHeader, Packet, PartialDecode};

fn header_only() -> Bytes {
    Bytes::from_static(&[
        0x13, 0x88, 0x13, 0x88, 0x00, 0x00, 0x00, 0x00, 0x06, 0xa9, 0x00, 0xe1,
    ])
}

fn init_packet() -> Bytes {
    Bytes::from_static(&[
        0x13, 0x88, 0x13, 0x88, 0x00, 0x00, 0x00, 0x00, 0x81, 0x46, 0x9d, 0xfc, 0x01, 0x00, 0x00,
        0x56, 0x55, 0xb9, 0x64, 0xa5, 0x00, 0x02, 0x00, 0x00, 0x04, 0x00, 0x08, 0x00, 0xe8, 0x6d,
        0x10, 0x30, 0xc0, 0x00, 0x00, 0x04, 0x80, 0x08, 0x00, 0x09, 0xc0, 0x0f, 0xc1, 0x80, 0x82,
        0x00, 0x00, 0x00, 0x80, 0x02, 0x00, 0x24, 0x9f, 0xeb, 0xbb, 0x5c, 0x50, 0xc9, 0xbf, 0x75,
        0x9c, 0xb1, 0x2c, 0x57, 0x4f, 0xa4, 0x5a, 0x51, 0xba, 0x60, 0x17, 0x78, 0x27, 0x94, 0x5c,
        0x31, 0xe6, 0x5d, 0x5b, 0x09, 0x47, 0xe2, 0x22, 0x06, 0x80, 0x04, 0x00, 0x06, 0x00, 0x01,
        0x00, 0x00, 0x80, 0x03, 0x00, 0x06, 0x80, 0xc1, 0x00, 0x00,
    ])
}

/// A packet with these bytes behind the common header and with a right checksum.
fn raw_with(chunks: &[u8]) -> Bytes {
    let mut v: Vec<u8> = vec![0x13, 0x88, 0x13, 0x89, 0x00, 0x00, 0x00, 0x07, 0, 0, 0, 0];
    v.extend_from_slice(chunks);
    let sum = generate_packet_checksum(&Bytes::from(v.clone()));
    v[8..12].copy_from_slice(&sum.to_le_bytes());
    Bytes::from(v)
}

fn unmarshal_error(chunks: &[u8]) -> Error {
    Packet::unmarshal(&raw_with(chunks)).unwrap_err()
}

fn header(tag: u32) -> CommonHeader {
    CommonHeader { source_port: 5000, destination_port: 5001, verification_tag: tag }
}

fn packet(chunks: Vec<Chunk>) -> Packet {
    Packet { common_header: header(7), chunks }
}

fn init(is_ack: bool) -> ChunkInit {
    ChunkInit {
        is_ack,
        initiate_tag: 11,
        advertised_receiver_window_credit: 100_000,
        num_outbound_streams: 3,
        num_inbound_streams: 4,
        initial_tsn: 77,
        params: vec![Param::StateCookie(ParamStateCookie {
            cookie: Bytes::from_static(b"cookie"),
        })],
    }
}

/// A packet comes back from its bytes as it was, byte for byte.
fn roundtrip(chunk: Chunk) {
    let p = packet(vec![chunk]);
    let raw = p.marshal().unwrap();
    assert_eq!(raw.len() % 4, 0);
    let q = Packet::unmarshal(&raw).unwrap();
    assert_eq!(format!("{:?}", p), format!("{:?}", q));
    assert_eq!(q.marshal().unwrap(), raw);
}

#[test]
fn test_packet_unmarshal() {
    let result = Packet::unmarshal(&Bytes::new());
    assert!(result.is_err(), "Unmarshal should fail when a packet is too small to be SCTP");

    let header_only = Bytes::from_static(&[
        0x13, 0x88, 0x13, 0x88, 0x00, 0x00, 0x00, 0x00, 0x06, 0xa9, 0x00, 0xe1,
    ]);
    let pkt = Packet::unmarshal(&header_only).unwrap();
    assert_eq!(
        pkt.common_header.source_port, 5000,
        "Unmarshal passed for SCTP packet, but got incorrect source port exp: {} act: {}",
        5000, pkt.common_header.source_port
    );
    assert_eq!(
        pkt.common_header.destination_port, 5000,
        "Unmarshal passed for SCTP packet, but got incorrect destination port exp: {} act: {}",
        5000, pkt.common_header.destination_port
    );
    assert_eq!(
        pkt.common_header.verification_tag, 0,
        "Unmarshal passed for SCTP packet, but got incorrect verification tag exp: {} act: {}",
        0, pkt.common_header.verification_tag
    );

    let raw_chunk = Bytes::from_static(&[
        0x13, 0x88, 0x13, 0x88, 0x00, 0x00, 0x00, 0x00, 0x81, 0x46, 0x9d, 0xfc, 0x01, 0x00, 0x00,
        0x56, 0x55, 0xb9, 0x64, 0xa5, 0x00, 0x02, 0x00, 0x00, 0x04, 0x00, 0x08, 0x00, 0xe8, 0x6d,
        0x10, 0x30, 0xc0, 0x00, 0x00, 0x04, 0x80, 0x08, 0x00, 0x09, 0xc0, 0x0f, 0xc1, 0x80, 0x82,
        0x00, 0x00, 0x00, 0x80, 0x02, 0x00, 0x24, 0x9f, 0xeb, 0xbb, 0x5c, 0x50, 0xc9, 0xbf, 0x75,
        0x9c, 0xb1, 0x2c, 0x57, 0x4f, 0xa4, 0x5a, 0x51, 0xba, 0x60, 0x17, 0x78, 0x27, 0x94, 0x5c,
        0x31, 0xe6, 0x5d, 0x5b, 0x09, 0x47, 0xe2, 0x22, 0x06, 0x80, 0x04, 0x00, 0x06, 0x00, 0x01,
        0x00, 0x00, 0x80, 0x03, 0x00, 0x06, 0x80, 0xc1, 0x00, 0x00,
    ]);

    Packet::unmarshal(&raw_chunk).unwrap();
}

#[test]
fn test_packet_marshal() {
    let header_only = Bytes::from_static(&[
        0x13, 0x88, 0x13, 0x88, 0x00, 0x00, 0x00, 0x00, 0x06, 0xa9, 0x00, 0xe1,
    ]);
    let pkt = Packet::unmarshal(&header_only).unwrap();
    let header_only_marshaled = pkt.marshal().unwrap();
    assert_eq!(
        header_only, header_only_marshaled,
        "Unmarshal/Marshaled header only packet did not match \nheaderOnly: {:?} \nheader_only_marshaled {:?}",
        header_only, header_only_marshaled
    );
}

#[test]
fn test_partial_decode_init_chunk() {
    let raw_pkt = Bytes::from_static(&[
        0x13, 0x88, 0x13, 0x88, 0x00, 0x00, 0x00, 0x00, 0x81, 0x46, 0x9d, 0xfc, 0x01, 0x00, 0x00,
        0x56, 0x55, 0xb9, 0x64, 0xa5, 0x00, 0x02, 0x00, 0x00, 0x04, 0x00, 0x08, 0x00, 0xe8, 0x6d,
        0x10, 0x30, 0xc0, 0x00, 0x00, 0x04, 0x80, 0x08, 0x00, 0x09, 0xc0, 0x0f, 0xc1, 0x80, 0x82,
        0x00, 0x00, 0x00, 0x80, 0x02, 0x00, 0x24, 0x9f, 0xeb, 0xbb, 0x5c, 0x50, 0xc9, 0xbf, 0x75,
        0x9c, 0xb1, 0x2c, 0x57, 0x4f, 0xa4, 0x5a, 0x51, 0xba, 0x60, 0x17, 0x78, 0x27, 0x94, 0x5c,
        0x31, 0xe6, 0x5d, 0x5b, 0x09, 0x47, 0xe2, 0x22, 0x06, 0x80, 0x04, 0x00, 0x06, 0x00, 0x01,
        0x00, 0x00, 0x80, 0x03, 0x00, 0x06, 0x80, 0xc1, 0x00, 0x00,
    ]);
    let pkt = PartialDecode::unmarshal(&raw_pkt).unwrap();

    assert_eq!(pkt.first_chunk_type, CT_INIT);
    assert!(pkt.initiate_tag.is_some());
    if let Some(initiate_tag) = pkt.initiate_tag {
        assert_eq!(
            initiate_tag, 1438213285,
            "Unmarshal passed for SCTP packet, but got incorrect initiate tag exp: {} act: {}",
            1438213285, initiate_tag
        );
    }
}

#[test]
fn test_partial_decode_init_ack() {
    let raw_pkt = Bytes::from_static(&[
        0x13, 0x88, 0x13, 0x88, 0xce, 0x15, 0x79, 0xa2, 0x96, 0x19, 0xe8, 0xb2, 0x02, 0x00, 0x00,
        0x1c, 0xeb, 0x81, 0x4e, 0x01, 0x00, 0x00, 0x00, 0x00, 0x04, 0x00, 0x08, 0x00, 0x50, 0xdf,
        0x90, 0xd9, 0x00, 0x07, 0x00, 0x08, 0x94, 0x06, 0x2f, 0x93,
    ]);
    let pkt = PartialDecode::unmarshal(&raw_pkt).unwrap();

    assert_eq!(pkt.first_chunk_type, CT_INIT_ACK);
    assert!(pkt.initiate_tag.is_some());
    if let Some(initiate_tag) = pkt.initiate_tag {
        assert_eq!(
            initiate_tag, 3951119873u32,
            "Unmarshal passed for SCTP packet, but got incorrect initiate tag exp: {} act: {}",
            3951119873u32, initiate_tag
        );
    }
}

#[test]
fn checksum_of_header_only_packet() {
    assert_eq!(generate_packet_checksum(&header_only()), 0xe100_a906);
    assert_eq!(generate_packet_checksum(&init_packet()), 0xfc9d_4681);
}

#[test]
fn init_packet_is_read() {
    let p = Packet::unmarshal(&init_packet()).unwrap();
    assert_eq!(p.chunks.len(), 1);
    match &p.chunks[0] {
        Chunk::Init(i) => {
            assert!(!i.is_ack);
            assert_eq!(i.initiate_tag, 1438213285);
            assert_eq!(i.advertised_receiver_window_credit, 131072);
            assert_eq!(i.num_outbound_streams, 1024);
            assert_eq!(i.num_inbound_streams, 2048);
            assert_eq!(i.initial_tsn, 3899461680);
            assert_eq!(i.params.len(), 5);
            assert!(i.supports_forward_tsn());
            match &i.params[1] {
                Param::SupportedExtensions(e) => {
                    assert_eq!(e.chunk_types, vec![0xc0, 0x0f, 0xc1, 0x80, 0x82])
                }
                other => panic!("{:?}", other),
            }
        }
        other => panic!("{:?}", other),
    }
    assert_eq!(p.check_packet(), Ok(()));
}

#[test]
fn partial_decode_of_a_cookie_echo() {
    let p = packet(vec![Chunk::CookieEcho(ChunkCookieEcho {
        cookie: Bytes::from_static(b"0123456"),
    })]);
    let raw = p.marshal().unwrap();
    let d = PartialDecode::unmarshal(&raw).unwrap();
    assert_eq!(d.first_chunk_type, CT_COOKIE_ECHO);
    assert_eq!(d.initiate_tag, None);
    assert_eq!(d.cookie, Some(Bytes::from_static(b"0123456")));
    assert_eq!(d.remaining, raw.slice(12..));
    assert_eq!(d.common_header.destination_port, 5001);
}

#[test]
fn partial_decode_then_finish_reads_the_packet() {
    let raw = init_packet();
    let whole = Packet::unmarshal(&raw).unwrap();
    let parts = PartialDecode::unmarshal(&raw).unwrap().finish().unwrap();
    assert_eq!(format!("{:?}", whole), format!("{:?}", parts));
}

#[test]
fn cut_off_initiate_tag_is_told_apart() {
    assert!(PartialDecode::try_unmarshal(&raw_with(&[1, 0, 0, 4])).is_none());
    assert!(PartialDecode::try_unmarshal(&raw_with(&[2, 0, 0, 6, 0, 0])).is_none());
    assert!(PartialDecode::try_unmarshal(&raw_with(&[11, 0, 0, 4])).unwrap().is_ok());
    assert_eq!(
        PartialDecode::try_unmarshal(&raw_with(&[1, 0, 0])).unwrap().unwrap_err(),
        Error::ErrParseSctpChunkNotEnoughData
    );
    assert_eq!(
        PartialDecode::try_unmarshal(&raw_with(&[11, 0, 0, 3])).unwrap().unwrap_err(),
        Error::ErrChunkHeaderInvalidLength
    );
    assert_eq!(
        PartialDecode::try_unmarshal(&Bytes::from_static(&[0; 11])).unwrap().unwrap_err(),
        Error::ErrPacketRawTooSmall
    );
}

#[test]
fn broken_packets_are_refused() {
    assert_eq!(Packet::unmarshal(&Bytes::new()).unwrap_err(), Error::ErrPacketRawTooSmall);
    let mut bad = header_only().to_vec();
    bad[8] ^= 1;
    assert_eq!(Packet::unmarshal(&Bytes::from(bad)).unwrap_err(), Error::ErrChecksumMismatch);
    assert_eq!(unmarshal_error(&[11, 0]), Error::ErrParseSctpChunkNotEnoughData);
    assert_eq!(unmarshal_error(&[11, 0, 0, 3]), Error::ErrChunkHeaderInvalidLength);
    assert_eq!(unmarshal_error(&[11, 0, 0, 8]), Error::ErrChunkHeaderNotEnoughSpace);
    assert_eq!(unmarshal_error(&[10, 0, 0, 5, 1, 0, 9, 0]), Error::ErrChunkHeaderPaddingNonZero);
    assert_eq!(unmarshal_error(&[10, 0, 0, 5, 1]), Error::ErrParseSctpChunkNotEnoughData);
    assert_eq!(unmarshal_error(&[99, 0, 0, 4]), Error::ErrUnmarshalUnknownChunkType);
    assert_eq!(unmarshal_error(&[1, 0, 0, 8, 0, 0, 0, 1]), Error::ErrChunkValueNotLongEnough);
    assert_eq!(unmarshal_error(&[7, 0, 0, 5, 1, 0, 0, 0]), Error::ErrInvalidChunkSize);
    assert_eq!(unmarshal_error(&[3, 0, 0, 8, 0, 0, 0, 1]), Error::ErrSackSizeNotLargeEnoughInfo);
    assert_eq!(unmarshal_error(&[0, 3, 0, 8, 0, 0, 0, 1]), Error::ErrChunkPayloadSmall);
    assert_eq!(unmarshal_error(&[192, 0, 0, 4]), Error::ErrChunkTooShort);
}

#[test]
fn init_with_flags_is_refused() {
    let mut raw = init_packet().to_vec();
    raw[13] = 1;
    let sum = generate_packet_checksum(&Bytes::from(raw.clone()));
    raw[8..12].copy_from_slice(&sum.to_le_bytes());
    assert_eq!(
        Packet::unmarshal(&Bytes::from(raw)).unwrap_err(),
        Error::ErrChunkTypeInitFlagZero
    );
}

#[test]
fn sack_with_a_wrong_count_is_refused() {
    let mut value = vec![3, 0, 0, 16];
    value.extend_from_slice(&[0, 0, 0, 1, 0, 0, 0, 9, 0, 1, 0, 0]);
    assert_eq!(unmarshal_error(&value), Error::ErrSackSizeNotMatchPredicted);
}

#[test]
fn broken_params_are_refused() {
    let init = |params: &[u8]| {
        let mut v = vec![1, 0, 0, (20 + params.len()) as u8];
        v.extend_from_slice(&[0, 0, 0, 1, 0, 1, 0, 0, 0, 1, 0, 1, 0, 0, 0, 5]);
        v.extend_from_slice(params);
        v
    };
    assert_eq!(
        unmarshal_error(&init(&[0, 7, 0, 3])),
        Error::ErrParamHeaderSelfReportedLengthShorter
    );
    assert_eq!(
        unmarshal_error(&init(&[0, 7, 0, 9, 0, 0, 0, 0])),
        Error::ErrParamHeaderSelfReportedLengthLonger
    );
    assert!(Packet::unmarshal(&raw_with(&init(&[0, 7, 0, 8, 1, 2, 3, 4]))).is_ok());
    assert_eq!(
        unmarshal_error(&[130, 0, 0, 12, 0, 13, 0, 8, 0, 0, 0, 0]),
        Error::ErrSsnResetRequestParamTooShort
    );
    assert_eq!(
        unmarshal_error(&[130, 0, 0, 12, 0, 16, 0, 8, 0, 0, 0, 0]),
        Error::ErrReconfigRespParamTooShort
    );
}

#[test]
fn packets_are_checked() {
    let mut p = packet(vec![Chunk::CookieAck]);
    assert_eq!(p.check_packet(), Ok(()));
    p.common_header.source_port = 0;
    assert_eq!(p.check_packet(), Err(Error::ErrSctpPacketSourcePortZero));
    p.common_header.source_port = 1;
    p.common_header.destination_port = 0;
    assert_eq!(p.check_packet(), Err(Error::ErrSctpPacketDestinationPortZero));

    let p = packet(vec![Chunk::Init(init(false)), Chunk::CookieAck]);
    assert_eq!(p.check_packet(), Err(Error::ErrInitChunkBundled));
    let p = packet(vec![Chunk::Init(init(false))]);
    assert_eq!(p.check_packet(), Err(Error::ErrInitChunkVerifyTagNotZero));
    let p = Packet { common_header: header(0), chunks: vec![Chunk::Init(init(false))] };
    assert_eq!(p.check_packet(), Ok(()));
    let p = packet(vec![Chunk::Init(init(true)), Chunk::CookieAck]);
    assert_eq!(p.check_packet(), Err(Error::ErrInitChunkBundled));
    let p = packet(vec![Chunk::CookieAck, Chunk::Init(init(true))]);
    assert_eq!(p.check_packet(), Err(Error::ErrInitChunkBundled));
    let p = packet(vec![Chunk::Init(init(true))]);
    assert_eq!(p.check_packet(), Ok(()));
}

#[test]
fn chunks_are_checked() {
    let mut i = init(false);
    i.initiate_tag = 0;
    assert_eq!(Chunk::Init(i).check(), Err(Error::ErrChunkTypeInitInitateTagZero));
    let mut i = init(false);
    i.num_inbound_streams = 0;
    assert_eq!(Chunk::Init(i).check(), Err(Error::ErrInitInboundStreamRequestZero));
    let mut i = init(false);
    i.num_outbound_streams = 0;
    assert_eq!(Chunk::Init(i).check(), Err(Error::ErrInitOutboundStreamRequestZero));
    let mut i = init(false);
    i.advertised_receiver_window_credit = 1499;
    assert_eq!(Chunk::Init(i).check(), Err(Error::ErrInitAdvertisedReceiver1500));
    let mut i = init(false);
    i.advertised_receiver_window_credit = 1500;
    assert_eq!(Chunk::Init(i).check(), Ok(()));
    assert_eq!(Chunk::ShutdownAck.check(), Ok(()));
}

#[test]
fn every_kind_of_chunk_survives_the_wire() {
    roundtrip(Chunk::Init(init(true)));
    roundtrip(Chunk::Init(init(false)));
    roundtrip(Chunk::CookieAck);
    roundtrip(Chunk::ShutdownAck);
    roundtrip(Chunk::ShutdownComplete);
    roundtrip(Chunk::Shutdown(ChunkShutdown { cumulative_tsn_ack: 0xdead_beef }));
    roundtrip(Chunk::CookieEcho(ChunkCookieEcho { cookie: Bytes::from_static(b"abcde") }));
    roundtrip(Chunk::Heartbeat(ChunkHeartbeat {
        params: vec![Param::HeartbeatInfo(ParamHeartbeatInfo {
            heartbeat_information: Bytes::from_static(b"xyz"),
        })],
    }));
    roundtrip(Chunk::Abort(ChunkAbort {
        error_causes: vec![Tlv { typ: 12, value: Bytes::from_static(b"bye") }],
    }));
    roundtrip(Chunk::Error(ChunkError {
        error_causes: vec![Tlv { typ: 6, value: Bytes::new() }],
    }));
    roundtrip(Chunk::SelectiveAck(ChunkSelectiveAck {
        cumulative_tsn_ack: 9,
        advertised_receiver_window_credit: 70000,
        gap_ack_blocks: vec![GapAckBlock { start: 2, end: 3 }, GapAckBlock { start: 5, end: 9 }],
        duplicate_tsn: vec![4, 0xffff_ffff],
    }));
    roundtrip(Chunk::Reconfig(ChunkReconfig {
        param_a: Some(Param::OutgoingResetRequest(ParamOutgoingResetRequest {
            reconfig_request_sequence_number: 1,
            reconfig_response_sequence_number: 2,
            sender_last_tsn: 3,
            stream_identifiers: vec![4, 5, 6],
        })),
        param_b: Some(Param::ReconfigResponse(ParamReconfigResponse {
            reconfig_response_sequence_number: 7,
            result: ReconfigResult::SuccessPerformed,
        })),
    }));
    roundtrip(Chunk::ForwardTsn(ChunkForwardTsn {
        new_cumulative_tsn: 3,
        streams: vec![ChunkForwardTsnStream { identifier: 1, sequence: 2 }],
    }));
    let mut d = ChunkPayloadData::default();
    d.beginning_fragment = true;
    d.ending_fragment = true;
    d.unordered = true;
    d.immediate_sack = true;
    d.tsn = 0x0102_0304;
    d.stream_identifier = 5;
    d.stream_sequence_number = 6;
    d.payload_type = PayloadProtocolIdentifier::Binary;
    d.user_data = Bytes::from_static(b"hello");
    roundtrip(Chunk::PayloadData(d));
}

#[test]
fn heartbeat_ack_is_written_but_not_read() {
    let p = packet(vec![Chunk::HeartbeatAck(ChunkHeartbeatAck {
        params: vec![Param::HeartbeatInfo(ParamHeartbeatInfo {
            heartbeat_information: Bytes::from_static(b"xyzw"),
        })],
    })]);
    let raw = p.marshal().unwrap();
    assert_eq!(
        raw.slice(12..).to_vec(),
        vec![5, 0, 0, 12, 0, 1, 0, 8, b'x', b'y', b'z', b'w']
    );
    assert_eq!(Packet::unmarshal(&raw).unwrap_err(), Error::ErrUnmarshalUnknownChunkType);
}

#[test]
fn bytes_of_a_data_chunk() {
    let mut d = ChunkPayloadData::default();
    d.beginning_fragment = true;
    d.ending_fragment = true;
    d.tsn = 0x0102_0304;
    d.stream_identifier = 5;
    d.stream_sequence_number = 6;
    d.payload_type = PayloadProtocolIdentifier::String;
    d.user_data = Bytes::from_static(b"hello");
    let raw = packet(vec![Chunk::PayloadData(d)]).marshal().unwrap();
    assert_eq!(
        raw.slice(12..).to_vec(),
        vec![
            0, 3, 0, 21, 1, 2, 3, 4, 0, 5, 0, 6, 0, 0, 0, 51, b'h', b'e', b'l', b'l', b'o', 0, 0, 0
        ]
    );
    assert_eq!(raw.slice(0..8).to_vec(), vec![0x13, 0x88, 0x13, 0x89, 0, 0, 0, 7]);
}

#[test]
fn marshal_to_appends() {
    let p = packet(vec![Chunk::CookieAck]);
    let mut w = BytesMut::new();
    w.extend_from_slice(b"abcd");
    let n = p.marshal_to(&mut w).unwrap();
    assert_eq!(n, 20);
    assert_eq!(&w[0..4], b"abcd");
    assert_eq!(&w[4..12], &p.marshal().unwrap()[0..8]);
}

#[test]
fn a_chunk_that_is_too_long_is_refused() {
    let cookie = Bytes::from(vec![1u8; 65532]);
    let p = packet(vec![Chunk::CookieEcho(ChunkCookieEcho { cookie })]);
    assert_eq!(p.marshal().unwrap_err(), Error::ErrChunkValueTooLong);
    let cookie = Bytes::from(vec![1u8; 65531]);
    roundtrip(Chunk::CookieEcho(ChunkCookieEcho { cookie }));
}

#[test]
fn packet_as_text() {
    let p = packet(vec![]);
    assert_eq!(
        p.to_text(),
        "Packet:\n        source_port: 5000\n        destination_port: 5001\n        verification_tag: 7\n        "
    );
    let p = packet(vec![Chunk::CookieAck]);
    assert!(p.to_text().ends_with("Chunk: COOKIE-ACK"));
}
