//! Errors of the codec and of the protocol.

use vstd::prelude::*;

verus! {

/// What can go wrong with a packet or an association.
#[derive(Debug, Clone, PartialEq, Eq)]
pub enum Error {
    /// raw is too small for a chunk header
    ErrChunkHeaderTooSmall,
    /// the length field of a chunk does not cover the chunk header
    ErrChunkHeaderInvalidLength,
    /// not enough data left for the chunk that the header announces
    ErrChunkHeaderNotEnoughSpace,
    /// chunk padding is non-zero
    ErrChunkHeaderPaddingNonZero,
    /// a chunk value does not fit the 16-bit length field
    ErrChunkValueTooLong,
    /// a packet does not fit one buffer
    ErrPacketTooLong,
    /// param header too short
    ErrParamHeaderTooShort,
    /// param self reported length is shorter than header length
    ErrParamHeaderSelfReportedLengthShorter,
    /// param self reported length is longer than the bytes that are left
    ErrParamHeaderSelfReportedLengthLonger,
    /// outgoing SSN reset request parameter too short
    ErrSsnResetRequestParamTooShort,
    /// reconfig response parameter too short
    ErrReconfigRespParamTooShort,
    /// INIT chunk value isn't long enough for its mandatory parameters
    ErrChunkValueNotLongEnough,
    /// INIT chunk flags must be zero
    ErrChunkTypeInitFlagZero,
    /// INIT chunk: initiate tag must not be 0
    ErrChunkTypeInitInitateTagZero,
    /// INIT inbound stream request must be > 0
    ErrInitInboundStreamRequestZero,
    /// INIT outbound stream request must be > 0
    ErrInitOutboundStreamRequestZero,
    /// INIT advertised receiver window credit must be >= 1500
    ErrInitAdvertisedReceiver1500,
    /// DATA chunk is smaller than its header
    ErrChunkPayloadSmall,
    /// SACK chunk size is not large enough to contain its header
    ErrSackSizeNotLargeEnoughInfo,
    /// SACK chunk size does not match the announced numbers of blocks
    ErrSackSizeNotMatchPredicted,
    /// RECONFIG chunk without a parameter
    ErrChunkReconfigInvalidParamA,
    /// FORWARD TSN chunk too short
    ErrChunkTooShort,
    /// SHUTDOWN chunk of the wrong size
    ErrInvalidChunkSize,
    /// raw is smaller than the minimum length for a SCTP packet
    ErrPacketRawTooSmall,
    /// unable to parse SCTP chunk, not enough data for complete header
    ErrParseSctpChunkNotEnoughData,
    /// failed to unmarshal, contains unknown chunk type
    ErrUnmarshalUnknownChunkType,
    /// checksum mismatch
    ErrChecksumMismatch,
    /// shutdown called in non-established state
    ErrShutdownNonEstablished,
    /// INIT not stored to send
    ErrInitNotStoredToSend,
    /// COOKIE-ECHO not stored to send
    ErrCookieEchoNotStoredToSend,
    /// SCTP packet must not have a source port of 0
    ErrSctpPacketSourcePortZero,
    /// SCTP packet must not have a destination port of 0
    ErrSctpPacketDestinationPortZero,
    /// INIT chunk must not be bundled with any other chunk
    ErrInitChunkBundled,
    /// INIT chunk expects a verification tag of 0 on the packet
    ErrInitChunkVerifyTagNotZero,
    /// unexpected INIT in a state that does not take one
    ErrHandleInitState,
    /// no cookie in INIT ACK
    ErrInitAckNoCookie,
    /// an acknowledged chunk is not at the head of the inflight queue
    ErrInflightQueueTsnPop,
    /// a TSN is asked for that is not in flight
    ErrTsnRequestNotExist,
    /// sending a reset packet in a non-established state
    ErrResetPacketInStateNotExist,
    /// unexpected parameter type
    ErrParameterType,
    /// sending payload data in a non-established state
    ErrPayloadDataStateNotExist,
    /// unhandled chunk type
    ErrChunkTypeUnhandled,
    /// handshake failed (INIT ACK)
    ErrHandshakeInitAck,
    /// handshake failed (COOKIE ECHO)
    ErrHandshakeCookieEcho,
    /// stream does not exist
    ErrStreamNotExisted,
    /// stream already exists
    ErrStreamAlreadyExist,
    /// stream could not be created
    ErrStreamCreateFailed,
    /// an ABORT or ERROR chunk was received; the text lists its causes
    ErrAbortChunk(String),
}

/// The content of an [`Error`].
pub enum ErrorView {
    /// An ABORT or ERROR chunk with this text.
    AbortChunk(Seq<char>),
    /// Any other error.
    Plain(Error),
}

impl View for Error {
    type V = ErrorView;

    open spec fn view(&self) -> ErrorView {
        match *self {
            Error::ErrAbortChunk(text) => ErrorView::AbortChunk(text@),
            e => ErrorView::Plain(e),
        }
    }
}

} // verus!
