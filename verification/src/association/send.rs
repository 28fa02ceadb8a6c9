//! Which DATA chunks are sent, for the first time or again.

use fxhash::FxHashMap;
use vstd::prelude::*;

use crate::association::stream::{ReliabilityType, StreamState, StreamView};
use crate::association::view::{stream_views, Association, AssociationView, Congestion, Sender, Tcb};
use crate::buffer::bytes_len;
use crate::chunk::payload::{
    data_views, elapsed_millis, millis_between, remove_chunk, ChunkPayloadData, DataView, Instant,
    PayloadProtocolIdentifier,
};
use crate::chunk::kinds::{chunk_views, Chunk, ChunkView};
use crate::config::{COMMON_HEADER_SIZE, DATA_CHUNK_HEADER_SIZE};
use crate::fx::fx_get;
use crate::packet::{packet_views, CommonHeader, Packet, PacketView};
use crate::queue::payload_queue::lemma_push_wf;
use crate::queue::pending_queue::{lemma_attached_first, lemma_pop_wf, PendingQueueView};
use crate::util::{get_padding_size, low32, padding};

verus! {

/// Whether a chunk is to be given up now: its stream is only partly reliable, and the chunk was
/// sent often enough or long enough ago. Chunks that establish data channels are always
/// reliable.
pub open spec fn gives_up(
    c: DataView,
    now: Instant,
    use_forward_tsn: bool,
    streams: Map<u16, StreamView>,
) -> bool {
    use_forward_tsn && c.payload_type != PayloadProtocolIdentifier::Dcep && streams.contains_key(
        c.stream_identifier,
    ) && {
        let s = streams[c.stream_identifier];
        match s.reliability_type {
            ReliabilityType::Reliable => false,
            ReliabilityType::Rexmit => c.nsent >= s.reliability_value,
            ReliabilityType::Timed => match c.since {
                Some(since) => low32(millis_between(since, now) as int) >= s.reliability_value,
                None => false,
            },
        }
    }
}

/// A chunk, given up if it is time to.
#[verifier::opaque]
pub open spec fn judged(
    c: DataView,
    now: Instant,
    use_forward_tsn: bool,
    streams: Map<u16, StreamView>,
) -> DataView {
    if gives_up(c, now, use_forward_tsn, streams) {
        DataView { abandoned: true, ..c }
    } else {
        c
    }
}

/// A chunk keeps its TSN and its data when it is judged.
pub proof fn lemma_judged(
    c: DataView,
    now: Instant,
    use_forward_tsn: bool,
    streams: Map<u16, StreamView>,
)
    ensures
        judged(c, now, use_forward_tsn, streams).tsn == c.tsn,
        judged(c, now, use_forward_tsn, streams).user_data == c.user_data,
{
    reveal(judged);
}

/// A chunk that waited, on its way for the first time.
#[verifier::opaque]
pub open spec fn launched(
    c: DataView,
    tsn: u32,
    now: Instant,
    use_forward_tsn: bool,
    streams: Map<u16, StreamView>,
) -> DataView {
    judged(
        DataView {
            all_inflight: c.all_inflight || c.ending_fragment,
            tsn,
            since: Some(now),
            nsent: 1,
            ..c
        },
        now,
        use_forward_tsn,
        streams,
    )
}

/// A chunk keeps its data when it is sent.
pub proof fn lemma_launched(
    c: DataView,
    tsn: u32,
    now: Instant,
    use_forward_tsn: bool,
    streams: Map<u16, StreamView>,
)
    ensures
        launched(c, tsn, now, use_forward_tsn, streams).tsn == tsn,
        launched(c, tsn, now, use_forward_tsn, streams).user_data == c.user_data,
{
    reveal(launched);
    reveal(judged);
}

impl AssociationView {
    /// A chunk that waited goes into flight: the chunk as it is sent.
    pub open spec fn moved_chunk(
        self,
        beginning_fragment: bool,
        unordered: bool,
        now: Instant,
    ) -> Option<DataView> {
        match self.pending_queue.popped(beginning_fragment, unordered) {
            None => None,
            Some(c) => Some(
                launched(
                    c,
                    self.tcb.tx.my_next_tsn,
                    now,
                    self.tcb.peer.use_forward_tsn,
                    self.streams,
                ),
            ),
        }
    }

    /// The association after a chunk that waited went into flight.
    pub open spec fn move_pending(
        self,
        beginning_fragment: bool,
        unordered: bool,
        now: Instant,
    ) -> AssociationView {
        match self.moved_chunk(beginning_fragment, unordered, now) {
            None => self,
            Some(c) => AssociationView {
                pending_queue: self.pending_queue.pop(beginning_fragment, unordered),
                inflight_queue: self.inflight_queue.push_no_check(c),
                tcb: Tcb {
                    tx: Sender {
                        my_next_tsn: self.tcb.tx.my_next_tsn.wrapping_add(1),
                        ..self.tcb.tx
                    },
                    ..self.tcb
                },
                ..self
            },
        }
    }

    /// Whether the windows allow `n` more bytes in flight.
    pub open spec fn may_send(self, n: nat) -> bool {
        self.inflight_queue.n_bytes + n <= self.tcb.cc.cwnd && n <= self.tcb.cc.rwnd
    }

    /// The association with `n` bytes of the peer's window used.
    pub open spec fn use_window(self, n: nat) -> AssociationView {
        self.with_cc(Congestion { rwnd: (self.tcb.cc.rwnd - n) as u32, ..self.tcb.cc })
    }
}

/// Chunks with one more, if there is one.
pub open spec fn with_chunk(cs: Seq<DataView>, c: Option<DataView>) -> Seq<DataView> {
    match c {
        Some(c) => cs.push(c),
        None => cs,
    }
}

/// The outcome of sending: the association, the chunks to be sent and the streams to be reset.
pub struct Sending {
    pub s: AssociationView,
    pub chunks: Seq<DataView>,
    pub resets: Seq<u16>,
}

/// Sends what waits, in order, as far as the windows allow. A chunk without data stands for the
/// end of its stream.
pub open spec fn send_pending(
    s: AssociationView,
    now: Instant,
    chunks: Seq<DataView>,
    resets: Seq<u16>,
) -> Sending
    decreases s.pending_queue.len(), s.tcb.cc.rwnd,
    when s.pending_queue.wf()
{
    match s.pending_queue.peek() {
        None => Sending { s, chunks, resets },
        Some(c) => {
            proof {
                lemma_pop_wf(s.pending_queue, c.beginning_fragment, c.unordered);
                lemma_end_of_stream_leaves(s.pending_queue);
            }
            let n = c.user_data.len();
            if n == 0 {
                send_pending(
                    AssociationView {
                        pending_queue: s.pending_queue.pop(c.beginning_fragment, c.unordered),
                        ..s
                    },
                    now,
                    chunks,
                    resets.push(c.stream_identifier),
                )
            } else if !s.may_send(n) {
                Sending { s, chunks, resets }
            } else {
                let s1 = s.use_window(n);
                send_pending(
                    s1.move_pending(c.beginning_fragment, c.unordered, now),
                    now,
                    with_chunk(chunks, s1.moved_chunk(c.beginning_fragment, c.unordered, now)),
                    resets,
                )
            }
        },
    }
}

/// A chunk without data that goes next leaves the queue.
pub proof fn lemma_end_of_stream_leaves(q: PendingQueueView)
    requires
        q.wf(),
    ensures
        q.peek() matches Some(c) ==> c.user_data.len() == 0 ==> q.popped(
            c.beginning_fragment,
            c.unordered,
        ) == Some(c),
{
    reveal(PendingQueueView::peek);
    reveal(PendingQueueView::popped);
    reveal(PendingQueueView::wf);
    if q.unordered.len() > 0 {
        lemma_attached_first(q.unordered, q.is_under_way(true));
    }
    if q.ordered.len() > 0 {
        lemma_attached_first(q.ordered, q.is_under_way(false));
    }
}

/// Sends one chunk whatever the windows are, if nothing else is in flight.
pub open spec fn probe(r: Sending, now: Instant) -> Sending {
    if r.chunks.len() == 0 && r.s.idle() {
        match r.s.pending_queue.peek() {
            None => r,
            Some(c) => Sending {
                s: r.s.move_pending(c.beginning_fragment, c.unordered, now),
                chunks: with_chunk(
                    r.chunks,
                    r.s.moved_chunk(c.beginning_fragment, c.unordered, now),
                ),
                resets: r.resets,
            },
        }
    } else {
        r
    }
}

/// What is sent for the first time.
pub open spec fn new_data(s: AssociationView, now: Instant) -> Sending {
    probe(send_pending(s, now, seq![], seq![]), now)
}

impl Association {
    /// Gives a chunk up if it is time to.
    pub fn check_partial_reliability_status(
        c: &mut ChunkPayloadData,
        now: Instant,
        use_forward_tsn: bool,
        streams: &FxHashMap<u16, StreamState>,
    )
        ensures
            final(c)@ == judged(old(c)@, now, use_forward_tsn, stream_views(streams@)),
    {
        broadcast use vstd::std_specs::hash::group_hash_axioms;

        reveal(judged);
        if !use_forward_tsn {
            return;
        }
        // All Data Channel Establishment Protocol messages MUST be sent using ordered delivery
        // and reliable transmission.
        if c.payload_type == PayloadProtocolIdentifier::Dcep {
            return;
        }
        if let Some(s) = fx_get(streams, &c.stream_identifier) {
            if s.reliability_type == ReliabilityType::Rexmit {
                if c.nsent >= s.reliability_value {
                    c.set_abandoned(true);
                }
            } else if s.reliability_type == ReliabilityType::Timed {
                if let Some(since) = c.since {
                    let elapsed = elapsed_millis(since, now);
                    if (elapsed % 0x1_0000_0000) as u32 >= s.reliability_value {
                        c.set_abandoned(true);
                    }
                }
            }
        }
    }

    /// Puts the chunk that was peeked at into flight.
    pub fn move_pending_data_chunk_to_inflight_queue(
        &mut self,
        beginning_fragment: bool,
        unordered: bool,
        now: Instant,
    ) -> (r: Option<ChunkPayloadData>)
        requires
            old(self)@.wf(),
        ensures
            final(self)@ == old(self)@.move_pending(beginning_fragment, unordered, now),
            match r {
                Some(c) => old(self)@.moved_chunk(beginning_fragment, unordered, now) == Some(c@),
                None => old(self)@.moved_chunk(beginning_fragment, unordered, now) is None,
            },
            final(self)@.wf(),
    {
        proof {
            lemma_pop_wf(self@.pending_queue, beginning_fragment, unordered);
        }
        match self.pending_queue.pop(beginning_fragment, unordered) {
            None => None,
            Some(c) => {
                let ghost waiting = c@;
                let tsn = self.generate_next_tsn();
                let c = launch(c, tsn, now, self.tcb.peer.use_forward_tsn, &self.streams);
                proof {
                    lemma_launched(
                        waiting,
                        tsn,
                        now,
                        self@.tcb.peer.use_forward_tsn,
                        self@.streams,
                    );
                    lemma_push_wf(self@.inflight_queue, c@);
                }
                self.inflight_queue.push_no_check(c.clone());
                Some(c)
            },
        }
    }

    /// The next TSN, which is then used.
    pub fn generate_next_tsn(&mut self) -> (r: u32)
        ensures
            r == old(self)@.tcb.tx.my_next_tsn,
            final(self)@ == old(self)@.with_tx(
                Sender { my_next_tsn: r.wrapping_add(1), ..old(self)@.tcb.tx },
            ),
    {
        let tsn = self.tcb.tx.my_next_tsn;
        self.tcb.tx.my_next_tsn = tsn.wrapping_add(1);
        tsn
    }

    /// The next reconfiguration sequence number, which is then used.
    pub fn generate_next_rsn(&mut self) -> (r: u32)
        ensures
            r == old(self)@.tcb.tx.my_next_rsn,
            final(self)@ == old(self)@.with_tx(
                Sender { my_next_rsn: r.wrapping_add(1), ..old(self)@.tcb.tx },
            ),
    {
        let rsn = self.tcb.tx.my_next_rsn;
        self.tcb.tx.my_next_rsn = rsn.wrapping_add(1);
        rsn
    }
}

/// Marks a chunk that waited as sent.
fn launch(
    c: ChunkPayloadData,
    tsn: u32,
    now: Instant,
    use_forward_tsn: bool,
    streams: &FxHashMap<u16, StreamState>,
) -> (r: ChunkPayloadData)
    ensures
        r@ == launched(c@, tsn, now, use_forward_tsn, stream_views(streams@)),
{
    reveal(launched);
    let mut c = c;
    // Mark all fragments are in-flight now
    if c.ending_fragment {
        c.set_all_inflight();
    }
    c.tsn = tsn;
    // Used to calculate the round trip time and the age of the chunk.
    c.since = Some(now);
    c.nsent = 1;
    Association::check_partial_reliability_status(&mut c, now, use_forward_tsn, streams);
    c
}

/// The step of [`send_pending`] that `c` calls for.
proof fn lemma_send_step(
    s: AssociationView,
    now: Instant,
    chunks: Seq<DataView>,
    resets: Seq<u16>,
    c: DataView,
)
    requires
        s.pending_queue.wf(),
        s.pending_queue.peek() == Some(c),
    ensures
        c.user_data.len() == 0 ==> send_pending(s, now, chunks, resets) == send_pending(
            AssociationView {
                pending_queue: s.pending_queue.pop(c.beginning_fragment, c.unordered),
                ..s
            },
            now,
            chunks,
            resets.push(c.stream_identifier),
        ),
        c.user_data.len() > 0 && !s.may_send(c.user_data.len()) ==> send_pending(
            s,
            now,
            chunks,
            resets,
        ) == (Sending { s, chunks, resets }),
        c.user_data.len() > 0 && s.may_send(c.user_data.len()) ==> send_pending(
            s,
            now,
            chunks,
            resets,
        ) == send_pending(
            s.use_window(c.user_data.len()).move_pending(c.beginning_fragment, c.unordered, now),
            now,
            with_chunk(
                chunks,
                s.use_window(c.user_data.len()).moved_chunk(
                    c.beginning_fragment,
                    c.unordered,
                    now,
                ),
            ),
            resets,
        ),
{
    lemma_pop_wf(s.pending_queue, c.beginning_fragment, c.unordered);
}

/// A chunk that is put into flight leaves the queue, which else is as it was.
proof fn lemma_move_pending(
    s: AssociationView,
    beginning_fragment: bool,
    unordered: bool,
    now: Instant,
)
    requires
        s.pending_queue.wf(),
    ensures
        s.move_pending(beginning_fragment, unordered, now).pending_queue.len()
            <= s.pending_queue.len(),
        s.move_pending(beginning_fragment, unordered, now).tcb.cc == s.tcb.cc,
{
    lemma_pop_wf(s.pending_queue, beginning_fragment, unordered);
}

impl Association {
    /// Sends the chunk that goes next if the windows allow; false if they do not.
    fn send_next(
        &mut self,
        beginning_fragment: bool,
        unordered: bool,
        data_len: usize,
        now: Instant,
        chunks: &mut Vec<ChunkPayloadData>,
    ) -> (r: bool)
        requires
            old(self)@.wf(),
            data_len <= old(self)@.pending_queue.n_bytes,
        ensures
            r == old(self)@.may_send(data_len as nat),
            r ==> ({
                let s = old(self)@.use_window(data_len as nat);
                &&& final(self)@ == s.move_pending(beginning_fragment, unordered, now)
                &&& data_views(final(chunks)@) == with_chunk(
                    data_views(old(chunks)@),
                    s.moved_chunk(beginning_fragment, unordered, now),
                )
            }),
            !r ==> final(self)@ == old(self)@ && final(chunks)@ == old(chunks)@,
            final(self)@.wf(),
    {
        if self.inflight_queue.get_num_bytes() + data_len > self.tcb.cc.cwnd as usize {
            return false;
        }
        if data_len > self.tcb.cc.rwnd as usize {
            return false;
        }
        self.tcb.cc.rwnd = self.tcb.cc.rwnd - (data_len as u32);
        let moved = self.move_pending_data_chunk_to_inflight_queue(
            beginning_fragment,
            unordered,
            now,
        );
        let ghost before = data_views(chunks@);
        if let Some(c) = moved {
            let ghost cv = c@;
            chunks.push(c);
            assert(data_views(chunks@) =~= before.push(cv));
        }
        true
    }

    /// Sends what waits as far as the windows allow.
    fn send_pending_chunks(
        &mut self,
        now: Instant,
        chunks: &mut Vec<ChunkPayloadData>,
        resets: &mut Vec<u16>,
    )
        requires
            old(self)@.wf(),
        ensures
            ({
                let r = send_pending(
                    old(self)@,
                    now,
                    data_views(old(chunks)@),
                    old(resets)@,
                );
                &&& final(self)@ == r.s
                &&& data_views(final(chunks)@) == r.chunks
                &&& final(resets)@ == r.resets
            }),
            final(self)@.wf(),
    {
        let ghost want = send_pending(self@, now, data_views(chunks@), resets@);
        loop
            invariant
                self@.wf(),
                want == send_pending(self@, now, data_views(chunks@), resets@),
                want == send_pending(old(self)@, now, data_views(old(chunks)@), old(resets)@),
            decreases self@.pending_queue.len(), self@.tcb.cc.rwnd,
        {
            let ghost s = self@;
            let (beginning_fragment, unordered, data_len, stream_identifier) =
                match self.pending_queue.peek() {
                Some(c) => (
                    c.beginning_fragment,
                    c.unordered,
                    bytes_len(&c.user_data),
                    c.stream_identifier,
                ),
                None => {
                    return;
                },
            };
            let ghost c = s.pending_queue.peek()->0;
            proof {
                lemma_send_step(s, now, data_views(chunks@), resets@, c);
                lemma_pop_wf(s.pending_queue, beginning_fragment, unordered);
                lemma_end_of_stream_leaves(s.pending_queue);
                lemma_peeked_is_counted(s.pending_queue);
                lemma_move_pending(
                    s.use_window(data_len as nat),
                    beginning_fragment,
                    unordered,
                    now,
                );
            }
            if data_len == 0 {
                resets.push(stream_identifier);
                self.pending_queue.pop(beginning_fragment, unordered);
            } else if !self.send_next(beginning_fragment, unordered, data_len, now, chunks) {
                return;
            }
        }
    }
}

/// What goes next is among the bytes that wait.
proof fn lemma_peeked_is_counted(q: PendingQueueView)
    requires
        q.wf(),
    ensures
        q.peek() matches Some(c) ==> c.user_data.len() <= q.n_bytes,
{
    reveal(PendingQueueView::peek);
    lemma_pop_wf(q, true, true);
    lemma_pop_wf(q, true, false);
    reveal(PendingQueueView::popped);
}

impl Association {
    /// Sends one chunk whatever the windows are, if nothing else is in flight.
    fn probe_window(&mut self, now: Instant, chunks: &mut Vec<ChunkPayloadData>)
        requires
            old(self)@.wf(),
        ensures
            forall|resets: Seq<u16>|
                #![trigger probe((Sending {
                    s: old(self)@,
                    chunks: data_views(old(chunks)@),
                    resets,
                }), now)]
                probe(
                    (Sending { s: old(self)@, chunks: data_views(old(chunks)@), resets }),
                    now,
                ) == (Sending { s: final(self)@, chunks: data_views(final(chunks)@), resets }),
            final(self)@.wf(),
    {
        // The data sender can always have one DATA chunk in flight to the receiver.
        if chunks.len() == 0 && self.inflight_queue.is_empty() {
            let (beginning_fragment, unordered) = match self.pending_queue.peek() {
                Some(c) => (c.beginning_fragment, c.unordered),
                None => {
                    return;
                },
            };
            let moved = self.move_pending_data_chunk_to_inflight_queue(
                beginning_fragment,
                unordered,
                now,
            );
            let ghost before = data_views(chunks@);
            if let Some(c) = moved {
                let ghost cv = c@;
                chunks.push(c);
                assert(data_views(chunks@) =~= before.push(cv));
            }
        }
    }

    /// Takes the chunks that wait, as many as the windows allow to send, and the streams that
    /// end with them.
    pub fn pop_pending_data_chunks_to_send(&mut self, now: Instant) -> (r: (
        Vec<ChunkPayloadData>,
        Vec<u16>,
    ))
        requires
            old(self)@.wf(),
        ensures
            ({
                let want = new_data(old(self)@, now);
                &&& final(self)@ == want.s
                &&& data_views(r.0@) == want.chunks
                &&& r.1@ == want.resets
            }),
            final(self)@.wf(),
    {
        let mut chunks: Vec<ChunkPayloadData> = Vec::new();
        let mut sis_to_reset: Vec<u16> = Vec::new();
        assert(data_views(chunks@) =~= seq![]);
        self.send_pending_chunks(now, &mut chunks, &mut sis_to_reset);
        let ghost mid = Sending {
            s: self@,
            chunks: data_views(chunks@),
            resets: sis_to_reset@,
        };
        assert(new_data(old(self)@, now) == probe(mid, now));
        self.probe_window(now, &mut chunks);
        (chunks, sis_to_reset)
    }
}

/// The size of a DATA chunk in a packet.
pub open spec fn data_size(c: DataView) -> int {
    16 + c.user_data.len() + padding(c.user_data.len() as int)
}

/// Chunks on their way into packets: the full packets, and the chunks and the size of the one
/// that is being filled.
#[verifier::ext_equal]
pub struct Bundle {
    pub full: Seq<Seq<DataView>>,
    pub open: Seq<DataView>,
    pub size: int,
}

impl Bundle {
    /// Whether a chunk goes into a new packet: it does not fit into the open one. An open packet
    /// without chunks is left behind only if the data alone is too much for it.
    pub open spec fn overflows(self, c: DataView, mtu: u32) -> bool {
        if self.open.len() > 0 {
            self.size + data_size(c) > mtu
        } else {
            self.size + c.user_data.len() > mtu
        }
    }

    /// The bundle with a chunk put in: into the open packet if it fits, else into a new one.
    pub open spec fn put(self, c: DataView, mtu: u32) -> Bundle {
        if self.overflows(c, mtu) {
            Bundle { full: self.full.push(self.open), open: seq![c], size: 12 + data_size(c) }
        } else {
            Bundle { open: self.open.push(c), size: self.size + data_size(c), ..self }
        }
    }

    /// All packets.
    pub open spec fn finish(self) -> Seq<Seq<DataView>> {
        if self.open.len() > 0 {
            self.full.push(self.open)
        } else {
            self.full
        }
    }
}

/// Chunks on their way into packets of `mtu` bytes.
pub open spec fn bundle(cs: Seq<DataView>, mtu: u32) -> Bundle
    decreases cs.len(),
{
    if cs.len() == 0 {
        Bundle { full: seq![], open: seq![], size: 12 }
    } else {
        bundle(cs.drop_last(), mtu).put(cs.last(), mtu)
    }
}

/// DATA chunks as chunks of a packet.
pub open spec fn data_chunks(cs: Seq<DataView>) -> Seq<ChunkView> {
    cs.map_values(|c: DataView| ChunkView::PayloadData(c))
}

impl AssociationView {
    /// Packets of DATA chunks.
    pub open spec fn data_packets(self, groups: Seq<Seq<DataView>>) -> Seq<PacketView> {
        groups.map_values(|g: Seq<DataView>| self.packet(data_chunks(g)))
    }

    /// DATA chunks in packets.
    pub open spec fn bundled(self, cs: Seq<DataView>) -> Seq<PacketView> {
        self.data_packets(bundle(cs, self.tcb.conf.mtu).finish())
    }
}

impl Association {
    /// Wraps chunks in a packet.
    pub fn create_packet(&self, chunks: Vec<Chunk>) -> (r: Packet)
        ensures
            r@ == self@.packet(chunk_views(chunks@)),
    {
        Packet {
            common_header: CommonHeader {
                verification_tag: self.tcb.peer.peer_verification_tag,
                source_port: self.tcb.peer.source_port,
                destination_port: self.tcb.peer.destination_port,
            },
            chunks,
        }
    }

    /// Packs DATA chunks into packets. Chunks are bundled into a packet so long as the resulting
    /// packet size does not exceed the path MTU.
    pub fn bundle_data_chunks_into_packets(&self, chunks: Vec<ChunkPayloadData>) -> (r: Vec<Packet>)
        ensures
            packet_views(r@) == self@.bundled(data_views(chunks@)),
    {
        let ghost all = data_views(chunks@);
        let ghost mtu = self@.tcb.conf.mtu;
        let ghost mut b = bundle(seq![], mtu);
        let mut packets: Vec<Packet> = Vec::new();
        let mut chunks_to_send: Vec<Chunk> = Vec::new();
        let mut bytes_in_packet: u128 = COMMON_HEADER_SIZE as u128;
        let mut rest = chunks;
        let n = rest.len();
        let mut i: usize = 0;
        assert(all.take(0) =~= seq![]);
        assert(all.skip(0) =~= all);
        assert(packet_views(packets@) =~= self@.data_packets(b.full));
        assert(chunk_views(chunks_to_send@) =~= data_chunks(b.open));
        while i < n
            invariant
                i <= n,
                n == all.len(),
                n - i == rest.len(),
                data_views(rest@) == all.skip(i as int),
                mtu == self@.tcb.conf.mtu,
                b == bundle(all.take(i as int), mtu),
                packet_views(packets@) == self@.data_packets(b.full),
                chunk_views(chunks_to_send@) == data_chunks(b.open),
                chunks_to_send@.len() == b.open.len(),
                bytes_in_packet == b.size,
                bytes_in_packet <= 0x1_0000_0000_0000_0040,
                b.open.len() == 0 ==> b.size == 12,
            decreases n - i,
        {
            let ghost c0 = all[i as int];
            let c = remove_chunk(&mut rest, 0);
            assert(c@ == c0);
            assert(data_views(rest@) =~= all.skip(i + 1));
            assert(all.take(i + 1).drop_last() =~= all.take(i as int));
            let len = bytes_len(&c.user_data);
            let size: u128 = (DATA_CHUNK_HEADER_SIZE as u128) + (len as u128) + (get_padding_size(
                len,
            ) as u128);
            let ghost b1 = b.put(c0, mtu);
            let needed: u128 = if chunks_to_send.len() > 0 {
                size
            } else {
                len as u128
            };
            if bytes_in_packet + needed > self.tcb.conf.mtu as u128 {
                let p = self.create_packet(chunks_to_send);
                let ghost pv = p@;
                let ghost before = packet_views(packets@);
                packets.push(p);
                assert(packet_views(packets@) =~= before.push(pv));
                assert(self@.data_packets(b.full.push(b.open)) =~= before.push(pv));
                chunks_to_send = Vec::new();
                bytes_in_packet = COMMON_HEADER_SIZE as u128;
                assert(chunk_views(chunks_to_send@) =~= data_chunks(seq![]));
                chunks_to_send.push(Chunk::PayloadData(c));
                assert(chunk_views(chunks_to_send@) =~= data_chunks(b1.open));
            } else {
                chunks_to_send.push(Chunk::PayloadData(c));
                assert(chunk_views(chunks_to_send@) =~= data_chunks(b.open).push(
                    ChunkView::PayloadData(c0),
                ));
                assert(chunk_views(chunks_to_send@) =~= data_chunks(b1.open));
            }
            bytes_in_packet = bytes_in_packet + size;
            proof {
                b = b1;
            }
            i += 1;
        }
        assert(all.take(i as int) =~= all);
        if chunks_to_send.len() > 0 {
            let p = self.create_packet(chunks_to_send);
            let ghost pv = p@;
            let ghost before = packet_views(packets@);
            packets.push(p);
            assert(packet_views(packets@) =~= before.push(pv));
            assert(self@.data_packets(b.full.push(b.open)) =~= before.push(pv));
        }
        packets
    }
}

} // verus!
