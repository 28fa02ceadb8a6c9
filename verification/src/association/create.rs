//! Making an association.

use fxhash::FxHashMap;
use std::collections::VecDeque;
use std::sync::Arc;
use vstd::prelude::*;

use crate::association::state::{AckMode, AckState, AssociationState};
use crate::association::stats::AssociationStats;
use crate::association::timer::{RtoManager, Timer, TimerTable};
use crate::association::view::{
    Agreement, Association, AssociationView, Congestion, Owed, Receiver, Sender, Settings, Tcb,
};
use crate::chunk::kinds::{supported_extensions, ChunkInit, InitView};
use crate::chunk::payload::Instant;
use crate::config::{ServerConfig, TransportConfig, COMMON_HEADER_SIZE, DATA_CHUNK_HEADER_SIZE};
use crate::queue::payload_queue::{PayloadQueue, PayloadQueueView};
use crate::queue::pending_queue::{PendingQueue, PendingQueueView};
use crate::random::random_u32;
use crate::shared::{AssociationId, IpAddr, Side, SocketAddr};

verus! {

/// The least initial congestion window.
pub const MIN_INITIAL_CWND: u32 = 4380;

/// The control block of an association that nothing is known of.
pub open spec fn blank_tcb() -> Tcb {
    Tcb {
        conf: Settings {
            side: Side::Client,
            my_verification_tag: 0,
            max_message_size: 0,
            max_receive_buffer_size: 0,
            mtu: 0,
            max_payload_size: 0,
            remote_addr: SocketAddr { ip: IpAddr::V4(0), port: 0, flowinfo: 0, scope_id: 0 },
            local_ip: None,
            bytes_received: 0,
            bytes_sent: 0,
            ack_mode: AckMode::Normal,
        },
        state: AssociationState::Closed,
        handshake_completed: false,
        is_over: false,
        peer: Agreement {
            peer_verification_tag: 0,
            source_port: 0,
            destination_port: 0,
            my_max_num_inbound_streams: 0,
            my_max_num_outbound_streams: 0,
            use_forward_tsn: false,
        },
        rx: Receiver {
            peer_last_tsn: 0,
            delayed_ack_triggered: false,
            immediate_ack_triggered: false,
            ack_state: AckState::Idle,
        },
        tx: Sender {
            my_next_tsn: 0,
            my_next_rsn: 0,
            min_tsn2measure_rtt: 0,
            cumulative_tsn_ack_point: 0,
            advanced_peer_tsn_ack_point: 0,
        },
        cc: Congestion {
            cwnd: 0,
            rwnd: 0,
            ssthresh: 0,
            partial_bytes_acked: 0,
            in_fast_recovery: false,
            fast_recover_exit_point: 0,
        },
        owed: Owed {
            will_send_forward_tsn: false,
            will_retransmit_fast: false,
            will_retransmit_reconfig: false,
            will_send_shutdown: false,
            will_send_shutdown_ack: false,
            will_send_shutdown_complete: false,
        },
        rto_mgr: RtoManager::blank(),
        timers: TimerTable::idle(),
        stats: AssociationStats::zero(),
    }
}

/// The path MTU that leaves room for this much user data.
pub open spec fn mtu_for(max_payload_size: u32) -> int {
    max_payload_size + 28
}

/// The initial congestion window: min(4*MTU, max(2*MTU, 4380 bytes)).
pub open spec fn initial_cwnd(mtu: int) -> int {
    let least = if 2 * mtu < MIN_INITIAL_CWND {
        MIN_INITIAL_CWND as int
    } else {
        2 * mtu
    };
    if 4 * mtu < least {
        4 * mtu
    } else {
        least
    }
}

/// The first TSN: the random number, but not zero.
pub open spec fn first_tsn(random: u32) -> u32 {
    if random == 0 {
        1
    } else {
        random
    }
}

/// What an association is made with.
pub struct Blueprint {
    pub side: Side,
    pub config: TransportConfig,
    pub max_payload_size: u32,
    pub local_aid: AssociationId,
    pub remote_addr: SocketAddr,
    pub local_ip: Option<IpAddr>,
}

impl Blueprint {
    /// The control block of a new association.
    pub open spec fn tcb(self, tsn: u32) -> Tcb {
        let t = blank_tcb();
        Tcb {
            conf: Settings {
                side: self.side,
                my_verification_tag: self.local_aid,
                max_message_size: self.config.max_message_size,
                max_receive_buffer_size: self.config.max_receive_buffer_size,
                mtu: mtu_for(self.max_payload_size) as u32,
                max_payload_size: self.max_payload_size,
                remote_addr: self.remote_addr,
                local_ip: self.local_ip,
                ..t.conf
            },
            peer: Agreement {
                my_max_num_inbound_streams: self.config.max_num_inbound_streams,
                my_max_num_outbound_streams: self.config.max_num_outbound_streams,
                ..t.peer
            },
            tx: Sender {
                my_next_tsn: tsn,
                my_next_rsn: tsn,
                min_tsn2measure_rtt: tsn,
                cumulative_tsn_ack_point: tsn.wrapping_sub(1),
                advanced_peer_tsn_ack_point: tsn.wrapping_sub(1),
            },
            cc: Congestion {
                cwnd: initial_cwnd(mtu_for(self.max_payload_size)) as u32,
                ..t.cc
            },
            rto_mgr: RtoManager::initial(),
            ..t
        }
    }

    /// The INIT that opens an association.
    pub open spec fn init(self, tsn: u32) -> InitView {
        InitView {
            is_ack: false,
            initial_tsn: tsn,
            num_outbound_streams: self.config.max_num_outbound_streams,
            num_inbound_streams: self.config.max_num_inbound_streams,
            initiate_tag: self.local_aid,
            advertised_receiver_window_credit: self.config.max_receive_buffer_size,
            params: seq![supported_extensions()],
        }
    }

    /// A new association. A client sends an INIT and waits for the cookie.
    #[verifier::opaque]
    pub open spec fn build(self, random: u32, now: Instant) -> AssociationView {
        let tsn = first_tsn(random);
        let s = AssociationView::blank().with(self.tcb(tsn));
        if self.side is Client {
            let s1 = AssociationView {
                stored_init: Some(self.init(tsn)),
                ..s.in_state(AssociationState::CookieWait)
            }.send_init();
            s1.with_timers(s1.tcb.timers.started(Timer::T1Init, now, s1.tcb.rto_mgr.rto))
        } else {
            s
        }
    }

    /// Whether the numbers of an association can be computed: four MTUs are no more than 32 bits
    /// hold.
    pub open spec fn is_valid(self) -> bool {
        4 * mtu_for(self.max_payload_size) <= u32::MAX
    }
}

impl AssociationView {
    /// An association that nothing is known of.
    pub open spec fn blank() -> AssociationView {
        AssociationView {
            tcb: blank_tcb(),
            reconfigs: Map::empty(),
            reconfig_requests: Map::empty(),
            my_cookie: None,
            payload_queue: PayloadQueueView::empty(),
            inflight_queue: PayloadQueueView::empty(),
            pending_queue: PendingQueueView::empty(),
            control_queue: seq![],
            stream_queue: seq![],
            stored_init: None,
            stored_cookie_echo: None,
            streams: Map::empty(),
            events: seq![],
            endpoint_events: seq![],
            error: None,
        }
    }
}

/// The control block of an association that nothing is known of.
fn default_tcb() -> (t: Tcb)
    ensures
        t == blank_tcb(),
{
    Tcb {
        conf: Settings {
            side: Side::default(),
            my_verification_tag: 0,
            max_message_size: 0,
            max_receive_buffer_size: 0,
            mtu: 0,
            max_payload_size: 0,
            remote_addr: SocketAddr { ip: IpAddr::V4(0), port: 0, flowinfo: 0, scope_id: 0 },
            local_ip: None,
            bytes_received: 0,
            bytes_sent: 0,
            ack_mode: AckMode::default(),
        },
        state: AssociationState::default(),
        handshake_completed: false,
        is_over: false,
        peer: Agreement {
            peer_verification_tag: 0,
            source_port: 0,
            destination_port: 0,
            my_max_num_inbound_streams: 0,
            my_max_num_outbound_streams: 0,
            use_forward_tsn: false,
        },
        rx: Receiver {
            peer_last_tsn: 0,
            delayed_ack_triggered: false,
            immediate_ack_triggered: false,
            ack_state: AckState::default(),
        },
        tx: Sender {
            my_next_tsn: 0,
            my_next_rsn: 0,
            min_tsn2measure_rtt: 0,
            cumulative_tsn_ack_point: 0,
            advanced_peer_tsn_ack_point: 0,
        },
        cc: Congestion {
            cwnd: 0,
            rwnd: 0,
            ssthresh: 0,
            partial_bytes_acked: 0,
            in_fast_recovery: false,
            fast_recover_exit_point: 0,
        },
        owed: Owed {
            will_send_forward_tsn: false,
            will_retransmit_fast: false,
            will_retransmit_reconfig: false,
            will_send_shutdown: false,
            will_send_shutdown_ack: false,
            will_send_shutdown_complete: false,
        },
        rto_mgr: RtoManager::default(),
        timers: TimerTable::default(),
        stats: AssociationStats::default(),
    }
}

impl Default for Association {
    fn default() -> (r: Self)
        ensures
            r@ == AssociationView::blank(),
            r@.wf(),
    {
        let a = Association {
            tcb: default_tcb(),
            reconfigs: FxHashMap::default(),
            reconfig_requests: FxHashMap::default(),
            my_cookie: None,
            payload_queue: PayloadQueue::default(),
            inflight_queue: PayloadQueue::default(),
            pending_queue: PendingQueue::default(),
            control_queue: VecDeque::new(),
            stream_queue: VecDeque::new(),
            stored_init: None,
            stored_cookie_echo: None,
            streams: FxHashMap::default(),
            events: VecDeque::new(),
            endpoint_events: VecDeque::new(),
            error: None,
        };
        assert(a@.reconfigs =~= Map::empty());
        assert(a@.reconfig_requests =~= Map::empty());
        assert(a@.streams =~= Map::empty());
        assert(a@.control_queue =~= seq![]);
        assert(a@.stream_queue =~= seq![]);
        assert(a@.events =~= seq![]);
        assert(a@.endpoint_events =~= seq![]);
        a
    }
}

/// The control block of a new association.
fn new_tcb(
    side: Side,
    config: &TransportConfig,
    max_payload_size: u32,
    local_aid: AssociationId,
    remote_addr: SocketAddr,
    local_ip: Option<IpAddr>,
    tsn: u32,
) -> (t: Tcb)
    requires
        4 * mtu_for(max_payload_size) <= u32::MAX,
    ensures
        t == (Blueprint {
            side,
            config: *config,
            max_payload_size,
            local_aid,
            remote_addr,
            local_ip,
        }).tcb(tsn),
{
    let mut t = default_tcb();
    let mtu = max_payload_size + COMMON_HEADER_SIZE + DATA_CHUNK_HEADER_SIZE;
    // The initial cwnd before DATA transmission or after a sufficiently long idle period MUST be
    // set to min(4*MTU, max (2*MTU, 4380 bytes)).
    let least = if 2 * mtu < MIN_INITIAL_CWND {
        MIN_INITIAL_CWND
    } else {
        2 * mtu
    };
    t.cc.cwnd = if 4 * mtu < least {
        4 * mtu
    } else {
        least
    };
    t.conf.side = side;
    t.conf.my_verification_tag = local_aid;
    t.conf.max_message_size = config.max_message_size();
    t.conf.max_receive_buffer_size = config.max_receive_buffer_size();
    t.conf.mtu = mtu;
    t.conf.max_payload_size = max_payload_size;
    t.conf.remote_addr = remote_addr;
    t.conf.local_ip = local_ip;
    t.peer.my_max_num_inbound_streams = config.max_num_inbound_streams();
    t.peer.my_max_num_outbound_streams = config.max_num_outbound_streams();
    t.tx = Sender {
        my_next_tsn: tsn,
        my_next_rsn: tsn,
        min_tsn2measure_rtt: tsn,
        cumulative_tsn_ack_point: tsn.wrapping_sub(1),
        advanced_peer_tsn_ack_point: tsn.wrapping_sub(1),
    };
    t.rto_mgr = RtoManager::new();
    t
}

/// The INIT that opens an association.
fn new_init(config: &TransportConfig, local_aid: AssociationId, tsn: u32) -> (r: ChunkInit)
    ensures
        r@ == (InitView {
            is_ack: false,
            initial_tsn: tsn,
            num_outbound_streams: config.max_num_outbound_streams,
            num_inbound_streams: config.max_num_inbound_streams,
            initiate_tag: local_aid,
            advertised_receiver_window_credit: config.max_receive_buffer_size,
            params: seq![supported_extensions()],
        }),
{
    let mut init = ChunkInit {
        is_ack: false,
        initial_tsn: tsn,
        num_outbound_streams: config.max_num_outbound_streams(),
        num_inbound_streams: config.max_num_inbound_streams(),
        initiate_tag: local_aid,
        advertised_receiver_window_credit: config.max_receive_buffer_size(),
        params: Vec::new(),
    };
    init.set_supported_extensions();
    assert(init@.params =~= seq![supported_extensions()]);
    init
}

/// The side of an association: one that is made with the configuration of a server is a server.
pub open spec fn side_of(server_config: Option<Arc<ServerConfig>>) -> Side {
    match server_config {
        Some(_) => Side::Server,
        None => Side::Client,
    }
}

impl Association {
    /// Sends the INIT that opens an association.
    fn open(&mut self, init: ChunkInit, now: Instant)
        requires
            old(self)@.wf(),
        ensures
            ({
                let s = AssociationView {
                    stored_init: Some(init@),
                    ..old(self)@.in_state(AssociationState::CookieWait)
                }.send_init();
                final(self)@ == s.with_timers(
                    s.tcb.timers.started(Timer::T1Init, now, s.tcb.rto_mgr.rto),
                )
            }),
            final(self)@.wf(),
    {
        self.tcb.state = AssociationState::CookieWait;
        self.stored_init = Some(init);
        let _ = self.send_init();
        let rto = self.tcb.rto_mgr.get_rto();
        self.tcb.timers.start(Timer::T1Init, now, rto);
    }

    /// Makes an association that counts its data from a random number on.
    pub fn new_with_random(
        server_config: Option<Arc<ServerConfig>>,
        config: Arc<TransportConfig>,
        max_payload_size: u32,
        local_aid: AssociationId,
        remote_addr: SocketAddr,
        local_ip: Option<IpAddr>,
        now: Instant,
        random: u32,
    ) -> (r: Self)
        requires
            4 * mtu_for(max_payload_size) <= u32::MAX,
        ensures
            r@ == (Blueprint {
                side: side_of(server_config),
                config: *config,
                max_payload_size,
                local_aid,
                remote_addr,
                local_ip,
            }).build(random, now),
            r@.wf(),
    {
        reveal(Blueprint::build);
        let side = if server_config.is_some() {
            Side::Server
        } else {
            Side::Client
        };
        let tsn = if random == 0 {
            1
        } else {
            random
        };
        let mut this = Association::default();
        this.tcb = new_tcb(
            side,
            &*config,
            max_payload_size,
            local_aid,
            remote_addr,
            local_ip,
            tsn,
        );
        if side.is_client() {
            let init = new_init(&*config, local_aid, tsn);
            this.open(init, now);
        }
        this
    }

    /// Makes an association.
    pub fn new(
        server_config: Option<Arc<ServerConfig>>,
        config: Arc<TransportConfig>,
        max_payload_size: u32,
        local_aid: AssociationId,
        remote_addr: SocketAddr,
        local_ip: Option<IpAddr>,
        now: Instant,
    ) -> (r: Self)
        requires
            4 * mtu_for(max_payload_size) <= u32::MAX,
        ensures
            exists|random: u32|
                r@ == #[trigger] (Blueprint {
                    side: side_of(server_config),
                    config: *config,
                    max_payload_size,
                    local_aid,
                    remote_addr,
                    local_ip,
                }).build(random, now),
            r@.wf(),
    {
        let random = random_u32();
        Association::new_with_random(
            server_config,
            config,
            max_payload_size,
            local_aid,
            remote_addr,
            local_ip,
            now,
            random,
        )
    }
}

} // verus!
