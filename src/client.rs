//! The client side of DHCP: the messages a client sends, how it recognises
//! the replies meant for it, and the lease it keeps.
use vstd::prelude::*;

use crate::raw::Endpoint;

use crate::codec::{
    be32, find_option, get_u32, lookup_option, message_type, option_u32, options_view, DhcpOption,
    Packet, PacketView, OPT_CLIENT_IDENTIFIER, OPT_DNS, OPT_DOMAIN_NAME, OPT_HOST_NAME,
    OPT_LEASE_TIME, OPT_MESSAGE_TYPE, OPT_PARAMETER_REQUEST_LIST, OPT_REQUESTED_IP, OPT_ROUTER,
    OPT_SERVER_IDENTIFIER, OPT_SUBNET_MASK, OP_BOOT_REPLY, OP_BOOT_REQUEST,
};

verus! {

pub const MSG_DISCOVER: u8 = 1;
pub const MSG_OFFER: u8 = 2;
pub const MSG_REQUEST: u8 = 3;
pub const MSG_DECLINE: u8 = 4;
pub const MSG_ACK: u8 = 5;
pub const MSG_NAK: u8 = 6;
pub const MSG_RELEASE: u8 = 7;
pub const MSG_INFORM: u8 = 8;

/// Bit 15 of `flags`: the reply must be broadcast.
pub const FLAG_BROADCAST: u16 = 0x8000;

/// Hardware type of Ethernet, and its address length.
pub const HTYPE_ETHERNET: u8 = 1;
pub const HLEN_ETHERNET: u8 = 6;

/// What a lease gives the client: its address and the network's parameters.
#[derive(Clone, Copy, Debug, PartialEq, Eq, Structural)]
pub struct Settings {
    pub ip: u32,
    pub server_ip: Option<u32>,
    pub lease_time_secs: Option<u32>,
    pub gateway: Option<u32>,
    pub subnet: Option<u32>,
    pub dns1: Option<u32>,
    pub dns2: Option<u32>,
}

/// The second address of a list option, if it holds two.
pub open spec fn option_second_u32(os: Seq<(u8, Seq<u8>)>, code: u8) -> Option<u32> {
    match lookup_option(os, code) {
        Some(d) => if d.len() >= 8 {
            Some(get_u32(d, 4))
        } else {
            None
        },
        None => None,
    }
}

/// The settings that an Offer or an Ack carries.
pub open spec fn settings_of(p: PacketView) -> Settings {
    Settings {
        ip: p.yiaddr,
        server_ip: option_u32(p.options, OPT_SERVER_IDENTIFIER),
        lease_time_secs: option_u32(p.options, OPT_LEASE_TIME),
        gateway: option_u32(p.options, OPT_ROUTER),
        subnet: option_u32(p.options, OPT_SUBNET_MASK),
        dns1: option_u32(p.options, OPT_DNS),
        dns2: option_second_u32(p.options, OPT_DNS),
    }
}

/// The parameters a client asks for.
pub open spec fn parameter_request_list() -> Seq<u8> {
    seq![
        OPT_SUBNET_MASK,
        OPT_ROUTER,
        OPT_DNS,
        OPT_DOMAIN_NAME,
        OPT_HOST_NAME,
        OPT_LEASE_TIME,
    ]
}

/// `chaddr` for a MAC address: the six bytes, then zeros.
pub open spec fn chaddr_of(mac: Seq<u8>) -> Seq<u8> {
    mac + Seq::new(10, |i: int| 0u8)
}

pub open spec fn zeros(n: nat) -> Seq<u8> {
    Seq::new(n, |i: int| 0u8)
}

/// The options of a client message, MessageType first.
pub open spec fn client_options(mac: Seq<u8>, mt: u8, requested: Option<u32>, ask: bool) -> Seq<
    (u8, Seq<u8>),
> {
    let base = seq![(OPT_MESSAGE_TYPE, seq![mt]), (OPT_CLIENT_IDENTIFIER, mac)];
    let with_ip = match requested {
        Some(ip) => base.push((OPT_REQUESTED_IP, be32(ip))),
        None => base,
    };
    if ask {
        with_ip.push((OPT_PARAMETER_REQUEST_LIST, parameter_request_list()))
    } else {
        with_ip
    }
}

/// A BootRequest from the client with this MAC address.
pub open spec fn client_message(
    mac: Seq<u8>,
    mt: u8,
    xid: u32,
    secs: u16,
    flags: u16,
    ciaddr: u32,
    requested: Option<u32>,
    ask: bool,
) -> PacketView {
    PacketView {
        op: OP_BOOT_REQUEST,
        htype: HTYPE_ETHERNET,
        hlen: HLEN_ETHERNET,
        hops: 0,
        xid,
        secs,
        flags,
        ciaddr,
        yiaddr: 0,
        siaddr: 0,
        giaddr: 0,
        chaddr: chaddr_of(mac),
        sname: zeros(64),
        file: zeros(128),
        options: client_options(mac, mt, requested, ask),
    }
}

/// `reply` answers transaction `xid` of the client `mac` with message type `mt`.
pub open spec fn is_reply(mac: Seq<u8>, reply: PacketView, xid: u32, mt: u8) -> bool {
    &&& reply.op == OP_BOOT_REPLY
    &&& reply.xid == xid
    &&& message_type(reply.options) == Some(mt)
    &&& reply.chaddr.len() >= 6
    &&& reply.chaddr.subrange(0, 6) == mac
}

/// A byte vector of `n` zeros.
pub fn zero_bytes(n: usize) -> (r: Vec<u8>)
    ensures
        r@ == zeros(n as nat),
{
    let mut r: Vec<u8> = Vec::with_capacity(n);
    let mut i: usize = 0;
    while i < n
        invariant
            i <= n,
            r@ == zeros(i as nat),
        decreases n - i,
    {
        r.push(0);
        i = i + 1;
        assert(r@ =~= zeros(i as nat));
    }
    r
}

/// Big-endian bytes of `x`.
pub fn u32_bytes(x: u32) -> (r: Vec<u8>)
    ensures
        r@ == be32(x),
{
    let r = vec![(x >> 24u32) as u8, (x >> 16u32) as u8, (x >> 8u32) as u8, x as u8];
    assert(r@ =~= be32(x));
    r
}

/// The stateless part of a DHCP client: the messages of the client with the
/// MAC address `mac`.
pub struct ClientCore {
    pub mac: [u8; 6],
}

impl ClientCore {
    pub fn new(mac: [u8; 6]) -> (r: ClientCore)
        ensures
            r.mac@ == mac@,
    {
        ClientCore { mac }
    }

    fn mac_vec(&self) -> (r: Vec<u8>)
        ensures
            r@ == self.mac@,
    {
        let r = vec![self.mac[0], self.mac[1], self.mac[2], self.mac[3], self.mac[4], self.mac[5]];
        assert(r@ =~= self.mac@);
        r
    }

    fn chaddr(&self) -> (r: Vec<u8>)
        ensures
            r@ == chaddr_of(self.mac@),
    {
        let mut r = self.mac_vec();
        let mut i: usize = 0;
        while i < 10
            invariant
                i <= 10,
                r@ == self.mac@ + zeros(i as nat),
            decreases 10 - i,
        {
            r.push(0);
            i = i + 1;
            assert(r@ =~= self.mac@ + zeros(i as nat));
        }
        assert(zeros(10) =~= Seq::new(10, |i: int| 0u8));
        r
    }

    fn message(
        &self,
        mt: u8,
        xid: u32,
        secs: u16,
        flags: u16,
        ciaddr: u32,
        requested: Option<u32>,
        ask: bool,
    ) -> (r: Packet)
        ensures
            r@ == client_message(self.mac@, mt, xid, secs, flags, ciaddr, requested, ask),
    {
        let mut options: Vec<DhcpOption> = Vec::new();
        let mt_data = vec![mt];
        assert(mt_data@ =~= seq![mt]);
        let id_data = self.mac_vec();
        options.push(DhcpOption { code: OPT_MESSAGE_TYPE, data: mt_data });
        options.push(DhcpOption { code: OPT_CLIENT_IDENTIFIER, data: id_data });
        let ghost base = seq![(OPT_MESSAGE_TYPE, seq![mt]), (OPT_CLIENT_IDENTIFIER, self.mac@)];
        assert(options_view(options@) =~= base);
        match requested {
            Some(ip) => {
                let ip_data = u32_bytes(ip);
                options.push(DhcpOption { code: OPT_REQUESTED_IP, data: ip_data });
                assert(options_view(options@) =~= base.push((OPT_REQUESTED_IP, be32(ip))));
            },
            None => {},
        }
        let ghost with_ip = options_view(options@);
        if ask {
            let prl = vec![
                OPT_SUBNET_MASK,
                OPT_ROUTER,
                OPT_DNS,
                OPT_DOMAIN_NAME,
                OPT_HOST_NAME,
                OPT_LEASE_TIME,
            ];
            assert(prl@ =~= parameter_request_list());
            options.push(DhcpOption { code: OPT_PARAMETER_REQUEST_LIST, data: prl });
            assert(options_view(options@) =~= with_ip.push(
                (OPT_PARAMETER_REQUEST_LIST, parameter_request_list()),
            ));
        }
        let p = Packet {
            op: OP_BOOT_REQUEST,
            htype: HTYPE_ETHERNET,
            hlen: HLEN_ETHERNET,
            hops: 0,
            xid,
            secs,
            flags,
            ciaddr,
            yiaddr: 0,
            siaddr: 0,
            giaddr: 0,
            chaddr: self.chaddr(),
            sname: zero_bytes(64),
            file: zero_bytes(128),
            options,
        };
        proof {
            assert(options_view(p.options@) == client_options(self.mac@, mt, requested, ask));
        }
        p
    }

    /// A Discover for transaction `xid`, with the broadcast flag set.
    pub fn discover(&self, secs: u16, requested_ip: Option<u32>, xid: u32) -> (r: Packet)
        ensures
            r@ == client_message(
                self.mac@,
                MSG_DISCOVER,
                xid,
                secs,
                FLAG_BROADCAST,
                0,
                requested_ip,
                true,
            ),
    {
        self.message(MSG_DISCOVER, xid, secs, FLAG_BROADCAST, 0, requested_ip, true)
    }

    /// A Request of `ip` for transaction `xid`, with the broadcast flag set.
    pub fn request(&self, secs: u16, ip: u32, xid: u32) -> (r: Packet)
        ensures
            r@ == client_message(
                self.mac@,
                MSG_REQUEST,
                xid,
                secs,
                FLAG_BROADCAST,
                0,
                Some(ip),
                true,
            ),
    {
        self.message(MSG_REQUEST, xid, secs, FLAG_BROADCAST, 0, Some(ip), true)
    }

    /// A Release of `ip`, sent unicast to the server.
    pub fn release(&self, secs: u16, ip: u32, xid: u32) -> (r: Packet)
        ensures
            r@ == client_message(self.mac@, MSG_RELEASE, xid, secs, 0, ip, None, false),
    {
        self.message(MSG_RELEASE, xid, secs, 0, ip, None, false)
    }

    /// A Decline of `ip`.
    pub fn decline(&self, secs: u16, ip: u32, xid: u32) -> (r: Packet)
        ensures
            r@ == client_message(self.mac@, MSG_DECLINE, xid, secs, 0, 0, Some(ip), false),
    {
        self.message(MSG_DECLINE, xid, secs, 0, 0, Some(ip), false)
    }

    fn is_reply(&self, reply: &Packet, xid: u32, mt: u8) -> (r: bool)
        ensures
            r == is_reply(self.mac@, reply@, xid, mt),
    {
        if reply.op != OP_BOOT_REPLY || reply.xid != xid || reply.chaddr.len() < 6 {
            return false;
        }
        match reply.message_type() {
            Some(t) => if t != mt {
                return false;
            },
            None => {
                return false;
            },
        }
        let mut i: usize = 0;
        while i < 6
            invariant
                i <= 6,
                reply.chaddr@.len() >= 6,
                forall|j: int| 0 <= j < i ==> reply.chaddr@[j] == self.mac@[j],
            decreases 6 - i,
        {
            if reply.chaddr[i] != self.mac[i] {
                assert(reply.chaddr@.subrange(0, 6)[i as int] != self.mac@[i as int]);
                return false;
            }
            i = i + 1;
        }
        assert(reply.chaddr@.subrange(0, 6) =~= self.mac@);
        true
    }

    /// `reply` is an Offer for transaction `xid` of this client.
    pub fn is_offer(&self, reply: &Packet, xid: u32) -> (r: bool)
        ensures
            r == is_reply(self.mac@, reply@, xid, MSG_OFFER),
    {
        self.is_reply(reply, xid, MSG_OFFER)
    }

    /// `reply` is an Ack for transaction `xid` of this client.
    pub fn is_ack(&self, reply: &Packet, xid: u32) -> (r: bool)
        ensures
            r == is_reply(self.mac@, reply@, xid, MSG_ACK),
    {
        self.is_reply(reply, xid, MSG_ACK)
    }

    /// `reply` is a Nak for transaction `xid` of this client.
    pub fn is_nak(&self, reply: &Packet, xid: u32) -> (r: bool)
        ensures
            r == is_reply(self.mac@, reply@, xid, MSG_NAK),
    {
        self.is_reply(reply, xid, MSG_NAK)
    }
}

/// A reply that carries another transaction id is not taken as an Offer, an
/// Ack or a Nak, whatever else it holds.
pub proof fn lemma_xid_binding(mac: Seq<u8>, reply: PacketView, xid: u32)
    requires
        reply.xid != xid,
    ensures
        !is_reply(mac, reply, xid, MSG_OFFER),
        !is_reply(mac, reply, xid, MSG_ACK),
        !is_reply(mac, reply, xid, MSG_NAK),
{
}

/// A reply addressed to another hardware address is not taken as an Offer,
/// an Ack or a Nak.
pub proof fn lemma_mac_filter(mac: Seq<u8>, reply: PacketView, xid: u32)
    requires
        reply.chaddr.len() >= 6,
        reply.chaddr.subrange(0, 6) != mac,
    ensures
        !is_reply(mac, reply, xid, MSG_OFFER),
        !is_reply(mac, reply, xid, MSG_ACK),
        !is_reply(mac, reply, xid, MSG_NAK),
{
}

fn read_second_u32(p: &Packet, code: u8) -> (r: Option<u32>)
    ensures
        r == option_second_u32(p@.options, code),
{
    match find_option(&p.options, code) {
        Some(i) => {
            let d = &p.options[i].data;
            if d.len() >= 8 {
                let v = ((d[4] as u32) << 24u32) | ((d[5] as u32) << 16u32) | ((d[6] as u32)
                    << 8u32) | (d[7] as u32);
                Some(v)
            } else {
                None
            }
        },
        None => None,
    }
}

impl Settings {
    /// The settings that an Offer or an Ack carries: the offered address,
    /// the server, the lease time, the first router, the subnet mask and up
    /// to two name servers.
    pub fn from_packet(p: &Packet) -> (r: Settings)
        ensures
            r == settings_of(p@),
    {
        Settings {
            ip: p.yiaddr,
            server_ip: p.option_u32(OPT_SERVER_IDENTIFIER),
            lease_time_secs: p.option_u32(OPT_LEASE_TIME),
            gateway: p.option_u32(OPT_ROUTER),
            subnet: p.option_u32(OPT_SUBNET_MASK),
            dns1: p.option_u32(OPT_DNS),
            dns2: read_second_u32(p, OPT_DNS),
        }
    }
}

/// Lease time assumed when an Ack carries none.
pub const DEFAULT_LEASE_SECS: u32 = 7200;
/// Pause between two checks of a bound lease.
pub const BOUND_CHECK_SECS: u64 = 60;
/// Pause, and receive window, while looking for offers.
pub const SELECT_RETRY_SECS: u64 = 3;
/// Attempts of a Request before the client starts over.
pub const REQUEST_ATTEMPTS: u32 = 3;
pub const CLIENT_PORT: u16 = 68;
pub const SERVER_PORT: u16 = 67;

/// Settings of a client: its socket, its hardware address, and how long it
/// waits for replies.
#[derive(Clone, Copy, Debug)]
pub struct Configuration {
    pub socket: Endpoint,
    pub mac: [u8; 6],
    pub timeout_secs: u64,
}

impl Configuration {
    /// The client port on the unspecified address, and a 10 s timeout.
    pub fn new(mac: [u8; 6]) -> (r: Configuration)
        ensures
            r.socket == (Endpoint { ip: 0, port: CLIENT_PORT }),
            r.mac@ == mac@,
            r.timeout_secs == 10,
    {
        Configuration { socket: Endpoint { ip: 0, port: CLIENT_PORT }, mac, timeout_secs: 10 }
    }
}

/// What the client does next.
#[derive(Clone, Copy, Debug, PartialEq, Eq, Structural)]
pub enum Step {
    /// No lease: look for servers.
    Discover,
    /// The lease is due for renewal: request `ip` again from `server`.
    Renew { server: u32, ip: u32 },
    /// The lease is good: check again after this many seconds.
    Sleep(u64),
}

/// How a reply to a Request is taken.
pub enum ReplyKind {
    Ack(Settings),
    Nak,
    Ignore,
}

/// The lease is due for renewal once a third of its time has passed.
pub open spec fn renewal_due(s: Settings, acquired: u64, now: u64) -> bool {
    let lease = match s.lease_time_secs {
        Some(l) => l,
        None => DEFAULT_LEASE_SECS,
    };
    now >= acquired && now - acquired >= lease / 3
}

/// The server to ask: the one recorded, else the broadcast address.
pub open spec fn server_of(s: Settings) -> u32 {
    match s.server_ip {
        Some(ip) => ip,
        None => 0xffff_ffffu32,
    }
}

/// The settings that a release hands out: those of the lease held, if any.
pub open spec fn released(held: Option<(Settings, u64)>) -> Option<Settings> {
    match held {
        Some((s, _)) => Some(s),
        None => None,
    }
}

/// The decisions of a DHCP client, with the lease it holds and when it was
/// acquired (in seconds of a monotonic clock).
pub struct Client {
    pub core: ClientCore,
    pub timeout_secs: u64,
    pub settings: Option<(Settings, u64)>,
}

impl Client {
    pub fn new(conf: &Configuration) -> (r: Client)
        ensures
            r.core.mac@ == conf.mac@,
            r.timeout_secs == conf.timeout_secs,
            r.settings is None,
    {
        Client { core: ClientCore::new(conf.mac), timeout_secs: conf.timeout_secs, settings: None }
    }

    /// The next thing to do at time `now`.
    pub fn next_step(&self, now: u64) -> (r: Step)
        ensures
            match self.settings {
                None => r == Step::Discover,
                Some((s, acquired)) => if renewal_due(s, acquired, now) {
                    r == (Step::Renew { server: server_of(s), ip: s.ip })
                } else {
                    r == Step::Sleep(BOUND_CHECK_SECS)
                },
            },
    {
        match self.settings {
            None => Step::Discover,
            Some((s, acquired)) => {
                let lease = match s.lease_time_secs {
                    Some(l) => l,
                    None => DEFAULT_LEASE_SECS,
                };
                if now >= acquired && now - acquired >= (lease / 3) as u64 {
                    let server = match s.server_ip {
                        Some(ip) => ip,
                        None => 0xffff_ffffu32,
                    };
                    Step::Renew { server, ip: s.ip }
                } else {
                    Step::Sleep(BOUND_CHECK_SECS)
                }
            },
        }
    }

    /// An Offer for transaction `xid` gives the settings to request.
    pub fn offer_settings(&self, reply: &Packet, xid: u32) -> (r: Option<Settings>)
        ensures
            is_reply(self.core.mac@, reply@, xid, MSG_OFFER) ==> r == Some(settings_of(reply@)),
            !is_reply(self.core.mac@, reply@, xid, MSG_OFFER) ==> r is None,
    {
        if self.core.is_offer(reply, xid) {
            Some(Settings::from_packet(reply))
        } else {
            None
        }
    }

    /// How a reply to the Request of transaction `xid` is taken.
    pub fn classify(&self, reply: &Packet, xid: u32) -> (r: ReplyKind)
        ensures
            is_reply(self.core.mac@, reply@, xid, MSG_ACK) ==> r == ReplyKind::Ack(settings_of(reply@)),
            !is_reply(self.core.mac@, reply@, xid, MSG_ACK) && is_reply(self.core.mac@, reply@, xid, MSG_NAK) ==> r
                == ReplyKind::Nak,
            !is_reply(self.core.mac@, reply@, xid, MSG_ACK) && !is_reply(self.core.mac@, reply@, xid, MSG_NAK) ==> r
                == ReplyKind::Ignore,
    {
        if self.core.is_ack(reply, xid) {
            ReplyKind::Ack(Settings::from_packet(reply))
        } else if self.core.is_nak(reply, xid) {
            ReplyKind::Nak
        } else {
            ReplyKind::Ignore
        }
    }

    /// The end of a Request after discovery: an Ack binds the lease at
    /// `now` and is reported; otherwise the client starts over, and nothing
    /// is reported.
    pub fn on_acquired(&mut self, outcome: Option<Settings>, now: u64) -> (r: Option<Settings>)
        ensures
            outcome matches Some(s) ==> final(self).settings == Some((s, now)) && r == Some(s),
            outcome is None ==> final(self).settings == old(self).settings && r is None,
            final(self).core == old(self).core,
            final(self).timeout_secs == old(self).timeout_secs,
    {
        match outcome {
            Some(s) => {
                self.settings = Some((s, now));
                Some(s)
            },
            None => None,
        }
    }

    /// The end of a renewal: an Ack renews the lease at `now` and the client
    /// goes on (`false`); otherwise the lease is lost (`true`, reported as
    /// `None` to the caller).
    pub fn on_renewed(&mut self, outcome: Option<Settings>, now: u64) -> (lost: bool)
        ensures
            outcome matches Some(s) ==> final(self).settings == Some((s, now)) && !lost,
            outcome is None ==> final(self).settings is None && lost,
            final(self).core == old(self).core,
            final(self).timeout_secs == old(self).timeout_secs,
    {
        match outcome {
            Some(s) => {
                self.settings = Some((s, now));
                false
            },
            None => {
                self.settings = None;
                true
            },
        }
    }

    /// Forgets the lease. Returns the settings whose address is to be
    /// released, if a lease was held.
    pub fn release(&mut self) -> (r: Option<Settings>)
        ensures
            final(self).settings is None,
            r == released(old(self).settings),
            final(self).core == old(self).core,
            final(self).timeout_secs == old(self).timeout_secs,
    {
        let r = match self.settings {
            Some((s, _)) => Some(s),
            None => None,
        };
        self.settings = None;
        r
    }
}

/// Releasing twice: the first release hands out the lease held, if any, and
/// leaves none; the second, starting from no lease, hands out nothing and
/// again leaves none.
pub proof fn lemma_release_idempotent(held: Option<(Settings, u64)>)
    ensures
        held matches Some((s, _)) ==> released(held) == Some(s),
        held is None ==> released(held) is None,
        released(None::<(Settings, u64)>) is None,
{
}

} // verus!
