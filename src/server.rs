//! The server side of DHCP: a bounded table of leases over an address range,
//! and the answer to each request.
use vstd::prelude::*;

use crate::client::{
    zero_bytes, zeros, u32_bytes, FLAG_BROADCAST, MSG_ACK, MSG_DECLINE, MSG_DISCOVER, MSG_INFORM,
    MSG_NAK, MSG_OFFER, MSG_RELEASE, MSG_REQUEST,
};
use crate::codec::{
    be32, copy_range, options_view, option_u32, message_type, DhcpOption, Packet, PacketView, OPT_DNS,
    OPT_LEASE_TIME, OPT_MESSAGE_TYPE, OPT_REQUESTED_IP, OPT_ROUTER, OPT_SERVER_IDENTIFIER,
    OPT_SUBNET_MASK, OP_BOOT_REPLY, OP_BOOT_REQUEST,
};

verus! {

/// The limited broadcast address, 255.255.255.255.
pub const BROADCAST_IP: u32 = 0xffff_ffff;

/// One entry of the lease table. A declined address is held under the
/// all-zero hardware address until it expires.
#[derive(Clone, Copy, Debug)]
pub struct Lease {
    pub mac: [u8; 6],
    pub ip: u32,
    pub expires_at: u64,
}

pub open spec fn zero_mac() -> Seq<u8> {
    seq![0u8, 0u8, 0u8, 0u8, 0u8, 0u8]
}

/// The lease table is well formed: within capacity, every address in the
/// range, no address twice, and no client hardware address twice.
pub open spec fn leases_wf(ls: Seq<Lease>, start: u32, end: u32, cap: usize) -> bool {
    &&& ls.len() <= cap
    &&& forall|i: int| 0 <= i < ls.len() ==> start <= #[trigger] ls[i].ip <= end
    &&& forall|i: int, j: int|
        0 <= i < ls.len() && 0 <= j < ls.len() && i != j ==> #[trigger] ls[i].ip
            != #[trigger] ls[j].ip
    &&& forall|i: int, j: int|
        0 <= i < ls.len() && 0 <= j < ls.len() && i != j && ls[i].mac@ != zero_mac()
            ==> #[trigger] ls[i].mac@ != #[trigger] ls[j].mac@
}

/// `ip` may be given to `mac`: nobody holds it, `mac` holds it, or the
/// holder's lease has expired.
pub open spec fn available(ls: Seq<Lease>, ip: u32, mac: Seq<u8>, now: u64) -> bool {
    forall|i: int|
        0 <= i < ls.len() && #[trigger] ls[i].ip == ip ==> ls[i].mac@ == mac || ls[i].expires_at
            <= now
}

/// Some entry gives `ip` to `mac`.
pub open spec fn holds(ls: Seq<Lease>, mac: Seq<u8>, ip: u32) -> bool {
    exists|i: int| 0 <= i < ls.len() && #[trigger] ls[i].mac@ == mac && ls[i].ip == ip
}

pub open spec fn has_lease(ls: Seq<Lease>, mac: Seq<u8>) -> bool {
    exists|i: int| 0 <= i < ls.len() && #[trigger] ls[i].mac@ == mac
}

/// An entry of the table, as address, client and expiry.
pub open spec fn entry(ls: Seq<Lease>, mac: Seq<u8>, ip: u32, expires_at: u64) -> bool {
    exists|i: int|
        0 <= i < ls.len() && #[trigger] ls[i].mac@ == mac && ls[i].ip == ip && ls[i].expires_at
            == expires_at
}

/// Leases of other clients that have not expired.
pub open spec fn keeps_live_leases(old_ls: Seq<Lease>, new_ls: Seq<Lease>, mac: Seq<u8>, now: u64) -> bool {
    forall|i: int|
        0 <= i < old_ls.len() && #[trigger] old_ls[i].expires_at > now && old_ls[i].mac@ != mac
            ==> new_ls.contains(old_ls[i])
}

/// Where the lease of this client expires when it is committed at `now`.
pub open spec fn expiry(now: u64, secs: u32) -> u64 {
    if now + secs > u64::MAX {
        u64::MAX
    } else {
        (now + secs) as u64
    }
}

/// What the server says of itself in replies.
pub struct ServerOptions {
    pub ip: u32,
    pub gateways: Vec<u32>,
    pub subnet: Option<u32>,
    pub dns: Vec<u32>,
    pub lease_duration_secs: u32,
}

/// A list of addresses, four bytes each.
pub open spec fn ips_bytes(s: Seq<u32>) -> Seq<u8>
    decreases s.len(),
{
    if s.len() == 0 {
        seq![]
    } else {
        ips_bytes(s.drop_last()) + be32(s.last())
    }
}

/// The options of a reply of type `mt`; with `lease`, the lease time too.
pub open spec fn reply_options(
    server_ip: u32,
    gateways: Seq<u32>,
    subnet: Option<u32>,
    dns: Seq<u32>,
    lease_secs: u32,
    mt: u8,
    lease: bool,
) -> Seq<(u8, Seq<u8>)> {
    let a = seq![(OPT_MESSAGE_TYPE, seq![mt]), (OPT_SERVER_IDENTIFIER, be32(server_ip))];
    let b = if lease {
        a.push((OPT_LEASE_TIME, be32(lease_secs)))
    } else {
        a
    };
    let c = match subnet {
        Some(m) => b.push((OPT_SUBNET_MASK, be32(m))),
        None => b,
    };
    let d = if gateways.len() > 0 {
        c.push((OPT_ROUTER, ips_bytes(gateways)))
    } else {
        c
    };
    if dns.len() > 0 {
        d.push((OPT_DNS, ips_bytes(dns)))
    } else {
        d
    }
}

impl ServerOptions {
    pub open spec fn options_for(&self, mt: u8, lease: bool) -> Seq<(u8, Seq<u8>)> {
        reply_options(
            self.ip,
            self.gateways@,
            self.subnet,
            self.dns@,
            self.lease_duration_secs,
            mt,
            lease,
        )
    }

    pub open spec fn nak_options(&self) -> Seq<(u8, Seq<u8>)> {
        seq![(OPT_MESSAGE_TYPE, seq![MSG_NAK]), (OPT_SERVER_IDENTIFIER, be32(self.ip))]
    }
}

/// The BootReply to `req`: same transaction, flags, client address, relay and
/// hardware address.
pub open spec fn reply_to(req: PacketView, yiaddr: u32, options: Seq<(u8, Seq<u8>)>) -> PacketView {
    PacketView {
        op: OP_BOOT_REPLY,
        htype: req.htype,
        hlen: req.hlen,
        hops: 0,
        xid: req.xid,
        secs: 0,
        flags: req.flags,
        ciaddr: req.ciaddr,
        yiaddr,
        siaddr: 0,
        giaddr: req.giaddr,
        chaddr: req.chaddr,
        sname: zeros(64),
        file: zeros(128),
        options,
    }
}

/// The reply must be broadcast: the client asked so, or has no address yet.
pub open spec fn wants_broadcast(req: PacketView) -> bool {
    req.flags & FLAG_BROADCAST != 0 || req.ciaddr == 0
}

/// A reply and whether to broadcast it.
pub struct Reply {
    pub packet: Packet,
    pub broadcast: bool,
}

/// The hardware address that a request comes from.
pub open spec fn client_mac(req: PacketView) -> Seq<u8> {
    req.chaddr.subrange(0, 6)
}

/// A request that the server looks at: a BootRequest with a non-zero
/// hardware address.
pub open spec fn acceptable(req: PacketView) -> bool {
    req.op == OP_BOOT_REQUEST && req.chaddr.len() >= 6 && client_mac(req) != zero_mac()
}

/// The bounded lease table of a DHCP server over `[range_start, range_end]`.
pub struct Server {
    pub range_start: u32,
    pub range_end: u32,
    pub capacity: usize,
    pub leases: Vec<Lease>,
}

impl Server {
    pub open spec fn wf(&self) -> bool {
        leases_wf(self.leases@, self.range_start, self.range_end, self.capacity)
    }

    pub open spec fn in_range(&self, ip: u32) -> bool {
        self.range_start <= ip <= self.range_end
    }

    /// `ip` is the lowest address of the range that `mac` may be given.
    pub open spec fn lowest_available(&self, mac: Seq<u8>, now: u64, ip: u32) -> bool {
        &&& self.in_range(ip)
        &&& available(self.leases@, ip, mac, now)
        &&& forall|x: u32|
            self.range_start <= x < ip ==> !#[trigger] available(self.leases@, x, mac, now)
    }

    /// The address that a Discover from `mac` is offered: the one it holds;
    /// else the one it asks for, if in range and free; else the lowest free one.
    pub open spec fn selected_ip(&self, mac: Seq<u8>, requested: Option<u32>, now: u64) -> Option<
        u32,
    > {
        if has_lease(self.leases@, mac) {
            Some(
                self.leases@[choose|i: int|
                    0 <= i < self.leases@.len() && #[trigger] self.leases@[i].mac@ == mac].ip,
            )
        } else if requested matches Some(r) && self.in_range(r) && available(
            self.leases@,
            r,
            mac,
            now,
        ) {
            requested
        } else if exists|x: u32| self.lowest_available(mac, now, x) {
            Some(choose|x: u32| self.lowest_available(mac, now, x))
        } else {
            None
        }
    }

    /// A new client can be given `ip`: an expired lease holds it, there is
    /// room, or an expired lease can make room.
    pub open spec fn room_for(&self, ip: u32, now: u64) -> bool {
        ||| (exists|i: int| 0 <= i < self.leases@.len() && #[trigger] self.leases@[i].ip == ip)
        ||| self.leases@.len() < self.capacity
        ||| exists|i: int|
            0 <= i < self.leases@.len() && #[trigger] self.leases@[i].expires_at <= now
    }

    /// An empty table over `[range_start, range_end]` with room for `capacity` leases.
    pub fn new(range_start: u32, range_end: u32, capacity: usize) -> (r: Server)
        ensures
            r.wf(),
            r.range_start == range_start,
            r.range_end == range_end,
            r.capacity == capacity,
            r.leases@.len() == 0,
    {
        Server { range_start, range_end, capacity, leases: Vec::new() }
    }
}

fn same_mac(a: &[u8; 6], b: &[u8; 6]) -> (r: bool)
    ensures
        r == (a@ == b@),
{
    let mut i: usize = 0;
    while i < 6
        invariant
            i <= 6,
            a@.len() == 6,
            b@.len() == 6,
            forall|j: int| 0 <= j < i ==> a@[j] == b@[j],
        decreases 6 - i,
    {
        if a[i] != b[i] {
            return false;
        }
        i = i + 1;
    }
    assert(a@ =~= b@);
    true
}

fn is_zero_mac(a: &[u8; 6]) -> (r: bool)
    ensures
        r == (a@ == zero_mac()),
{
    let z: [u8; 6] = [0u8, 0u8, 0u8, 0u8, 0u8, 0u8];
    assert(z@ =~= zero_mac());
    same_mac(a, &z)
}

proof fn lemma_remove_wf(ls: Seq<Lease>, start: u32, end: u32, cap: usize, j: int)
    requires
        leases_wf(ls, start, end, cap),
        0 <= j < ls.len(),
    ensures
        leases_wf(ls.remove(j), start, end, cap),
        forall|k: int| 0 <= k < ls.len() && k != j ==> ls.remove(j).contains(#[trigger] ls[k]),
{
    let r = ls.remove(j);
    assert forall|a: int, b: int|
        0 <= a < r.len() && 0 <= b < r.len() && a != b implies #[trigger] r[a].ip
        != #[trigger] r[b].ip by {
        let a2 = if a < j {
            a
        } else {
            a + 1
        };
        let b2 = if b < j {
            b
        } else {
            b + 1
        };
        assert(r[a] == ls[a2] && r[b] == ls[b2]);
    }
    assert forall|a: int, b: int|
        0 <= a < r.len() && 0 <= b < r.len() && a != b && r[a].mac@ != zero_mac() implies #[trigger] r[a].mac@
        != #[trigger] r[b].mac@ by {
        let a2 = if a < j {
            a
        } else {
            a + 1
        };
        let b2 = if b < j {
            b
        } else {
            b + 1
        };
        assert(r[a] == ls[a2] && r[b] == ls[b2]);
    }
    assert forall|a: int| 0 <= a < r.len() implies start <= #[trigger] r[a].ip <= end by {
        let a2 = if a < j {
            a
        } else {
            a + 1
        };
        assert(r[a] == ls[a2]);
    }
    assert forall|k: int| 0 <= k < ls.len() && k != j implies r.contains(#[trigger] ls[k]) by {
        if k < j {
            assert(r[k] == ls[k]);
        } else {
            assert(r[k - 1] == ls[k]);
        }
    }
}

impl Server {
    fn find_by_mac(&self, mac: &[u8; 6]) -> (r: Option<usize>)
        ensures
            match r {
                Some(i) => i < self.leases@.len() && self.leases@[i as int].mac@ == mac@,
                None => !has_lease(self.leases@, mac@),
            },
    {
        let mut i: usize = 0;
        while i < self.leases.len()
            invariant
                i <= self.leases@.len(),
                forall|j: int| 0 <= j < i ==> #[trigger] self.leases@[j].mac@ != mac@,
            decreases self.leases.len() - i,
        {
            if same_mac(&self.leases[i].mac, mac) {
                return Some(i);
            }
            i = i + 1;
        }
        None
    }

    fn find_by_ip(&self, ip: u32) -> (r: Option<usize>)
        ensures
            match r {
                Some(i) => i < self.leases@.len() && self.leases@[i as int].ip == ip,
                None => forall|j: int| 0 <= j < self.leases@.len() ==> #[trigger] self.leases@[j].ip != ip,
            },
    {
        let mut i: usize = 0;
        while i < self.leases.len()
            invariant
                i <= self.leases@.len(),
                forall|j: int| 0 <= j < i ==> #[trigger] self.leases@[j].ip != ip,
            decreases self.leases.len() - i,
        {
            if self.leases[i].ip == ip {
                return Some(i);
            }
            i = i + 1;
        }
        None
    }

    fn is_available(&self, ip: u32, mac: &[u8; 6], now: u64) -> (r: bool)
        requires
            self.wf(),
        ensures
            r == available(self.leases@, ip, mac@, now),
    {
        match self.find_by_ip(ip) {
            Some(j) => {
                let l = &self.leases[j];
                let r = same_mac(&l.mac, mac) || l.expires_at <= now;
                proof {
                    if r {
                        assert forall|i: int|
                            0 <= i < self.leases@.len() && #[trigger] self.leases@[i].ip
                                == ip implies self.leases@[i].mac@ == mac@
                            || self.leases@[i].expires_at <= now by {
                            if i != j {
                                assert(self.leases@[i].ip != self.leases@[j as int].ip);
                            }
                        }
                    }
                }
                r
            },
            None => true,
        }
    }

    fn lowest_free(&self, mac: &[u8; 6], now: u64) -> (r: Option<u32>)
        requires
            self.wf(),
        ensures
            match r {
                Some(ip) => self.lowest_available(mac@, now, ip),
                None => forall|x: u32| self.in_range(x) ==> !#[trigger] available(self.leases@, x, mac@, now),
            },
    {
        let mut x: u64 = self.range_start as u64;
        while x <= self.range_end as u64
            invariant
                self.wf(),
                self.range_start <= x,
                x <= self.range_end as u64 + 1 || x == self.range_start as u64,
                forall|y: u32| self.range_start <= y < x ==> !#[trigger] available(self.leases@, y, mac@, now),
            decreases self.range_end as u64 + 1 - x,
        {
            if self.is_available(x as u32, mac, now) {
                return Some(x as u32);
            }
            x = x + 1;
        }
        None
    }

    fn earliest_expired(&self, now: u64) -> (r: Option<usize>)
        ensures
            match r {
                Some(k) => k < self.leases@.len() && self.leases@[k as int].expires_at <= now
                    && forall|j: int| 0 <= j < self.leases@.len() && #[trigger] self.leases@[j].expires_at <= now
                        ==> self.leases@[k as int].expires_at <= self.leases@[j].expires_at,
                None => forall|j: int| 0 <= j < self.leases@.len() ==> #[trigger] self.leases@[j].expires_at > now,
            },
    {
        let mut best: Option<usize> = None;
        let mut i: usize = 0;
        while i < self.leases.len()
            invariant
                i <= self.leases@.len(),
                match best {
                    Some(k) => k < i && self.leases@[k as int].expires_at <= now
                        && forall|j: int| 0 <= j < i && #[trigger] self.leases@[j].expires_at <= now
                            ==> self.leases@[k as int].expires_at <= self.leases@[j].expires_at,
                    None => forall|j: int| 0 <= j < i ==> #[trigger] self.leases@[j].expires_at > now,
                },
            decreases self.leases.len() - i,
        {
            let e = self.leases[i].expires_at;
            if e <= now {
                match best {
                    Some(k) => {
                        if e < self.leases[k].expires_at {
                            best = Some(i);
                        }
                    },
                    None => {
                        best = Some(i);
                    },
                }
            }
            i = i + 1;
        }
        best
    }

    /// The address to offer to `mac`, by the rule of `selected_ip`.
    fn select_ip(&self, mac: &[u8; 6], requested: Option<u32>, now: u64) -> (r: Option<u32>)
        requires
            self.wf(),
            mac@ != zero_mac(),
        ensures
            r == self.selected_ip(mac@, requested, now),
            r matches Some(ip) ==> self.in_range(ip) && available(self.leases@, ip, mac@, now),
    {
        match self.find_by_mac(mac) {
            Some(i) => {
                proof {
                    let c = choose|k: int|
                        0 <= k < self.leases@.len() && #[trigger] self.leases@[k].mac@ == mac@;
                    if c != i {
                        assert(self.leases@[c].mac@ != self.leases@[i as int].mac@);
                    }
                    assert forall|k: int|
                        0 <= k < self.leases@.len() && #[trigger] self.leases@[k].ip
                            == self.leases@[i as int].ip implies self.leases@[k].mac@ == mac@
                        || self.leases@[k].expires_at <= now by {
                        if k != i {
                            assert(self.leases@[k].ip != self.leases@[i as int].ip);
                        }
                    }
                }
                return Some(self.leases[i].ip);
            },
            None => {},
        }
        match requested {
            Some(ip) => {
                if self.range_start <= ip && ip <= self.range_end && self.is_available(ip, mac, now) {
                    return Some(ip);
                }
            },
            None => {},
        }
        let r = self.lowest_free(mac, now);
        proof {
            match r {
                Some(ip) => {
                    let c = choose|x: u32| self.lowest_available(mac@, now, x);
                    assert(self.lowest_available(mac@, now, c));
                    if c < ip {
                        assert(!available(self.leases@, c, mac@, now));
                    } else if ip < c {
                        assert(!available(self.leases@, ip, mac@, now));
                    }
                },
                None => {
                    assert forall|x: u32| !self.lowest_available(mac@, now, x) by {
                        if self.in_range(x) {
                            assert(!available(self.leases@, x, mac@, now));
                        }
                    }
                },
            }
        }
        r
    }

    /// Gives `ip` to `mac` until `expires_at`. Fails, and changes nothing,
    /// when `mac` is new, nobody holds `ip`, the table is full and no lease
    /// has expired.
    fn assign(&mut self, mac: [u8; 6], ip: u32, expires_at: u64, now: u64) -> (r: bool)
        requires
            old(self).wf(),
            old(self).in_range(ip),
            available(old(self).leases@, ip, mac@, now),
            mac@ != zero_mac(),
        ensures
            final(self).wf(),
            final(self).range_start == old(self).range_start,
            final(self).range_end == old(self).range_end,
            final(self).capacity == old(self).capacity,
            r == (has_lease(old(self).leases@, mac@) || old(self).room_for(ip, now)),
            r ==> entry(final(self).leases@, mac@, ip, expires_at),
            !r ==> final(self).leases@ == old(self).leases@,
            keeps_live_leases(old(self).leases@, final(self).leases@, mac@, now),
    {
        let ghost ls0 = self.leases@;
        let new_lease = Lease { mac, ip, expires_at };
        let mut removed = false;
        match self.find_by_ip(ip) {
            Some(j) => {
                if !same_mac(&self.leases[j].mac, &mac) {
                    proof {
                        lemma_remove_wf(ls0, self.range_start, self.range_end, self.capacity, j as int);
                        assert forall|k: int| 0 <= k < ls0.len() - 1 implies #[trigger] ls0.remove(j as int)[k].ip != ip by {
                            if k < j {
                                assert(ls0[k].ip != ls0[j as int].ip);
                            } else {
                                assert(ls0[k + 1].ip != ls0[j as int].ip);
                            }
                        }
                    }
                    self.leases.remove(j);
                    removed = true;
                } else {
                    proof {
                        assert forall|k: int| 0 <= k < ls0.len() && #[trigger] ls0[k].ip == ip implies ls0[k].mac@ == mac@ by {
                            if k != j {
                                assert(ls0[k].ip != ls0[j as int].ip);
                            }
                        }
                    }
                }
            },
            None => {},
        }
        let ghost ls1 = self.leases@;
        assert(forall|k: int| 0 <= k < ls1.len() && #[trigger] ls1[k].ip == ip ==> ls1[k].mac@ == mac@);
        assert(forall|k: int| 0 <= k < ls0.len() && #[trigger] ls0[k].expires_at > now && ls0[k].mac@ != mac@ ==> ls1.contains(ls0[k]));
        assert(removed ==> ls1.len() < self.capacity);
        match self.find_by_mac(&mac) {
            Some(i) => {
                proof {
                    lemma_set_wf(ls1, self.range_start, self.range_end, self.capacity, i as int, new_lease);
                    assert(self.leases@.update(i as int, new_lease)[i as int] == new_lease);
                }
                self.leases.set(i, new_lease);
                proof {
                    assert(self.leases@[i as int].mac@ == mac@);
                    if !removed {
                        assert(has_lease(ls0, mac@));
                    }
                }
                return true;
            },
            None => {},
        }
        assert(forall|k: int| 0 <= k < ls1.len() ==> #[trigger] ls1[k].ip != ip);
        if self.leases.len() < self.capacity {
            proof {
                lemma_push_wf(ls1, self.range_start, self.range_end, self.capacity, new_lease);
            }
            self.leases.push(new_lease);
            proof {
                assert(self.leases@[ls1.len() as int] == new_lease);
                assert(self.leases@[ls1.len() as int].mac@ == mac@);
            }
            return true;
        }
        match self.earliest_expired(now) {
            Some(k) => {
                proof {
                    lemma_set_wf(ls1, self.range_start, self.range_end, self.capacity, k as int, new_lease);
                    assert(self.leases@.update(k as int, new_lease)[k as int] == new_lease);
                }
                self.leases.set(k, new_lease);
                assert(self.leases@[k as int].mac@ == mac@);
                true
            },
            None => {
                proof {
                    assert(!has_lease(ls0, mac@)) by {
                        if has_lease(ls0, mac@) {
                            let w = choose|x: int| 0 <= x < ls0.len() && #[trigger] ls0[x].mac@ == mac@;
                            assert(ls1[w] == ls0[w]);
                        }
                    }
                }
                false
            },
        }
    }
}

/// Writing an entry over slot `t` keeps the table well formed when no other
/// entry has its address or its client; the other entries stay.
proof fn lemma_set_wf(ls: Seq<Lease>, start: u32, end: u32, cap: usize, t: int, l: Lease)
    requires
        leases_wf(ls, start, end, cap),
        0 <= t < ls.len(),
        start <= l.ip <= end,
        l.mac@ != zero_mac(),
        forall|k: int| 0 <= k < ls.len() && k != t ==> #[trigger] ls[k].ip != l.ip,
        forall|k: int| 0 <= k < ls.len() && k != t ==> #[trigger] ls[k].mac@ != l.mac@,
    ensures
        leases_wf(ls.update(t, l), start, end, cap),
        forall|k: int| 0 <= k < ls.len() && k != t ==> ls.update(t, l).contains(#[trigger] ls[k]),
{
    let u = ls.update(t, l);
    assert forall|k: int| 0 <= k < ls.len() && k != t implies u.contains(#[trigger] ls[k]) by {
        assert(u[k] == ls[k]);
    }
}

/// Appending an entry whose address and client are new keeps the table well
/// formed while there is room.
proof fn lemma_push_wf(ls: Seq<Lease>, start: u32, end: u32, cap: usize, l: Lease)
    requires
        leases_wf(ls, start, end, cap),
        ls.len() < cap,
        start <= l.ip <= end,
        forall|k: int| 0 <= k < ls.len() ==> #[trigger] ls[k].ip != l.ip,
        forall|k: int| 0 <= k < ls.len() ==> #[trigger] ls[k].mac@ != l.mac@,
    ensures
        leases_wf(ls.push(l), start, end, cap),
        forall|k: int| 0 <= k < ls.len() ==> ls.push(l).contains(#[trigger] ls[k]),
{
    let u = ls.push(l);
    assert forall|k: int| 0 <= k < ls.len() implies u.contains(#[trigger] ls[k]) by {
        assert(u[k] == ls[k]);
    }
}

/// Bytes of a list of addresses.
fn ips_vec(v: &Vec<u32>) -> (r: Vec<u8>)
    ensures
        r@ == ips_bytes(v@),
{
    let mut out: Vec<u8> = Vec::new();
    let mut i: usize = 0;
    while i < v.len()
        invariant
            i <= v@.len(),
            out@ == ips_bytes(v@.subrange(0, i as int)),
        decreases v.len() - i,
    {
        let b = u32_bytes(v[i]);
        let ghost before = out@;
        let mut k: usize = 0;
        while k < 4
            invariant
                k <= 4,
                b@.len() == 4,
                out@ == before + b@.subrange(0, k as int),
            decreases 4 - k,
        {
            out.push(b[k]);
            k = k + 1;
            assert(out@ =~= before + b@.subrange(0, k as int));
        }
        assert(v@.subrange(0, i + 1).drop_last() =~= v@.subrange(0, i as int));
        assert(b@.subrange(0, 4) =~= b@);
        i = i + 1;
    }
    assert(v@.subrange(0, v@.len() as int) =~= v@);
    out
}

impl ServerOptions {
    fn reply_options(&self, mt: u8, lease: bool) -> (r: Vec<DhcpOption>)
        ensures
            options_view(r@) == self.options_for(mt, lease),
    {
        let mut os: Vec<DhcpOption> = Vec::new();
        let mt_data = vec![mt];
        assert(mt_data@ =~= seq![mt]);
        let sid = u32_bytes(self.ip);
        os.push(DhcpOption { code: OPT_MESSAGE_TYPE, data: mt_data });
        os.push(DhcpOption { code: OPT_SERVER_IDENTIFIER, data: sid });
        let ghost a = seq![(OPT_MESSAGE_TYPE, seq![mt]), (OPT_SERVER_IDENTIFIER, be32(self.ip))];
        assert(options_view(os@) =~= a);
        if lease {
            let d = u32_bytes(self.lease_duration_secs);
            os.push(DhcpOption { code: OPT_LEASE_TIME, data: d });
            assert(options_view(os@) =~= a.push((OPT_LEASE_TIME, be32(self.lease_duration_secs))));
        }
        let ghost b = options_view(os@);
        match self.subnet {
            Some(m) => {
                let d = u32_bytes(m);
                os.push(DhcpOption { code: OPT_SUBNET_MASK, data: d });
                assert(options_view(os@) =~= b.push((OPT_SUBNET_MASK, be32(m))));
            },
            None => {},
        }
        let ghost c = options_view(os@);
        if self.gateways.len() > 0 {
            let d = ips_vec(&self.gateways);
            os.push(DhcpOption { code: OPT_ROUTER, data: d });
            assert(options_view(os@) =~= c.push((OPT_ROUTER, ips_bytes(self.gateways@))));
        }
        let ghost e = options_view(os@);
        if self.dns.len() > 0 {
            let d = ips_vec(&self.dns);
            os.push(DhcpOption { code: OPT_DNS, data: d });
            assert(options_view(os@) =~= e.push((OPT_DNS, ips_bytes(self.dns@))));
        }
        os
    }

    fn nak(&self) -> (r: Vec<DhcpOption>)
        ensures
            options_view(r@) == self.nak_options(),
    {
        let mut os: Vec<DhcpOption> = Vec::new();
        let mt_data = vec![MSG_NAK];
        assert(mt_data@ =~= seq![MSG_NAK]);
        let sid = u32_bytes(self.ip);
        os.push(DhcpOption { code: OPT_MESSAGE_TYPE, data: mt_data });
        os.push(DhcpOption { code: OPT_SERVER_IDENTIFIER, data: sid });
        assert(options_view(os@) =~= self.nak_options());
        os
    }
}

fn make_reply(req: &Packet, yiaddr: u32, options: Vec<DhcpOption>) -> (r: Reply)
    ensures
        r.packet@ == reply_to(req@, yiaddr, options_view(options@)),
        r.broadcast == wants_broadcast(req@),
{
    let packet = Packet {
        op: OP_BOOT_REPLY,
        htype: req.htype,
        hlen: req.hlen,
        hops: 0,
        xid: req.xid,
        secs: 0,
        flags: req.flags,
        ciaddr: req.ciaddr,
        yiaddr,
        siaddr: 0,
        giaddr: req.giaddr,
        chaddr: copy_range(req.chaddr.as_slice(), 0, req.chaddr.len()),
        sname: zero_bytes(64),
        file: zero_bytes(128),
        options,
    };
    assert(req.chaddr@.subrange(0, req.chaddr@.len() as int) =~= req.chaddr@);
    Reply { packet, broadcast: req.flags & FLAG_BROADCAST != 0 || req.ciaddr == 0 }
}

fn client_mac_of(req: &Packet) -> (r: [u8; 6])
    requires
        req.chaddr@.len() >= 6,
    ensures
        r@ == client_mac(req@),
{
    let c = &req.chaddr;
    let r: [u8; 6] = [c[0], c[1], c[2], c[3], c[4], c[5]];
    assert(r@ =~= client_mac(req@));
    r
}

/// The address a Request asks for: option 50, else `ciaddr` (a renewal).
pub open spec fn requested_of(req: PacketView) -> u32 {
    match option_u32(req.options, OPT_REQUESTED_IP) {
        Some(ip) => ip,
        None => req.ciaddr,
    }
}

/// A Request names another server.
pub open spec fn for_other_server(req: PacketView, server_ip: u32) -> bool {
    option_u32(req.options, OPT_SERVER_IDENTIFIER) matches Some(id) && id != server_ip
}

impl Server {
    /// Answers one request at time `now` (seconds): an Offer to a Discover,
    /// an Ack or a Nak to a Request, an Ack to an Inform; Decline and Release
    /// change the table and get no answer.
    pub fn handle_request(&mut self, opts: &ServerOptions, req: &Packet, now: u64) -> (r: Option<Reply>)
        requires
            old(self).wf(),
        ensures
            final(self).wf(),
            final(self).range_start == old(self).range_start,
            final(self).range_end == old(self).range_end,
            final(self).capacity == old(self).capacity,
            !acceptable(req@) ==> r is None && final(self).leases@ == old(self).leases@,
            acceptable(req@) && message_type(req@.options) == Some(MSG_DISCOVER) ==> ({
                let mac = client_mac(req@);
                let sel = old(self).selected_ip(mac, option_u32(req@.options, OPT_REQUESTED_IP), now);
                match r {
                    Some(rep) => {
                        &&& sel == Some(rep.packet@.yiaddr)
                        &&& final(self).in_range(rep.packet@.yiaddr)
                        &&& rep.packet@ == reply_to(req@, rep.packet@.yiaddr, opts.options_for(MSG_OFFER, true))
                        &&& rep.broadcast == wants_broadcast(req@)
                        &&& entry(final(self).leases@, mac, rep.packet@.yiaddr, expiry(now, opts.lease_duration_secs))
                        &&& keeps_live_leases(old(self).leases@, final(self).leases@, mac, now)
                    },
                    None => {
                        &&& (sel is None || (!has_lease(old(self).leases@, mac) && !old(self).room_for(sel->0, now)))
                        &&& final(self).leases@ == old(self).leases@
                    },
                }
            }),
            acceptable(req@) && message_type(req@.options) == Some(MSG_REQUEST) ==> ({
                let mac = client_mac(req@);
                let ip = requested_of(req@);
                if for_other_server(req@, opts.ip) {
                    r is None && final(self).leases@ == old(self).leases@
                } else if holds(old(self).leases@, mac, ip) {
                    &&& r matches Some(rep)
                    &&& rep.packet@ == reply_to(req@, ip, opts.options_for(MSG_ACK, true))
                    &&& final(self).in_range(ip)
                    &&& rep.broadcast == wants_broadcast(req@)
                    &&& entry(final(self).leases@, mac, ip, expiry(now, opts.lease_duration_secs))
                    &&& keeps_live_leases(old(self).leases@, final(self).leases@, mac, now)
                } else {
                    &&& r matches Some(rep)
                    &&& rep.packet@ == reply_to(req@, 0, opts.nak_options())
                    &&& rep.broadcast == wants_broadcast(req@)
                    &&& final(self).leases@ == old(self).leases@
                }
            }),
            acceptable(req@) && message_type(req@.options) == Some(MSG_DECLINE) ==> ({
                let mac = client_mac(req@);
                let d = option_u32(req@.options, OPT_REQUESTED_IP);
                &&& r is None
                &&& if d is Some && holds(old(self).leases@, mac, d->0) {
                    !has_lease(final(self).leases@, mac) && holds(final(self).leases@, zero_mac(), d->0)
                } else {
                    final(self).leases@ == old(self).leases@
                }
            }),
            acceptable(req@) && message_type(req@.options) == Some(MSG_RELEASE) ==> ({
                let mac = client_mac(req@);
                &&& r is None
                &&& holds(old(self).leases@, mac, req@.ciaddr) ==> !has_lease(final(self).leases@, mac)
                &&& !holds(old(self).leases@, mac, req@.ciaddr) ==> final(self).leases@ == old(self).leases@
            }),
            acceptable(req@) && message_type(req@.options) == Some(MSG_INFORM) ==> ({
                &&& r matches Some(rep)
                &&& rep.packet@ == reply_to(req@, 0, opts.options_for(MSG_ACK, false))
                &&& rep.broadcast == wants_broadcast(req@)
                &&& final(self).leases@ == old(self).leases@
            }),
            acceptable(req@) && !(message_type(req@.options) matches Some(t) && (t == MSG_DISCOVER || t == MSG_REQUEST || t == MSG_DECLINE || t == MSG_RELEASE || t == MSG_INFORM)) ==> (
                r is None && final(self).leases@ == old(self).leases@),
    {
        if req.op != OP_BOOT_REQUEST || req.chaddr.len() < 6 {
            return None;
        }
        let mac = client_mac_of(req);
        if is_zero_mac(&mac) {
            return None;
        }
        let mt = match req.message_type() {
            Some(t) => t,
            None => {
                return None;
            },
        };
        let d = opts.lease_duration_secs as u64;
        let exp = if now > u64::MAX - d {
            u64::MAX
        } else {
            now + d
        };
        if mt == MSG_DISCOVER {
            let requested = req.option_u32(OPT_REQUESTED_IP);
            let ip = match self.select_ip(&mac, requested, now) {
                Some(ip) => ip,
                None => {
                    return None;
                },
            };
            if !self.assign(mac, ip, exp, now) {
                return None;
            }
            let os = opts.reply_options(MSG_OFFER, true);
            proof {
                lemma_range_containment(*self, mac@, ip, exp);
            }
            Some(make_reply(req, ip, os))
        } else if mt == MSG_REQUEST {
            match req.option_u32(OPT_SERVER_IDENTIFIER) {
                Some(id) => if id != opts.ip {
                    return None;
                },
                None => {},
            }
            let ip = match req.option_u32(OPT_REQUESTED_IP) {
                Some(ip) => ip,
                None => req.ciaddr,
            };
            match self.find_by_mac(&mac) {
                Some(i) => {
                    if self.leases[i].ip == ip {
                        proof {
                            assert(self.leases@[i as int].mac@ == mac@);
                            assert forall|k: int|
                                0 <= k < self.leases@.len() && #[trigger] self.leases@[k].ip
                                    == ip implies self.leases@[k].mac@ == mac@
                                || self.leases@[k].expires_at <= now by {
                                if k != i {
                                    assert(self.leases@[k].ip != self.leases@[i as int].ip);
                                }
                            }
                            assert(has_lease(self.leases@, mac@));
                        }
                        self.assign(mac, ip, exp, now);
                        proof {
                            lemma_range_containment(*self, mac@, ip, exp);
                        }
                        let os = opts.reply_options(MSG_ACK, true);
                        return Some(make_reply(req, ip, os));
                    }
                    proof {
                        assert(!holds(self.leases@, mac@, ip)) by {
                            if holds(self.leases@, mac@, ip) {
                                let w = choose|k: int| 0 <= k < self.leases@.len() && #[trigger] self.leases@[k].mac@ == mac@ && self.leases@[k].ip == ip;
                                if w != i {
                                    assert(self.leases@[w].mac@ != self.leases@[i as int].mac@);
                                }
                            }
                        }
                    }
                },
                None => {},
            }
            let os = opts.nak();
            Some(make_reply(req, 0, os))
        } else if mt == MSG_DECLINE {
            match req.option_u32(OPT_REQUESTED_IP) {
                Some(ip) => {
                    match self.find_by_mac(&mac) {
                        Some(i) => {
                            if self.leases[i].ip == ip {
                                let ghost ls0 = self.leases@;
                                let old_lease = self.leases[i];
                                let poisoned = Lease { mac: [0u8, 0u8, 0u8, 0u8, 0u8, 0u8], ip, expires_at: old_lease.expires_at };
                                assert(poisoned.mac@ =~= zero_mac());
                                self.leases.set(i, poisoned);
                                proof {
                                    let ls = self.leases@;
                                    assert(ls == ls0.update(i as int, poisoned));
                                    assert forall|a: int, b: int|
                                        0 <= a < ls.len() && 0 <= b < ls.len() && a != b implies #[trigger] ls[a].ip
                                        != #[trigger] ls[b].ip by {
                                        assert(ls0[a].ip != ls0[b].ip);
                                    }
                                    assert forall|a: int, b: int|
                                        0 <= a < ls.len() && 0 <= b < ls.len() && a != b && ls[a].mac@ != zero_mac() implies #[trigger] ls[a].mac@
                                        != #[trigger] ls[b].mac@ by {
                                        if b != i {
                                            assert(ls0[a].mac@ != ls0[b].mac@);
                                        }
                                    }
                                    assert(!has_lease(ls, mac@)) by {
                                        if has_lease(ls, mac@) {
                                            let w = choose|k: int| 0 <= k < ls.len() && #[trigger] ls[k].mac@ == mac@;
                                            assert(ls0[w].mac@ != ls0[i as int].mac@);
                                        }
                                    }
                                    assert(ls[i as int].mac@ == zero_mac());
                                }
                                return None;
                            }
                            proof {
                                assert(!holds(self.leases@, mac@, ip)) by {
                                    if holds(self.leases@, mac@, ip) {
                                        let w = choose|k: int| 0 <= k < self.leases@.len() && #[trigger] self.leases@[k].mac@ == mac@ && self.leases@[k].ip == ip;
                                        if w != i {
                                            assert(self.leases@[w].mac@ != self.leases@[i as int].mac@);
                                        }
                                    }
                                }
                            }
                        },
                        None => {},
                    }
                },
                None => {},
            }
            None
        } else if mt == MSG_RELEASE {
            match self.find_by_mac(&mac) {
                Some(i) => {
                    if self.leases[i].ip == req.ciaddr {
                        let ghost ls0 = self.leases@;
                        proof {
                            lemma_remove_wf(ls0, self.range_start, self.range_end, self.capacity, i as int);
                        }
                        self.leases.remove(i);
                        proof {
                            let ls = self.leases@;
                            assert(!has_lease(ls, mac@)) by {
                                if has_lease(ls, mac@) {
                                    let w = choose|k: int| 0 <= k < ls.len() && #[trigger] ls[k].mac@ == mac@;
                                    let w0 = if w < i { w } else { w + 1 };
                                    assert(ls[w] == ls0[w0]);
                                    assert(ls0[w0].mac@ != ls0[i as int].mac@);
                                }
                            }
                        }
                        return None;
                    }
                    proof {
                        assert(!holds(self.leases@, mac@, req.ciaddr)) by {
                            if holds(self.leases@, mac@, req.ciaddr) {
                                let w = choose|k: int| 0 <= k < self.leases@.len() && #[trigger] self.leases@[k].mac@ == mac@ && self.leases@[k].ip == req.ciaddr;
                                if w != i {
                                    assert(self.leases@[w].mac@ != self.leases@[i as int].mac@);
                                }
                            }
                        }
                    }
                },
                None => {},
            }
            None
        } else if mt == MSG_INFORM {
            let os = opts.reply_options(MSG_ACK, false);
            Some(make_reply(req, 0, os))
        } else {
            None
        }
    }
}

/// In a well-formed table no two leases share an address, so no sequence of
/// requests, each answered by `handle_request`, leads to two clients holding
/// one address.
pub proof fn lemma_lease_uniqueness(s: Server, i: int, j: int)
    requires
        s.wf(),
        0 <= i < s.leases@.len(),
        0 <= j < s.leases@.len(),
        i != j,
    ensures
        s.leases@[i].ip != s.leases@[j].ip,
{
}

/// Every address that the table gives out, and so every address offered or
/// acknowledged, lies in `[range_start, range_end]`.
pub proof fn lemma_range_containment(s: Server, mac: Seq<u8>, ip: u32, expires_at: u64)
    requires
        s.wf(),
        entry(s.leases@, mac, ip, expires_at),
    ensures
        s.range_start <= ip <= s.range_end,
{
    let w = choose|k: int|
        0 <= k < s.leases@.len() && #[trigger] s.leases@[k].mac@ == mac && s.leases@[k].ip == ip
            && s.leases@[k].expires_at == expires_at;
    assert(s.leases@[w].ip == ip);
}

/// Where the answer goes: broadcast to the client's port, or back to the
/// address the request came from.
pub fn reply_destination(broadcast: bool, remote_ip: u32, remote_port: u16) -> (r: (u32, u16))
    ensures
        broadcast ==> r == (BROADCAST_IP, remote_port),
        !broadcast ==> r == (remote_ip, remote_port),
{
    if broadcast {
        (BROADCAST_IP, remote_port)
    } else {
        (remote_ip, remote_port)
    }
}

} // verus!
