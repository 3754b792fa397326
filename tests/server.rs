use edge_net::codec::{DhcpOption, Packet};
use edge_net::server::{reply_destination, Server, ServerOptions};

fn ip(a: u8, b: u8, c: u8, d: u8) -> u32 {
    u32::from_be_bytes([a, b, c, d])
}

fn mac(last: u8) -> [u8; 6] {
    [0xaa, 0xbb, 0xcc, 0xdd, 0xee, last]
}

fn request(m: [u8; 6], xid: u32, mt: u8, extra: Vec<DhcpOption>) -> Packet {
    let mut chaddr = m.to_vec();
    chaddr.extend_from_slice(&[0u8; 10]);
    let mut options = vec![DhcpOption { code: 53, data: vec![mt] }];
    options.extend(extra);
    Packet {
        op: 1,
        htype: 1,
        hlen: 6,
        hops: 0,
        xid,
        secs: 0,
        flags: 0x8000,
        ciaddr: 0,
        yiaddr: 0,
        siaddr: 0,
        giaddr: ip(10, 9, 8, 7),
        chaddr,
        sname: vec![0u8; 64],
        file: vec![0u8; 128],
        options,
    }
}

fn addr_opt(code: u8, a: u32) -> DhcpOption {
    DhcpOption { code, data: a.to_be_bytes().to_vec() }
}

fn options() -> ServerOptions {
    ServerOptions {
        ip: ip(192, 168, 5, 1),
        gateways: vec![ip(192, 168, 5, 1)],
        subnet: Some(ip(255, 255, 255, 0)),
        dns: vec![ip(8, 8, 8, 8), ip(1, 1, 1, 1)],
        lease_duration_secs: 3600,
    }
}

fn server() -> Server {
    Server::new(ip(192, 168, 5, 100), ip(192, 168, 5, 102), 4)
}

#[test]
fn discover_offers_lowest_free_addresses() {
    let mut s = server();
    let o = options();
    let r1 = s.handle_request(&o, &request(mac(1), 10, 1, vec![]), 1000).unwrap();
    assert_eq!(r1.packet.yiaddr, ip(192, 168, 5, 100));
    assert_eq!(r1.packet.op, 2);
    assert_eq!(r1.packet.xid, 10);
    assert_eq!(r1.packet.message_type(), Some(2));
    assert_eq!(r1.packet.option_u32(54), Some(ip(192, 168, 5, 1)));
    assert_eq!(r1.packet.option_u32(51), Some(3600));
    assert_eq!(r1.packet.option_u32(1), Some(ip(255, 255, 255, 0)));
    assert_eq!(r1.packet.option_u32(3), Some(ip(192, 168, 5, 1)));
    assert_eq!(r1.packet.giaddr, ip(10, 9, 8, 7));
    assert_eq!(&r1.packet.chaddr[..6], &mac(1));
    assert!(r1.broadcast);
    let r2 = s.handle_request(&o, &request(mac(2), 11, 1, vec![]), 1000).unwrap();
    assert_eq!(r2.packet.yiaddr, ip(192, 168, 5, 101));
}

#[test]
fn request_after_offer_is_acked() {
    let mut s = server();
    let o = options();
    s.handle_request(&o, &request(mac(1), 10, 1, vec![]), 1000).unwrap();
    s.handle_request(&o, &request(mac(2), 11, 1, vec![]), 1000).unwrap();
    let req = request(
        mac(1),
        12,
        3,
        vec![addr_opt(50, ip(192, 168, 5, 100)), addr_opt(54, ip(192, 168, 5, 1))],
    );
    let ack = s.handle_request(&o, &req, 2000).unwrap();
    assert_eq!(ack.packet.message_type(), Some(5));
    assert_eq!(ack.packet.yiaddr, ip(192, 168, 5, 100));
    assert_eq!(ack.packet.option_u32(51), Some(3600));
    let lease = s.leases.iter().find(|l| l.mac == mac(1)).unwrap();
    assert_eq!(lease.ip, ip(192, 168, 5, 100));
    assert_eq!(lease.expires_at, 2000 + 3600);
}

#[test]
fn request_for_other_server_is_dropped() {
    let mut s = server();
    let o = options();
    s.handle_request(&o, &request(mac(1), 10, 1, vec![]), 1000).unwrap();
    let req = request(
        mac(1),
        12,
        3,
        vec![addr_opt(50, ip(192, 168, 5, 100)), addr_opt(54, ip(192, 168, 5, 2))],
    );
    assert!(s.handle_request(&o, &req, 1001).is_none());
}

#[test]
fn request_for_unknown_address_is_naked() {
    let mut s = server();
    let o = options();
    let req = request(mac(3), 12, 3, vec![addr_opt(50, ip(192, 168, 5, 101))]);
    let nak = s.handle_request(&o, &req, 1000).unwrap();
    assert_eq!(nak.packet.message_type(), Some(6));
    assert_eq!(nak.packet.yiaddr, 0);
    assert!(s.leases.is_empty());
}

#[test]
fn requested_address_is_honoured_when_free() {
    let mut s = server();
    let o = options();
    let r = s
        .handle_request(&o, &request(mac(1), 1, 1, vec![addr_opt(50, ip(192, 168, 5, 102))]), 0)
        .unwrap();
    assert_eq!(r.packet.yiaddr, ip(192, 168, 5, 102));
    let out_of_range = s
        .handle_request(&o, &request(mac(2), 2, 1, vec![addr_opt(50, ip(192, 168, 6, 1))]), 0)
        .unwrap();
    assert_eq!(out_of_range.packet.yiaddr, ip(192, 168, 5, 100));
}

#[test]
fn same_client_gets_same_address() {
    let mut s = server();
    let o = options();
    let a = s.handle_request(&o, &request(mac(1), 1, 1, vec![]), 0).unwrap();
    let b = s.handle_request(&o, &request(mac(1), 2, 1, vec![]), 5).unwrap();
    assert_eq!(a.packet.yiaddr, b.packet.yiaddr);
    assert_eq!(s.leases.len(), 1);
}

#[test]
fn exhausted_range_drops_and_expired_lease_is_reused() {
    let mut s = server();
    let o = options();
    for m in 1..=3 {
        assert!(s.handle_request(&o, &request(mac(m), m as u32, 1, vec![]), 0).is_some());
    }
    assert!(s.handle_request(&o, &request(mac(4), 4, 1, vec![]), 10).is_none());
    let late = s.handle_request(&o, &request(mac(4), 5, 1, vec![]), 3600).unwrap();
    assert_eq!(late.packet.yiaddr, ip(192, 168, 5, 100));
}

#[test]
fn full_table_drops_new_client() {
    let mut s = Server::new(ip(10, 0, 0, 1), ip(10, 0, 0, 200), 2);
    let o = options();
    assert!(s.handle_request(&o, &request(mac(1), 1, 1, vec![]), 0).is_some());
    assert!(s.handle_request(&o, &request(mac(2), 2, 1, vec![]), 0).is_some());
    assert!(s.handle_request(&o, &request(mac(3), 3, 1, vec![]), 1).is_none());
    let r = s.handle_request(&o, &request(mac(3), 4, 1, vec![]), 4000).unwrap();
    assert_eq!(r.packet.yiaddr, ip(10, 0, 0, 1));
    assert_eq!(s.leases.len(), 2);
}

#[test]
fn leases_stay_distinct_and_in_range() {
    let mut s = Server::new(ip(10, 0, 0, 10), ip(10, 0, 0, 14), 8);
    let o = options();
    for round in 0..3u64 {
        for m in 1..=7u8 {
            let d = request(mac(m), m as u32, 1, vec![addr_opt(50, ip(10, 0, 0, 12))]);
            if let Some(offer) = s.handle_request(&o, &d, round * 10) {
                let r = request(mac(m), 99, 3, vec![addr_opt(50, offer.packet.yiaddr)]);
                let ack = s.handle_request(&o, &r, round * 10 + 1).unwrap();
                assert_eq!(ack.packet.message_type(), Some(5));
            }
        }
    }
    for (i, a) in s.leases.iter().enumerate() {
        assert!(a.ip >= ip(10, 0, 0, 10) && a.ip <= ip(10, 0, 0, 14));
        for b in s.leases.iter().skip(i + 1) {
            assert_ne!(a.ip, b.ip);
        }
    }
}

#[test]
fn release_and_decline_update_table() {
    let mut s = server();
    let o = options();
    s.handle_request(&o, &request(mac(1), 1, 1, vec![]), 0).unwrap();
    s.handle_request(&o, &request(mac(2), 2, 1, vec![]), 0).unwrap();
    let mut rel = request(mac(1), 3, 7, vec![]);
    rel.ciaddr = ip(192, 168, 5, 100);
    assert!(s.handle_request(&o, &rel, 1).is_none());
    assert!(s.leases.iter().all(|l| l.mac != mac(1)));
    let dec = request(mac(2), 4, 4, vec![addr_opt(50, ip(192, 168, 5, 101))]);
    assert!(s.handle_request(&o, &dec, 1).is_none());
    assert!(s.leases.iter().all(|l| l.mac != mac(2)));
    let poisoned = s.leases.iter().find(|l| l.ip == ip(192, 168, 5, 101)).unwrap();
    assert_eq!(poisoned.mac, [0u8; 6]);
    let next = s.handle_request(&o, &request(mac(5), 5, 1, vec![]), 2).unwrap();
    assert_eq!(next.packet.yiaddr, ip(192, 168, 5, 100));
}

#[test]
fn inform_gets_configuration_only() {
    let mut s = server();
    let o = options();
    let mut inf = request(mac(1), 9, 8, vec![]);
    inf.ciaddr = ip(192, 168, 5, 50);
    inf.flags = 0;
    let r = s.handle_request(&o, &inf, 0).unwrap();
    assert_eq!(r.packet.message_type(), Some(5));
    assert_eq!(r.packet.yiaddr, 0);
    assert_eq!(r.packet.option_u32(51), None);
    assert_eq!(r.packet.option_u32(6), Some(ip(8, 8, 8, 8)));
    assert!(!r.broadcast);
    assert!(s.leases.is_empty());
}

#[test]
fn bad_requests_are_dropped() {
    let mut s = server();
    let o = options();
    let mut reply = request(mac(1), 1, 1, vec![]);
    reply.op = 2;
    assert!(s.handle_request(&o, &reply, 0).is_none());
    let zero = request([0u8; 6], 1, 1, vec![]);
    assert!(s.handle_request(&o, &zero, 0).is_none());
    assert!(s.leases.is_empty());
}

#[test]
fn broadcast_replies_go_to_broadcast_address() {
    assert_eq!(reply_destination(true, ip(10, 0, 0, 5), 68), (0xffff_ffff, 68));
    assert_eq!(reply_destination(false, ip(10, 0, 0, 5), 68), (ip(10, 0, 0, 5), 68));
}
