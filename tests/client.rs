use edge_net::client::{Client, ClientCore, Configuration, ReplyKind, Settings, Step};
use edge_net::codec::{DhcpOption, Packet};

const MAC: [u8; 6] = [0x02, 0, 0, 0, 0, 0x01];

fn ip(a: u8, b: u8, c: u8, d: u8) -> u32 {
    u32::from_be_bytes([a, b, c, d])
}

fn reply(mac: [u8; 6], xid: u32, yiaddr: u32, options: Vec<DhcpOption>) -> Packet {
    let mut chaddr = mac.to_vec();
    chaddr.extend_from_slice(&[0u8; 10]);
    Packet {
        op: 2,
        htype: 1,
        hlen: 6,
        hops: 0,
        xid,
        secs: 0,
        flags: 0,
        ciaddr: 0,
        yiaddr,
        siaddr: 0,
        giaddr: 0,
        chaddr,
        sname: vec![0u8; 64],
        file: vec![0u8; 128],
        options,
    }
}

fn opt(code: u8, data: &[u8]) -> DhcpOption {
    DhcpOption { code, data: data.to_vec() }
}

/// Sends the packet over the wire and back.
fn wire(p: &Packet) -> Packet {
    Packet::decode(&p.encode(1500).unwrap()).unwrap()
}

#[test]
fn discover_contents() {
    let core = ClientCore::new(MAC);
    let p = wire(&core.discover(3, None, 0x1234_5678));
    assert_eq!(p.op, 1);
    assert_eq!(p.xid, 0x1234_5678);
    assert_eq!(p.secs, 3);
    assert_eq!(p.flags, 0x8000);
    assert_eq!(&p.chaddr[..6], &MAC);
    assert_eq!(p.message_type(), Some(1));
    assert_eq!(p.options[1].code, 61);
    assert_eq!(p.options[1].data, MAC.to_vec());
    assert_eq!(p.options[2].code, 55);
    assert_eq!(p.options[2].data, vec![1, 3, 6, 15, 12, 51]);
    let q = core.discover(0, Some(ip(10, 0, 0, 9)), 1);
    assert_eq!(q.option_u32(50), Some(ip(10, 0, 0, 9)));
}

#[test]
fn request_release_decline_contents() {
    let core = ClientCore::new(MAC);
    let r = core.request(0, ip(192, 168, 1, 10), 7);
    assert_eq!(r.message_type(), Some(3));
    assert_eq!(r.option_u32(50), Some(ip(192, 168, 1, 10)));
    assert_eq!(r.flags, 0x8000);
    let rel = core.release(0, ip(192, 168, 1, 10), 8);
    assert_eq!(rel.message_type(), Some(7));
    assert_eq!(rel.ciaddr, ip(192, 168, 1, 10));
    assert_eq!(rel.flags, 0);
    let dec = core.decline(0, ip(192, 168, 1, 10), 9);
    assert_eq!(dec.message_type(), Some(4));
    assert_eq!(dec.option_u32(50), Some(ip(192, 168, 1, 10)));
}

#[test]
fn reply_with_other_xid_is_ignored() {
    let core = ClientCore::new(MAC);
    let offer = reply(MAC, 41, ip(192, 168, 1, 10), vec![opt(53, &[2])]);
    let ack = reply(MAC, 41, ip(192, 168, 1, 10), vec![opt(53, &[5])]);
    let nak = reply(MAC, 41, 0, vec![opt(53, &[6])]);
    assert!(core.is_offer(&offer, 41));
    assert!(!core.is_offer(&offer, 42));
    assert!(core.is_ack(&ack, 41));
    assert!(!core.is_ack(&ack, 42));
    assert!(core.is_nak(&nak, 41));
    assert!(!core.is_nak(&nak, 42));
}

#[test]
fn reply_for_other_mac_is_ignored() {
    let core = ClientCore::new(MAC);
    let other = [0x02, 0, 0, 0, 0, 0x02];
    let offer = reply(other, 5, ip(192, 168, 1, 10), vec![opt(53, &[2])]);
    let ack = reply(other, 5, ip(192, 168, 1, 10), vec![opt(53, &[5])]);
    assert!(!core.is_offer(&offer, 5));
    assert!(!core.is_ack(&ack, 5));
}

#[test]
fn request_is_not_taken_as_reply() {
    let core = ClientCore::new(MAC);
    let mut offer = reply(MAC, 5, ip(192, 168, 1, 10), vec![opt(53, &[2])]);
    offer.op = 1;
    assert!(!core.is_offer(&offer, 5));
    let ack = reply(MAC, 5, 0, vec![opt(53, &[5])]);
    assert!(!core.is_offer(&ack, 5));
}

#[test]
fn happy_path_client() {
    let conf = Configuration::new(MAC);
    assert_eq!(conf.timeout_secs, 10);
    assert_eq!(conf.socket.port, 68);
    let mut client = Client::new(&conf);
    assert_eq!(client.next_step(0), Step::Discover);

    let discover = wire(&client.core.discover(0, None, 0xabcd));
    let offer = wire(&reply(
        MAC,
        discover.xid,
        ip(192, 168, 1, 10),
        vec![
            opt(53, &[2]),
            opt(54, &[192, 168, 1, 1]),
            opt(51, &3600u32.to_be_bytes()),
        ],
    ));
    let offered = client.offer_settings(&offer, 0xabcd).unwrap();
    assert_eq!(offered.ip, ip(192, 168, 1, 10));
    assert_eq!(offered.server_ip, Some(ip(192, 168, 1, 1)));

    let request = wire(&client.core.request(0, offered.ip, 0xabce));
    assert_eq!(request.option_u32(50), Some(ip(192, 168, 1, 10)));
    let ack = wire(&reply(
        MAC,
        request.xid,
        ip(192, 168, 1, 10),
        vec![
            opt(53, &[5]),
            opt(54, &[192, 168, 1, 1]),
            opt(51, &3600u32.to_be_bytes()),
            opt(1, &[255, 255, 255, 0]),
            opt(3, &[192, 168, 1, 1]),
        ],
    ));
    let got = match client.classify(&ack, 0xabce) {
        ReplyKind::Ack(s) => client.on_acquired(Some(s), 100),
        _ => panic!("the Ack was not recognised"),
    };
    assert_eq!(
        got,
        Some(Settings {
            ip: ip(192, 168, 1, 10),
            server_ip: Some(ip(192, 168, 1, 1)),
            lease_time_secs: Some(3600),
            gateway: Some(ip(192, 168, 1, 1)),
            subnet: Some(ip(255, 255, 255, 0)),
            dns1: None,
            dns2: None,
        })
    );
    assert_eq!(client.settings.map(|(_, at)| at), Some(100));
    assert_eq!(client.next_step(100 + 1199), Step::Sleep(60));
    assert_eq!(
        client.next_step(100 + 1200),
        Step::Renew { server: ip(192, 168, 1, 1), ip: ip(192, 168, 1, 10) }
    );
}

#[test]
fn nak_on_renew_loses_lease() {
    let mut client = Client::new(&Configuration::new(MAC));
    let bound = Settings {
        ip: ip(10, 0, 0, 5),
        server_ip: Some(ip(10, 0, 0, 1)),
        lease_time_secs: Some(90),
        gateway: None,
        subnet: None,
        dns1: None,
        dns2: None,
    };
    client.settings = Some((bound, 1000));
    let step = client.next_step(1031);
    assert_eq!(step, Step::Renew { server: ip(10, 0, 0, 1), ip: ip(10, 0, 0, 5) });
    let nak = reply(MAC, 77, 0, vec![opt(53, &[6]), opt(54, &[10, 0, 0, 1])]);
    let outcome = match client.classify(&nak, 77) {
        ReplyKind::Ack(s) => Some(s),
        ReplyKind::Nak => None,
        ReplyKind::Ignore => panic!("the Nak was not recognised"),
    };
    assert!(client.on_renewed(outcome, 1032));
    assert!(client.settings.is_none());
    assert_eq!(client.next_step(1033), Step::Discover);
}

#[test]
fn lease_without_time_uses_default() {
    let mut client = Client::new(&Configuration::new(MAC));
    let s = Settings {
        ip: ip(10, 0, 0, 5),
        server_ip: None,
        lease_time_secs: None,
        gateway: None,
        subnet: None,
        dns1: None,
        dns2: None,
    };
    client.settings = Some((s, 0));
    assert_eq!(client.next_step(2399), Step::Sleep(60));
    assert_eq!(client.next_step(2400), Step::Renew { server: 0xffff_ffff, ip: ip(10, 0, 0, 5) });
}

#[test]
fn unrelated_reply_is_ignored_by_classify() {
    let client = Client::new(&Configuration::new(MAC));
    let offer = reply(MAC, 3, ip(1, 2, 3, 4), vec![opt(53, &[2])]);
    assert!(matches!(client.classify(&offer, 3), ReplyKind::Ignore));
    assert!(client.offer_settings(&offer, 4).is_none());
}

#[test]
fn settings_read_two_name_servers() {
    let p = reply(
        MAC,
        1,
        ip(10, 0, 0, 2),
        vec![opt(53, &[5]), opt(6, &[8, 8, 8, 8, 1, 1, 1, 1])],
    );
    let s = Settings::from_packet(&p);
    assert_eq!(s.dns1, Some(ip(8, 8, 8, 8)));
    assert_eq!(s.dns2, Some(ip(1, 1, 1, 1)));
    assert_eq!(s.gateway, None);
}

#[test]
fn release_twice_leaves_no_lease() {
    let mut client = Client::new(&Configuration::new(MAC));
    assert_eq!(client.release(), None);
    let s = Settings {
        ip: ip(10, 0, 0, 5),
        server_ip: Some(ip(10, 0, 0, 1)),
        lease_time_secs: Some(90),
        gateway: None,
        subnet: None,
        dns1: None,
        dns2: None,
    };
    client.settings = Some((s, 0));
    assert_eq!(client.release(), Some(s));
    assert!(client.settings.is_none());
    assert_eq!(client.release(), None);
    assert!(client.settings.is_none());
}
