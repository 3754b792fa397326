use edge_net::codec::{DhcpOption, Packet};
use edge_net::error::FormatError;

fn sample() -> Packet {
    let mut chaddr = vec![0x02, 0, 0, 0, 0, 0x01];
    chaddr.extend_from_slice(&[0u8; 10]);
    Packet {
        op: 1,
        htype: 1,
        hlen: 6,
        hops: 0,
        xid: 0xdead_beef,
        secs: 7,
        flags: 0x8000,
        ciaddr: 0,
        yiaddr: 0x0a00_0005,
        siaddr: 0,
        giaddr: 0x0a00_00fe,
        chaddr,
        sname: vec![0u8; 64],
        file: vec![0u8; 128],
        options: vec![
            DhcpOption { code: 53, data: vec![1] },
            DhcpOption { code: 200, data: vec![9, 8, 7] },
            DhcpOption { code: 61, data: vec![0x02, 0, 0, 0, 0, 0x01] },
        ],
    }
}

#[test]
fn encode_layout() {
    let bytes = sample().encode(576).unwrap();
    assert_eq!(bytes.len(), 240 + 3 + 5 + 8 + 1);
    assert_eq!(&bytes[0..4], &[1, 1, 6, 0]);
    assert_eq!(&bytes[4..8], &[0xde, 0xad, 0xbe, 0xef]);
    assert_eq!(&bytes[8..12], &[0, 7, 0x80, 0]);
    assert_eq!(&bytes[24..28], &[10, 0, 0, 0xfe]);
    assert_eq!(&bytes[236..240], &[0x63, 0x82, 0x53, 0x63]);
    assert_eq!(&bytes[240..243], &[53, 1, 1]);
    assert_eq!(*bytes.last().unwrap(), 255);
}

#[test]
fn round_trip_keeps_every_field() {
    let p = sample();
    let bytes = p.encode(1500).unwrap();
    let q = Packet::decode(&bytes).unwrap();
    assert_eq!(q.op, p.op);
    assert_eq!(q.xid, p.xid);
    assert_eq!(q.secs, p.secs);
    assert_eq!(q.flags, p.flags);
    assert_eq!(q.yiaddr, p.yiaddr);
    assert_eq!(q.giaddr, p.giaddr);
    assert_eq!(q.chaddr, p.chaddr);
    assert_eq!(q.options.len(), 3);
    for (a, b) in q.options.iter().zip(p.options.iter()) {
        assert_eq!(a.code, b.code);
        assert_eq!(a.data, b.data);
    }
}

#[test]
fn unknown_option_survives_reencode() {
    let bytes = sample().encode(1500).unwrap();
    let q = Packet::decode(&bytes).unwrap();
    let again = q.encode(1500).unwrap();
    assert_eq!(again, bytes);
    let r = Packet::decode(&again).unwrap();
    assert_eq!(r.options[1].code, 200);
    assert_eq!(r.options[1].data, vec![9, 8, 7]);
}

#[test]
fn pad_is_skipped_and_end_stops() {
    let mut bytes = sample().encode(1500).unwrap();
    bytes.truncate(240);
    bytes.extend_from_slice(&[0, 0, 53, 1, 5, 255, 99, 99]);
    let q = Packet::decode(&bytes).unwrap();
    assert_eq!(q.options.len(), 1);
    assert_eq!(q.message_type(), Some(5));
}

#[test]
fn end_of_buffer_without_end_is_accepted() {
    let mut bytes = sample().encode(1500).unwrap();
    bytes.truncate(243);
    let q = Packet::decode(&bytes).unwrap();
    assert_eq!(q.options.len(), 1);
}

#[test]
fn short_buffer_is_invalid() {
    let bytes = sample().encode(1500).unwrap();
    assert_eq!(Packet::decode(&bytes[..239]).err(), Some(FormatError::InvalidFormat));
    assert_eq!(Packet::decode(&[]).err(), Some(FormatError::InvalidFormat));
}

#[test]
fn missing_cookie_is_invalid() {
    let mut bytes = sample().encode(1500).unwrap();
    bytes[237] = 0;
    assert_eq!(Packet::decode(&bytes).err(), Some(FormatError::InvalidFormat));
}

#[test]
fn truncated_option_is_invalid() {
    let mut bytes = sample().encode(1500).unwrap();
    bytes.truncate(240);
    bytes.extend_from_slice(&[61, 6, 1, 2]);
    assert_eq!(Packet::decode(&bytes).err(), Some(FormatError::InvalidFormat));
}

#[test]
fn long_hardware_address_is_invalid() {
    let mut bytes = sample().encode(1500).unwrap();
    bytes[2] = 17;
    assert_eq!(Packet::decode(&bytes).err(), Some(FormatError::InvalidFormat));
}

#[test]
fn encode_into_short_buffer_overflows() {
    let p = sample();
    assert_eq!(p.encode(100).err(), Some(FormatError::BufferOverflow));
    assert_eq!(p.encode(256).err(), Some(FormatError::BufferOverflow));
    assert!(p.encode(257).is_ok());
}

#[test]
fn malformed_packet_is_not_encoded() {
    let mut p = sample();
    p.options.push(DhcpOption { code: 255, data: vec![] });
    assert_eq!(p.encode(1500).err(), Some(FormatError::InvalidFormat));
    let mut q = sample();
    q.chaddr.pop();
    assert_eq!(q.encode(1500).err(), Some(FormatError::InvalidFormat));
}

#[test]
fn option_lookup_takes_first_occurrence() {
    let mut p = sample();
    p.options.push(DhcpOption { code: 51, data: vec![0, 0, 0x0e, 0x10] });
    p.options.push(DhcpOption { code: 51, data: vec![0, 0, 0, 1] });
    assert_eq!(p.option_u32(51), Some(3600));
    assert_eq!(p.option_u32(54), None);
    assert_eq!(p.message_type(), Some(1));
}
