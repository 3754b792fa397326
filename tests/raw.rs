use edge_net::error::FormatError;
use edge_net::raw::{
    accept_frame, frame_for_send, internet_checksum, ip_udp_decode, ip_udp_encode, Endpoint,
    Error, SocketAddr, Udp2RawStack,
};

fn ep(a: [u8; 4], port: u16) -> Endpoint {
    Endpoint { ip: u32::from_be_bytes(a), port }
}

const HELLO_FRAME: [u8; 33] = [
    69, 0, 0, 33, 0, 0, 0, 0, 64, 17, 185, 35, 192, 168, 1, 1, 255, 255, 255, 255, 0, 67, 0, 68,
    0, 13, 249, 209, 104, 101, 108, 108, 111,
];

#[test]
fn header_checksum_matches_reference() {
    let hdr = [
        0x45, 0x00, 0x00, 0x73, 0x00, 0x00, 0x40, 0x00, 0x40, 0x11, 0x00, 0x00, 0xc0, 0xa8, 0x00,
        0x01, 0xc0, 0xa8, 0x00, 0xc7,
    ];
    assert_eq!(internet_checksum(&hdr), 0xb861);
}

#[test]
fn encode_matches_reference_frame() {
    let out = ip_udp_encode(ep([192, 168, 1, 1], 67), ep([255, 255, 255, 255], 68), b"hello", 1500)
        .unwrap();
    assert_eq!(out, HELLO_FRAME.to_vec());
}

#[test]
fn decode_reference_frame() {
    let d = ip_udp_decode(&HELLO_FRAME, None, None).unwrap().unwrap();
    assert_eq!(d.src, ep([192, 168, 1, 1], 67));
    assert_eq!(d.dst, ep([255, 255, 255, 255], 68));
    assert_eq!(d.payload, b"hello".to_vec());
}

#[test]
fn tampered_header_fails_checksum() {
    let mut f = HELLO_FRAME;
    f[8] = 63;
    assert_eq!(ip_udp_decode(&f, None, None).err(), Some(FormatError::InvalidChecksum));
    let mut g = HELLO_FRAME;
    g[13] ^= 0x10;
    assert_eq!(ip_udp_decode(&g, None, None).err(), Some(FormatError::InvalidChecksum));
}

#[test]
fn tampered_payload_fails_udp_checksum() {
    let mut f = HELLO_FRAME;
    f[30] = b'X';
    assert_eq!(ip_udp_decode(&f, None, None).err(), Some(FormatError::InvalidChecksum));
}

#[test]
fn zero_udp_checksum_is_not_checked() {
    let mut f = HELLO_FRAME;
    f[26] = 0;
    f[27] = 0;
    f[30] = b'X';
    let d = ip_udp_decode(&f, None, None).unwrap().unwrap();
    assert_eq!(d.payload, b"heXlo".to_vec());
}

#[test]
fn destination_filter() {
    let to_67 = ip_udp_encode(ep([10, 0, 0, 2], 68), ep([10, 0, 0, 1], 67), b"x", 1500).unwrap();
    let to_68 = ip_udp_encode(ep([10, 0, 0, 1], 67), ep([10, 0, 0, 2], 68), b"y", 1500).unwrap();
    let filter = Some(ep([0, 0, 0, 0], 68));
    assert!(ip_udp_decode(&to_67, None, filter).unwrap().is_none());
    let d = ip_udp_decode(&to_68, None, filter).unwrap().unwrap();
    assert_eq!(d.payload, b"y".to_vec());
    let mut bad = to_68.clone();
    bad[10] ^= 0xff;
    assert_eq!(ip_udp_decode(&bad, None, filter).err(), Some(FormatError::InvalidChecksum));
}

#[test]
fn source_filter_matches_address_and_port() {
    let f = ip_udp_encode(ep([10, 0, 0, 1], 67), ep([10, 0, 0, 2], 68), b"z", 1500).unwrap();
    assert!(ip_udp_decode(&f, Some(ep([10, 0, 0, 1], 0)), None).unwrap().is_some());
    assert!(ip_udp_decode(&f, Some(ep([10, 0, 0, 3], 0)), None).unwrap().is_none());
    assert!(ip_udp_decode(&f, Some(ep([10, 0, 0, 1], 99)), None).unwrap().is_none());
}

#[test]
fn not_udp_or_not_ipv4_is_skipped() {
    let mut tcp = HELLO_FRAME;
    tcp[9] = 6;
    tcp[10] = 0;
    tcp[11] = 0;
    let ck = internet_checksum(&tcp[..20]);
    tcp[10] = (ck >> 8) as u8;
    tcp[11] = ck as u8;
    assert!(ip_udp_decode(&tcp, None, None).unwrap().is_none());
    let mut v6 = HELLO_FRAME;
    v6[0] = 0x60;
    assert!(ip_udp_decode(&v6, None, None).unwrap().is_none());
}

#[test]
fn short_or_inconsistent_frames_are_invalid() {
    assert_eq!(ip_udp_decode(&HELLO_FRAME[..19], None, None).err(), Some(FormatError::InvalidFormat));
    assert_eq!(ip_udp_decode(&HELLO_FRAME[..30], None, None).err(), Some(FormatError::InvalidFormat));
}

#[test]
fn encode_refuses_oversize() {
    let big = vec![0u8; 1473];
    assert_eq!(
        ip_udp_encode(ep([1, 1, 1, 1], 1), ep([2, 2, 2, 2], 2), &big, 1500).err(),
        Some(FormatError::BufferOverflow)
    );
    assert!(ip_udp_encode(ep([1, 1, 1, 1], 1), ep([2, 2, 2, 2], 2), &big[..1472], 1500).is_ok());
}

#[test]
fn adapter_refuses_ipv6() {
    let v4 = SocketAddr::V4(ep([10, 0, 0, 1], 68));
    let v6 = SocketAddr::V6 { ip: 1, port: 68 };
    assert!(matches!(frame_for_send::<()>(v6, v4, b"a"), Err(Error::UnsupportedProtocol)));
    assert!(matches!(frame_for_send::<()>(v4, v6, b"a"), Err(Error::UnsupportedProtocol)));
    let f = frame_for_send::<()>(v4, SocketAddr::V4(ep([10, 0, 0, 2], 67)), b"a").unwrap();
    assert_eq!(f.len(), 29);
    let _stack = Udp2RawStack::new((), ());
}

#[test]
fn receive_skips_and_fills() {
    let f = frame_for_send::<()>(
        SocketAddr::V4(ep([10, 0, 0, 1], 67)),
        SocketAddr::V4(ep([10, 0, 0, 2], 68)),
        b"payload",
    )
    .unwrap();
    let d = accept_frame::<()>(&f, None, Some(ep([0, 0, 0, 0], 68)), 100).unwrap().unwrap();
    assert_eq!(d.payload, b"payload".to_vec());
    assert!(accept_frame::<()>(&f, None, Some(ep([0, 0, 0, 0], 67)), 100).unwrap().is_none());
    assert!(accept_frame::<()>(&f[..10], None, None, 100).unwrap().is_none());
    assert!(matches!(
        accept_frame::<()>(&f, None, None, 3),
        Err(Error::RawError(FormatError::BufferOverflow))
    ));
}
