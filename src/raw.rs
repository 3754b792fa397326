//! IPv4 and UDP headers for sending and receiving datagrams over a link-layer
//! socket, before the interface has an address.
use vstd::prelude::*;

use crate::codec::{
    lemma_be16_roundtrip, lemma_be32_roundtrip, be16, be32, copy_range, get_u16, get_u32, push_all, push_u16, push_u32, read_u16, read_u32,
};
use crate::error::FormatError;

verus! {

pub const IP_HEADER_LEN: usize = 20;
pub const PROTO_UDP: u8 = 17;
pub const DEFAULT_TTL: u8 = 64;
/// The largest IPv4 datagram.
pub const MAX_DATAGRAM: usize = 65535;

/// One UDP endpoint: an IPv4 address and a port.
#[derive(Clone, Copy, Debug, PartialEq, Eq, Structural)]
pub struct Endpoint {
    pub ip: u32,
    pub port: u16,
}

/// A UDP datagram taken out of an IPv4 packet.
pub struct Datagram {
    pub src: Endpoint,
    pub dst: Endpoint,
    pub payload: Vec<u8>,
}

pub struct DatagramView {
    pub src: Endpoint,
    pub dst: Endpoint,
    pub payload: Seq<u8>,
}

impl View for Datagram {
    type V = DatagramView;

    open spec fn view(&self) -> DatagramView {
        DatagramView { src: self.src, dst: self.dst, payload: self.payload@ }
    }
}

/// Sum of the big-endian 16-bit words of `b`; an odd last byte is padded
/// with zero.
pub open spec fn words_sum(b: Seq<u8>) -> nat
    decreases b.len(),
{
    if b.len() == 0 {
        0
    } else if b.len() == 1 {
        (b[0] as nat) * 256
    } else {
        (b[0] as nat) * 256 + (b[1] as nat) + words_sum(b.skip(2))
    }
}

/// Folds the carries of a ones'-complement sum into 16 bits.
pub open spec fn fold(s: nat) -> nat
    decreases s,
{
    if s <= 0xffff {
        s
    } else {
        fold(s % 65536 + s / 65536)
    }
}

/// The Internet checksum of `b`.
pub open spec fn checksum(b: Seq<u8>) -> u16 {
    (0xffff - fold(words_sum(b))) as u16
}

/// The IPv4 header of a UDP packet of `total` bytes, with checksum `ck`.
pub open spec fn ip_header(src: u32, dst: u32, total: u16, ck: u16) -> Seq<u8> {
    seq![0x45u8, 0u8] + be16(total) + seq![0u8, 0u8, 0u8, 0u8, DEFAULT_TTL, PROTO_UDP] + be16(ck)
        + be32(src) + be32(dst)
}

pub open spec fn udp_header(src: Endpoint, dst: Endpoint, len: u16, ck: u16) -> Seq<u8> {
    be16(src.port) + be16(dst.port) + be16(len) + be16(ck)
}

/// The pseudo-header that the UDP checksum covers.
pub open spec fn pseudo_header(src: u32, dst: u32, udp_len: u16) -> Seq<u8> {
    be32(src) + be32(dst) + seq![0u8, PROTO_UDP] + be16(udp_len)
}

/// The UDP checksum as sent: a computed zero is sent as 0xffff.
pub open spec fn udp_checksum(src: Endpoint, dst: Endpoint, payload: Seq<u8>) -> u16 {
    let len = (payload.len() + 8) as u16;
    let c = checksum(pseudo_header(src.ip, dst.ip, len) + udp_header(src, dst, len, 0) + payload);
    if c == 0 {
        0xffff
    } else {
        c
    }
}

/// The IPv4 packet that carries `payload` from `src` to `dst`.
pub open spec fn ip_udp_packet(src: Endpoint, dst: Endpoint, payload: Seq<u8>) -> Seq<u8> {
    let total = (payload.len() + 28) as u16;
    let ip_ck = checksum(ip_header(src.ip, dst.ip, total, 0));
    ip_header(src.ip, dst.ip, total, ip_ck) + udp_header(
        src,
        dst,
        (payload.len() + 8) as u16,
        udp_checksum(src, dst, payload),
    ) + payload
}

/// An endpoint passes a filter: the unspecified address and port 0 match any.
pub open spec fn passes(filter: Option<Endpoint>, e: Endpoint) -> bool {
    match filter {
        Some(f) => (f.ip == 0 || f.ip == e.ip) && (f.port == 0 || f.port == e.port),
        None => true,
    }
}

/// Reading an IPv4 packet: not IPv4 or not UDP, or filtered out, gives
/// `Ok(None)`; a malformed packet or a wrong checksum is an error. A UDP
/// checksum of zero is not checked.
pub open spec fn parse_ip_udp(b: Seq<u8>, fsrc: Option<Endpoint>, fdst: Option<Endpoint>) -> Result<
    Option<DatagramView>,
    FormatError,
> {
    if b.len() < 20 {
        Err(FormatError::InvalidFormat)
    } else if b[0] / 16 != 4 {
        Ok(None)
    } else {
        let hl = (b[0] % 16) * 4;
        let total = get_u16(b, 2) as int;
        if hl < 20 || total > b.len() || total < hl + 8 {
            Err(FormatError::InvalidFormat)
        } else if fold(words_sum(b.subrange(0, hl as int))) != 0xffff {
            Err(FormatError::InvalidChecksum)
        } else if b[9] != PROTO_UDP {
            Ok(None)
        } else {
            let udp_len = get_u16(b, hl + 4);
            let src = Endpoint { ip: get_u32(b, 12), port: get_u16(b, hl as int) };
            let dst = Endpoint { ip: get_u32(b, 16), port: get_u16(b, hl + 2) };
            if udp_len < 8 || hl + udp_len > total {
                Err(FormatError::InvalidFormat)
            } else if get_u16(b, hl + 6) != 0 && fold(
                words_sum(
                    pseudo_header(src.ip, dst.ip, udp_len) + b.subrange(hl as int, hl + udp_len),
                ),
            ) != 0xffff {
                Err(FormatError::InvalidChecksum)
            } else if !passes(fsrc, src) || !passes(fdst, dst) {
                Ok(None)
            } else {
                Ok(
                    Some(
                        DatagramView {
                            src,
                            dst,
                            payload: b.subrange(hl + 8, hl + udp_len),
                        },
                    ),
                )
            }
        }
    }
}

proof fn lemma_fold_step(s: nat)
    requires
        s > 0xffff,
    ensures
        s % 65536 + s / 65536 < s,
{
}

/// The word sum of `b`, as a number.
fn sum_words(b: &[u8]) -> (r: u64)
    requires
        b@.len() <= 0x20000,
    ensures
        r == words_sum(b@),
{
    let mut acc: u64 = 0;
    let mut i: usize = 0;
    assert(b@.skip(0) =~= b@);
    while i < b.len()
        invariant
            i <= b@.len() <= 0x20000,
            words_sum(b@) == acc + words_sum(b@.skip(i as int)),
            acc <= 65536 * i,
        decreases b.len() - i,
    {
        let ghost rest = b@.skip(i as int);
        if i + 1 == b.len() {
            assert(rest.len() == 1 && rest[0] == b@[i as int]);
            acc = acc + (b[i] as u64) * 256;
            i = i + 1;
            assert(b@.skip(i as int) =~= Seq::<u8>::empty());
        } else {
            assert(rest[0] == b@[i as int] && rest[1] == b@[i + 1]);
            assert(rest.skip(2) =~= b@.skip(i + 2));
            acc = acc + (b[i] as u64) * 256 + (b[i + 1] as u64);
            i = i + 2;
        }
    }
    assert(b@.skip(i as int) =~= Seq::<u8>::empty());
    acc
}

fn fold_sum(s: u64) -> (r: u16)
    ensures
        r == fold(s as nat),
{
    let mut x: u64 = s;
    while x > 0xffff
        invariant
            fold(x as nat) == fold(s as nat),
        decreases x,
    {
        proof {
            lemma_fold_step(x as nat);
        }
        x = x % 65536 + x / 65536;
    }
    x as u16
}

/// The Internet checksum of `b`.
pub fn internet_checksum(b: &[u8]) -> (r: u16)
    requires
        b@.len() <= 0x20000,
    ensures
        r == checksum(b@),
{
    let f = fold_sum(sum_words(b));
    0xffff - f
}

fn ip_header_vec(src: u32, dst: u32, total: u16, ck: u16) -> (r: Vec<u8>)
    ensures
        r@ == ip_header(src, dst, total, ck),
{
    let mut v: Vec<u8> = Vec::new();
    v.push(0x45);
    v.push(0);
    push_u16(&mut v, total);
    v.push(0);
    v.push(0);
    v.push(0);
    v.push(0);
    v.push(DEFAULT_TTL);
    v.push(PROTO_UDP);
    push_u16(&mut v, ck);
    push_u32(&mut v, src);
    push_u32(&mut v, dst);
    assert(v@ =~= ip_header(src, dst, total, ck));
    v
}

fn udp_header_vec(src: Endpoint, dst: Endpoint, len: u16, ck: u16) -> (r: Vec<u8>)
    ensures
        r@ == udp_header(src, dst, len, ck),
{
    let mut v: Vec<u8> = Vec::new();
    push_u16(&mut v, src.port);
    push_u16(&mut v, dst.port);
    push_u16(&mut v, len);
    push_u16(&mut v, ck);
    assert(v@ =~= udp_header(src, dst, len, ck));
    v
}

fn pseudo_header_vec(src: u32, dst: u32, udp_len: u16) -> (r: Vec<u8>)
    ensures
        r@ == pseudo_header(src, dst, udp_len),
{
    let mut v: Vec<u8> = Vec::new();
    push_u32(&mut v, src);
    push_u32(&mut v, dst);
    v.push(0);
    v.push(PROTO_UDP);
    push_u16(&mut v, udp_len);
    assert(v@ =~= pseudo_header(src, dst, udp_len));
    v
}

/// Wraps `payload` in UDP and IPv4 headers, with both checksums. Refused
/// when the packet would exceed `max_len` bytes or the IPv4 size limit.
pub fn ip_udp_encode(src: Endpoint, dst: Endpoint, payload: &[u8], max_len: usize) -> (r: Result<
    Vec<u8>,
    FormatError,
>)
    ensures
        payload@.len() + 28 <= MAX_DATAGRAM && payload@.len() + 28 <= max_len ==> (r matches Ok(v)
            && v@ == ip_udp_packet(src, dst, payload@)),
        !(payload@.len() + 28 <= MAX_DATAGRAM && payload@.len() + 28 <= max_len) ==> r == Err::<
            Vec<u8>,
            FormatError,
        >(FormatError::BufferOverflow),
{
    if payload.len() > MAX_DATAGRAM - 28 || payload.len() + 28 > max_len {
        return Err(FormatError::BufferOverflow);
    }
    let total = (payload.len() + 28) as u16;
    let udp_len = (payload.len() + 8) as u16;
    let mut seg = pseudo_header_vec(src.ip, dst.ip, udp_len);
    let uh0 = udp_header_vec(src, dst, udp_len, 0);
    push_all(&mut seg, uh0.as_slice());
    push_all(&mut seg, payload);
    let c = internet_checksum(seg.as_slice());
    let uck = if c == 0 {
        0xffff
    } else {
        c
    };
    let ih0 = ip_header_vec(src.ip, dst.ip, total, 0);
    let ick = internet_checksum(ih0.as_slice());
    let mut out = ip_header_vec(src.ip, dst.ip, total, ick);
    let uh = udp_header_vec(src, dst, udp_len, uck);
    push_all(&mut out, uh.as_slice());
    push_all(&mut out, payload);
    Ok(out)
}

fn passes_exec(filter: Option<Endpoint>, e: Endpoint) -> (r: bool)
    ensures
        r == passes(filter, e),
{
    match filter {
        Some(f) => (f.ip == 0 || f.ip == e.ip) && (f.port == 0 || f.port == e.port),
        None => true,
    }
}

/// Reads an IPv4 packet and takes out the UDP datagram it carries, when it
/// carries one that passes both filters.
pub fn ip_udp_decode(b: &[u8], filter_src: Option<Endpoint>, filter_dst: Option<Endpoint>) -> (r:
    Result<Option<Datagram>, FormatError>)
    ensures
        match r {
            Ok(Some(d)) => parse_ip_udp(b@, filter_src, filter_dst) == Ok::<
                Option<DatagramView>,
                FormatError,
            >(Some(d@)),
            Ok(None) => parse_ip_udp(b@, filter_src, filter_dst) == Ok::<
                Option<DatagramView>,
                FormatError,
            >(None),
            Err(e) => parse_ip_udp(b@, filter_src, filter_dst) == Err::<Option<DatagramView>, FormatError>(
                e,
            ),
        },
{
    if b.len() < IP_HEADER_LEN {
        return Err(FormatError::InvalidFormat);
    }
    if b[0] / 16 != 4 {
        return Ok(None);
    }
    let hl = ((b[0] % 16) as usize) * 4;
    let total = read_u16(b, 2) as usize;
    if hl < IP_HEADER_LEN || total > b.len() || total < hl + 8 {
        return Err(FormatError::InvalidFormat);
    }
    let hdr = copy_range(b, 0, hl);
    if fold_sum(sum_words(hdr.as_slice())) != 0xffff {
        return Err(FormatError::InvalidChecksum);
    }
    if b[9] != PROTO_UDP {
        return Ok(None);
    }
    let udp_len = read_u16(b, hl + 4);
    let src = Endpoint { ip: read_u32(b, 12), port: read_u16(b, hl) };
    let dst = Endpoint { ip: read_u32(b, 16), port: read_u16(b, hl + 2) };
    if udp_len < 8 || hl + (udp_len as usize) > total {
        return Err(FormatError::InvalidFormat);
    }
    let end = hl + udp_len as usize;
    if read_u16(b, hl + 6) != 0 {
        let mut seg = pseudo_header_vec(src.ip, dst.ip, udp_len);
        let body = copy_range(b, hl, end);
        push_all(&mut seg, body.as_slice());
        assert(seg@ == pseudo_header(src.ip, dst.ip, udp_len) + b@.subrange(hl as int, end as int));
        if fold_sum(sum_words(seg.as_slice())) != 0xffff {
            return Err(FormatError::InvalidChecksum);
        }
    }
    if !passes_exec(filter_src, src) || !passes_exec(filter_dst, dst) {
        return Ok(None);
    }
    let payload = copy_range(b, hl + 8, end);
    Ok(Some(Datagram { src, dst, payload }))
}

/// Size of the scratch frame that the adapter encodes into and receives into.
pub const FRAME_LEN: usize = 1500;

/// A socket address as a socket factory hands it over.
#[derive(Clone, Copy, Debug, PartialEq, Eq, Structural)]
pub enum SocketAddr {
    V4(Endpoint),
    V6 { ip: u128, port: u16 },
}

/// An error of the raw adapter: the link-layer socket's own, an address that
/// is not IPv4, or a frame that could not be built or read.
#[derive(Debug)]
pub enum Error<E> {
    Io(E),
    UnsupportedProtocol,
    RawError(FormatError),
}

impl<E> From<FormatError> for Error<E> {
    fn from(value: FormatError) -> (r: Error<E>) {
        Error::RawError(value)
    }
}

impl<E> vstd::std_specs::convert::FromSpecImpl<FormatError> for Error<E> {
    open spec fn obeys_from_spec() -> bool {
        true
    }

    open spec fn from_spec(v: FormatError) -> Error<E> {
        Error::RawError(v)
    }
}

/// A UDP stack over a raw socket factory `T` bound to the interface `I`.
pub struct Udp2RawStack<T, I>(pub T, pub I);

impl<T, I> Udp2RawStack<T, I> {
    pub fn new(stack: T, interface: I) -> (r: Udp2RawStack<T, I>)
        ensures
            r.0 == stack,
            r.1 == interface,
    {
        Udp2RawStack(stack, interface)
    }
}

/// The IPv4 endpoint of an address; others are refused.
pub fn v4_endpoint<E>(a: SocketAddr) -> (r: Result<Endpoint, Error<E>>)
    ensures
        a matches SocketAddr::V4(e) ==> r matches Ok(x) && x == e,
        !(a is V4) ==> r matches Err(Error::UnsupportedProtocol),
{
    match a {
        SocketAddr::V4(e) => Ok(e),
        SocketAddr::V6 { .. } => Err(Error::UnsupportedProtocol),
    }
}

/// The frame that sends `data` from `local` to `remote`: both must be IPv4,
/// and the frame must fit in the scratch buffer.
pub fn frame_for_send<E>(local: SocketAddr, remote: SocketAddr, data: &[u8]) -> (r: Result<
    Vec<u8>,
    Error<E>,
>)
    ensures
        match (local, remote) {
            (SocketAddr::V4(l), SocketAddr::V4(m)) => if data@.len() + 28 <= FRAME_LEN {
                r matches Ok(v) && v@ == ip_udp_packet(l, m, data@)
            } else {
                r matches Err(Error::RawError(FormatError::BufferOverflow))
            },
            _ => r matches Err(Error::UnsupportedProtocol),
        },
{
    let l = match v4_endpoint(local) {
        Ok(e) => e,
        Err(e) => {
            return Err(e);
        },
    };
    let m = match v4_endpoint(remote) {
        Ok(e) => e,
        Err(e) => {
            return Err(e);
        },
    };
    match ip_udp_encode(l, m, data, FRAME_LEN) {
        Ok(v) => Ok(v),
        Err(e) => Err(Error::RawError(e)),
    }
}

/// What the receive loop does with one frame: deliver its payload into a
/// buffer of `buf_len` bytes, skip it (`Ok(None)`: not for us, malformed,
/// or a bad checksum), or fail because the payload does not fit.
pub fn accept_frame<E>(
    frame: &[u8],
    filter_src: Option<Endpoint>,
    filter_dst: Option<Endpoint>,
    buf_len: usize,
) -> (r: Result<Option<Datagram>, Error<E>>)
    ensures
        match parse_ip_udp(frame@, filter_src, filter_dst) {
            Ok(Some(d)) => if d.payload.len() <= buf_len {
                r matches Ok(Some(x)) && x@ == d
            } else {
                r matches Err(Error::RawError(FormatError::BufferOverflow))
            },
            _ => r matches Ok(None),
        },
{
    match ip_udp_decode(frame, filter_src, filter_dst) {
        Ok(Some(d)) => {
            if d.payload.len() <= buf_len {
                Ok(Some(d))
            } else {
                Err(Error::RawError(FormatError::BufferOverflow))
            }
        },
        _ => Ok(None),
    }
}

proof fn lemma_words_sum_append(a: Seq<u8>, b: Seq<u8>)
    requires
        a.len() % 2 == 0,
    ensures
        words_sum(a + b) == words_sum(a) + words_sum(b),
    decreases a.len(),
{
    if a.len() == 0 {
        assert(a + b =~= b);
    } else {
        assert((a + b).skip(2) =~= a.skip(2) + b);
        lemma_words_sum_append(a.skip(2), b);
    }
}

proof fn lemma_words_sum_be16(x: u16)
    ensures
        words_sum(be16(x)) == x,
{
    let b = be16(x);
    assert(b.skip(2) =~= Seq::<u8>::empty());
    assert(words_sum(b.skip(2)) == 0);
    assert(x >> 8u16 == x / 256u16) by (bit_vector);
    assert(x as u8 == (x % 256u16) as u8) by (bit_vector);
    assert(b[0] as nat == x / 256);
    assert(b[1] as nat == x % 256);
}

proof fn lemma_fold(x: nat)
    ensures
        fold(x) <= 0xffff,
        fold(x) % 65535 == x % 65535,
        x > 0 ==> fold(x) > 0,
    decreases x,
{
    if x > 0xffff {
        let q = x / 65536;
        let r = x % 65536;
        assert(x == 65536 * q + r);
        assert(q >= 1);
        assert((65536 * q + r) % 65535 == (q + r) % 65535) by (nonlinear_arith)
            requires
                q >= 0,
                r >= 0,
        {
            assert(65536 * q + r == 65535 * q + (q + r));
            vstd::arithmetic::div_mod::lemma_mod_multiples_vanish(q as int, (q + r) as int, 65535);
        }
        lemma_fold_step(x);
        lemma_fold((r + q) as nat);
    }
}

/// A sum with its checksum added folds to all ones.
proof fn lemma_checksum_closes(s: nat)
    ensures
        fold((s + (0xffff - fold(s))) as nat) == 0xffff,
{
    lemma_fold(s);
    let t = (s + (0xffff - fold(s))) as nat;
    lemma_fold(t);
    if s == 0 {
        assert(fold(0) == 0);
        assert(t == 0xffff);
    } else {
        assert(t % 65535 == 0) by (nonlinear_arith)
            requires
                t == s + 0xffff - fold(s),
                fold(s) % 65535 == s % 65535,
                fold(s) <= 0xffff,
        {
            vstd::arithmetic::div_mod::lemma_fundamental_div_mod(s as int, 65535);
            vstd::arithmetic::div_mod::lemma_fundamental_div_mod(fold(s) as int, 65535);
            vstd::arithmetic::div_mod::lemma_mod_multiples_vanish(
                (s as int) / 65535 - (fold(s) as int) / 65535 + 1,
                0,
                65535,
            );
        }
    }
}

/// A sum that already folds to all ones still does with 0xffff added.
proof fn lemma_checksum_ones(s: nat)
    requires
        fold(s) == 0xffff,
    ensures
        fold((s + 0xffff) as nat) == 0xffff,
{
    lemma_fold(s);
    let t = (s + 0xffff) as nat;
    lemma_fold(t);
    assert(t % 65535 == s % 65535) by {
        vstd::arithmetic::div_mod::lemma_mod_add_multiples_vanish(s as int, 65535);
    }
}

/// The IPv4 header with its checksum sums to all ones.
proof fn lemma_ip_header_closes(src: u32, dst: u32, total: u16)
    ensures
        fold(words_sum(ip_header(src, dst, total, checksum(ip_header(src, dst, total, 0)))))
            == 0xffff,
{
    let h0 = ip_header(src, dst, total, 0);
    let ick = checksum(h0);
    let h = ip_header(src, dst, total, ick);
    let h1 = seq![0x45u8, 0u8] + be16(total) + seq![0u8, 0u8, 0u8, 0u8, DEFAULT_TTL, PROTO_UDP];
    let h2 = be32(src) + be32(dst);
    assert(h =~= h1 + (be16(ick) + h2));
    assert(h0 =~= h1 + (be16(0) + h2));
    lemma_words_sum_append(h1, be16(ick) + h2);
    lemma_words_sum_append(be16(ick), h2);
    lemma_words_sum_append(h1, be16(0) + h2);
    lemma_words_sum_append(be16(0), h2);
    lemma_words_sum_be16(ick);
    lemma_words_sum_be16(0);
    lemma_fold(words_sum(h0));
    assert(words_sum(h) == words_sum(h0) + ick);
    lemma_checksum_closes(words_sum(h0));
}

/// The UDP segment with its pseudo-header and checksum sums to all ones.
proof fn lemma_udp_closes(src: Endpoint, dst: Endpoint, payload: Seq<u8>)
    ensures
        fold(
            words_sum(
                pseudo_header(src.ip, dst.ip, (payload.len() + 8) as u16) + (udp_header(
                    src,
                    dst,
                    (payload.len() + 8) as u16,
                    udp_checksum(src, dst, payload),
                ) + payload),
            ),
        ) == 0xffff,
{
    let len = (payload.len() + 8) as u16;
    let uck = udp_checksum(src, dst, payload);
    let ph = pseudo_header(src.ip, dst.ip, len);
    let u1 = be16(src.port) + be16(dst.port) + be16(len);
    let uh = udp_header(src, dst, len, uck);
    let uh0 = udp_header(src, dst, len, 0);
    assert(uh =~= u1 + be16(uck));
    assert(uh0 =~= u1 + be16(0));
    let seg0 = ph + uh0 + payload;
    let seg = ph + uh + payload;
    assert(ph + (uh + payload) =~= seg);
    lemma_words_sum_append(ph + uh0, payload);
    lemma_words_sum_append(ph, uh0);
    lemma_words_sum_append(u1, be16(0));
    lemma_words_sum_append(ph + uh, payload);
    lemma_words_sum_append(ph, uh);
    lemma_words_sum_append(u1, be16(uck));
    lemma_words_sum_be16(uck);
    lemma_words_sum_be16(0);
    assert(words_sum(seg) == words_sum(seg0) + uck);
    let s0 = words_sum(seg0);
    lemma_fold(s0);
    if checksum(seg0) == 0 {
        assert(fold(s0) == 0xffff);
        lemma_checksum_ones(s0);
    } else {
        lemma_checksum_closes(s0);
    }
}

/// Every frame that `ip_udp_encode` builds reads back, through both
/// checksum checks, as the same endpoints and payload.
#[verifier::rlimit(40)]
pub proof fn lemma_ip_udp_round_trip(src: Endpoint, dst: Endpoint, payload: Seq<u8>)
    requires
        payload.len() + 28 <= MAX_DATAGRAM,
    ensures
        parse_ip_udp(ip_udp_packet(src, dst, payload), None, None) == Ok::<
            Option<DatagramView>,
            FormatError,
        >(Some(DatagramView { src, dst, payload })),
{
    let total = (payload.len() + 28) as u16;
    let len = (payload.len() + 8) as u16;
    let h = ip_header(src.ip, dst.ip, total, checksum(ip_header(src.ip, dst.ip, total, 0)));
    let uck = udp_checksum(src, dst, payload);
    let uh = udp_header(src, dst, len, uck);
    let b = ip_udp_packet(src, dst, payload);
    assert(b =~= h + uh + payload);
    lemma_ip_header_closes(src.ip, dst.ip, total);
    lemma_udp_closes(src, dst, payload);
    assert(b.subrange(0, 20) =~= h);
    assert(b.subrange(20, 20 + len) =~= uh + payload);
    lemma_be16_roundtrip(total);
    lemma_be16_roundtrip(len);
    lemma_be16_roundtrip(src.port);
    lemma_be16_roundtrip(dst.port);
    lemma_be16_roundtrip(uck);
    lemma_be32_roundtrip(src.ip);
    lemma_be32_roundtrip(dst.ip);
    assert(b.subrange(2, 4) =~= be16(total));
    assert(get_u16(b, 2) == get_u16(b.subrange(2, 4), 0));
    assert(b.subrange(12, 16) =~= be32(src.ip));
    assert(get_u32(b, 12) == get_u32(b.subrange(12, 16), 0));
    assert(b.subrange(16, 20) =~= be32(dst.ip));
    assert(get_u32(b, 16) == get_u32(b.subrange(16, 20), 0));
    assert(b.subrange(20, 22) =~= be16(src.port));
    assert(get_u16(b, 20) == get_u16(b.subrange(20, 22), 0));
    assert(b.subrange(22, 24) =~= be16(dst.port));
    assert(get_u16(b, 22) == get_u16(b.subrange(22, 24), 0));
    assert(b.subrange(24, 26) =~= be16(len));
    assert(get_u16(b, 24) == get_u16(b.subrange(24, 26), 0));
    assert(b.subrange(26, 28) =~= be16(uck));
    assert(get_u16(b, 26) == get_u16(b.subrange(26, 28), 0));
    assert(b[0] == 0x45u8 && b[9] == PROTO_UDP);
    assert(b.subrange(28, 20 + len) =~= payload);
}
} // verus!
