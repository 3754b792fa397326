//! BOOTP/DHCP wire format: a fixed 236-byte header, the magic cookie and a
//! stream of type-length-value options.
use vstd::prelude::*;

use crate::error::FormatError;

verus! {

pub const OP_BOOT_REQUEST: u8 = 1;
pub const OP_BOOT_REPLY: u8 = 2;

pub const OPT_PAD: u8 = 0;
pub const OPT_SUBNET_MASK: u8 = 1;
pub const OPT_ROUTER: u8 = 3;
pub const OPT_DNS: u8 = 6;
pub const OPT_HOST_NAME: u8 = 12;
pub const OPT_DOMAIN_NAME: u8 = 15;
pub const OPT_REQUESTED_IP: u8 = 50;
pub const OPT_LEASE_TIME: u8 = 51;
pub const OPT_MESSAGE_TYPE: u8 = 53;
pub const OPT_SERVER_IDENTIFIER: u8 = 54;
pub const OPT_PARAMETER_REQUEST_LIST: u8 = 55;
pub const OPT_MAX_MESSAGE_SIZE: u8 = 57;
pub const OPT_RENEWAL_T1: u8 = 58;
pub const OPT_REBINDING_T2: u8 = 59;
pub const OPT_CLIENT_IDENTIFIER: u8 = 61;
pub const OPT_END: u8 = 255;

/// Offset of the first option: the header followed by the 4-byte cookie.
pub const OPTIONS_OFFSET: usize = 240;

pub const CHADDR_LEN: usize = 16;
pub const SNAME_LEN: usize = 64;
pub const FILE_LEN: usize = 128;

/// One option as carried on the wire: its code and its raw value bytes.
pub struct DhcpOption {
    pub code: u8,
    pub data: Vec<u8>,
}

impl View for DhcpOption {
    type V = (u8, Seq<u8>);

    open spec fn view(&self) -> (u8, Seq<u8>) {
        (self.code, self.data@)
    }
}

/// A decoded BOOTP frame together with its options, in wire order.
pub struct Packet {
    pub op: u8,
    pub htype: u8,
    pub hlen: u8,
    pub hops: u8,
    pub xid: u32,
    pub secs: u16,
    pub flags: u16,
    pub ciaddr: u32,
    pub yiaddr: u32,
    pub siaddr: u32,
    pub giaddr: u32,
    pub chaddr: Vec<u8>,
    pub sname: Vec<u8>,
    pub file: Vec<u8>,
    pub options: Vec<DhcpOption>,
}

/// The mathematical content of a [`Packet`].
pub struct PacketView {
    pub op: u8,
    pub htype: u8,
    pub hlen: u8,
    pub hops: u8,
    pub xid: u32,
    pub secs: u16,
    pub flags: u16,
    pub ciaddr: u32,
    pub yiaddr: u32,
    pub siaddr: u32,
    pub giaddr: u32,
    pub chaddr: Seq<u8>,
    pub sname: Seq<u8>,
    pub file: Seq<u8>,
    pub options: Seq<(u8, Seq<u8>)>,
}

pub open spec fn options_view(os: Seq<DhcpOption>) -> Seq<(u8, Seq<u8>)> {
    os.map_values(|o: DhcpOption| o@)
}

impl View for Packet {
    type V = PacketView;

    open spec fn view(&self) -> PacketView {
        PacketView {
            op: self.op,
            htype: self.htype,
            hlen: self.hlen,
            hops: self.hops,
            xid: self.xid,
            secs: self.secs,
            flags: self.flags,
            ciaddr: self.ciaddr,
            yiaddr: self.yiaddr,
            siaddr: self.siaddr,
            giaddr: self.giaddr,
            chaddr: self.chaddr@,
            sname: self.sname@,
            file: self.file@,
            options: options_view(self.options@),
        }
    }
}

pub open spec fn cookie() -> Seq<u8> {
    seq![0x63u8, 0x82u8, 0x53u8, 0x63u8]
}

/// Big-endian bytes of a 32-bit value.
pub open spec fn be32(x: u32) -> Seq<u8> {
    seq![(x >> 24u32) as u8, (x >> 16u32) as u8, (x >> 8u32) as u8, x as u8]
}

/// Big-endian bytes of a 16-bit value.
pub open spec fn be16(x: u16) -> Seq<u8> {
    seq![(x >> 8u16) as u8, x as u8]
}

/// The 32-bit value stored big-endian at `b[i..i + 4]`.
pub open spec fn get_u32(b: Seq<u8>, i: int) -> u32 {
    ((b[i] as u32) << 24u32) | ((b[i + 1] as u32) << 16u32) | ((b[i + 2] as u32) << 8u32) | (
    b[i + 3] as u32)
}

/// The 16-bit value stored big-endian at `b[i..i + 2]`.
pub open spec fn get_u16(b: Seq<u8>, i: int) -> u16 {
    ((b[i] as u16) << 8u16) | (b[i + 1] as u16)
}

/// An option that can be written as one TLV: neither Pad nor End, and a value
/// whose length fits in the length byte.
pub open spec fn option_encodable(o: (u8, Seq<u8>)) -> bool {
    o.0 != OPT_PAD && o.0 != OPT_END && o.1.len() <= 255
}

pub open spec fn options_encodable(os: Seq<(u8, Seq<u8>)>) -> bool {
    forall|i: int| 0 <= i < os.len() ==> #[trigger] option_encodable(os[i])
}

impl PacketView {
    /// The packet can be written on the wire and read back unchanged.
    pub open spec fn well_formed(self) -> bool {
        &&& self.hlen <= 16
        &&& self.chaddr.len() == CHADDR_LEN
        &&& self.sname.len() == SNAME_LEN
        &&& self.file.len() == FILE_LEN
        &&& options_encodable(self.options)
    }
}

pub open spec fn tlv(o: (u8, Seq<u8>)) -> Seq<u8> {
    seq![o.0, o.1.len() as u8] + o.1
}

/// The options written one after the other, without the End marker.
pub open spec fn options_body(os: Seq<(u8, Seq<u8>)>) -> Seq<u8>
    decreases os.len(),
{
    if os.len() == 0 {
        seq![]
    } else {
        options_body(os.drop_last()) + tlv(os.last())
    }
}

/// The fixed header, through the magic cookie.
pub open spec fn header_bytes(p: PacketView) -> Seq<u8> {
    seq![p.op, p.htype, p.hlen, p.hops] + be32(p.xid) + be16(p.secs) + be16(p.flags) + be32(
        p.ciaddr,
    ) + be32(p.yiaddr) + be32(p.siaddr) + be32(p.giaddr) + p.chaddr + p.sname + p.file + cookie()
}

/// The complete encoding of a packet: header, cookie, options, End.
pub open spec fn encoding(p: PacketView) -> Seq<u8> {
    header_bytes(p) + options_body(p.options) + seq![OPT_END]
}

/// Reading the option stream: Pad is skipped, End or the end of the buffer
/// stops, a truncated option fails.
pub open spec fn parse_options(b: Seq<u8>) -> Option<Seq<(u8, Seq<u8>)>>
    decreases b.len(),
{
    if b.len() == 0 {
        Some(seq![])
    } else if b[0] == OPT_END {
        Some(seq![])
    } else if b[0] == OPT_PAD {
        parse_options(b.drop_first())
    } else if b.len() < 2 || b.len() < 2 + b[1] {
        None
    } else {
        match parse_options(b.skip(2 + b[1])) {
            Some(rest) => Some(seq![(b[0], b.subrange(2, 2 + b[1]))] + rest),
            None => None,
        }
    }
}

pub open spec fn prepend(
    acc: Seq<(u8, Seq<u8>)>,
    o: Option<Seq<(u8, Seq<u8>)>>,
) -> Option<Seq<(u8, Seq<u8>)>> {
    match o {
        Some(r) => Some(acc + r),
        None => None,
    }
}

pub open spec fn header_valid(b: Seq<u8>) -> bool {
    &&& b.len() >= OPTIONS_OFFSET
    &&& b[2] <= 16
    &&& b.subrange(236, 240) == cookie()
}

/// The packet that a buffer holds, if it holds one.
pub open spec fn parse_packet(b: Seq<u8>) -> Option<PacketView> {
    if !header_valid(b) {
        None
    } else {
        match parse_options(b.skip(240)) {
            Some(options) => Some(
                PacketView {
                    op: b[0],
                    htype: b[1],
                    hlen: b[2],
                    hops: b[3],
                    xid: get_u32(b, 4),
                    secs: get_u16(b, 8),
                    flags: get_u16(b, 10),
                    ciaddr: get_u32(b, 12),
                    yiaddr: get_u32(b, 16),
                    siaddr: get_u32(b, 20),
                    giaddr: get_u32(b, 24),
                    chaddr: b.subrange(28, 44),
                    sname: b.subrange(44, 108),
                    file: b.subrange(108, 236),
                    options,
                },
            ),
            None => None,
        }
    }
}

/// The value of the first option with this code.
pub open spec fn lookup_option(os: Seq<(u8, Seq<u8>)>, code: u8) -> Option<Seq<u8>>
    decreases os.len(),
{
    if os.len() == 0 {
        None
    } else if os[0].0 == code {
        Some(os[0].1)
    } else {
        lookup_option(os.drop_first(), code)
    }
}

/// The first option with this code, read as an IPv4 address or a 32-bit number.
pub open spec fn option_u32(os: Seq<(u8, Seq<u8>)>, code: u8) -> Option<u32> {
    match lookup_option(os, code) {
        Some(d) => if d.len() >= 4 {
            Some(get_u32(d, 0))
        } else {
            None
        },
        None => None,
    }
}

/// The DHCP message type carried by option 53.
pub open spec fn message_type(os: Seq<(u8, Seq<u8>)>) -> Option<u8> {
    match lookup_option(os, OPT_MESSAGE_TYPE) {
        Some(d) => if d.len() >= 1 {
            Some(d[0])
        } else {
            None
        },
        None => None,
    }
}

pub(crate) proof fn lemma_be32_roundtrip(x: u32)
    ensures
        get_u32(be32(x), 0) == x,
{
    let b = be32(x);
    let (b0, b1, b2, b3) = ((x >> 24u32) as u8, (x >> 16u32) as u8, (x >> 8u32) as u8, x as u8);
    assert(b[0] == b0 && b[1] == b1 && b[2] == b2 && b[3] == b3);
    assert(((b0 as u32) << 24u32) | ((b1 as u32) << 16u32) | ((b2 as u32) << 8u32) | (b3 as u32)
        == x) by (bit_vector)
        requires
            b0 == (x >> 24u32) as u8,
            b1 == (x >> 16u32) as u8,
            b2 == (x >> 8u32) as u8,
            b3 == x as u8,
    ;
}

pub(crate) proof fn lemma_be16_roundtrip(x: u16)
    ensures
        get_u16(be16(x), 0) == x,
{
    let b = be16(x);
    let (b0, b1) = ((x >> 8u16) as u8, x as u8);
    assert(b[0] == b0 && b[1] == b1);
    assert(((b0 as u16) << 8u16) | (b1 as u16) == x) by (bit_vector)
        requires
            b0 == (x >> 8u16) as u8,
            b1 == x as u8,
    ;
}

/// The options body read from the front: the first TLV, then the rest.
proof fn lemma_options_body_front(os: Seq<(u8, Seq<u8>)>)
    requires
        os.len() > 0,
    ensures
        options_body(os) == tlv(os[0]) + options_body(os.drop_first()),
    decreases os.len(),
{
    if os.len() == 1 {
        assert(os.drop_last() =~= seq![]);
        assert(os.drop_first() =~= seq![]);
        assert(options_body(os) =~= tlv(os[0]) + options_body(os.drop_first()));
    } else {
        lemma_options_body_front(os.drop_last());
        assert(os.drop_last().drop_first() =~= os.drop_first().drop_last());
        assert(os.drop_first().last() == os.last());
        assert(options_body(os.drop_first()) == options_body(os.drop_first().drop_last()) + tlv(
            os.last(),
        ));
        assert(options_body(os) =~= tlv(os[0]) + options_body(os.drop_first()));
    }
}

/// Written options, followed by End, read back as the same options.
proof fn lemma_parse_options_body(os: Seq<(u8, Seq<u8>)>, tail: Seq<u8>)
    requires
        options_encodable(os),
    ensures
        parse_options(options_body(os) + seq![OPT_END] + tail) == Some(os),
    decreases os.len(),
{
    let b = options_body(os) + seq![OPT_END] + tail;
    if os.len() == 0 {
        assert(b[0] == OPT_END);
        assert(os =~= seq![]);
    } else {
        lemma_options_body_front(os);
        let o = os[0];
        assert(option_encodable(o));
        let rest = os.drop_first();
        assert(options_encodable(rest)) by {
            assert forall|i: int| 0 <= i < rest.len() implies #[trigger] option_encodable(
                rest[i],
            ) by {
                assert(option_encodable(os[i + 1]));
            }
        }
        lemma_parse_options_body(rest, tail);
        let n = o.1.len();
        assert(b =~= seq![o.0, n as u8] + o.1 + (options_body(rest) + seq![OPT_END] + tail));
        assert(b[0] == o.0);
        assert(b[1] == n as u8);
        assert((n as u8) as int == n);
        assert(b.skip(2 + b[1]) =~= options_body(rest) + seq![OPT_END] + tail);
        assert(b.subrange(2, 2 + b[1]) =~= o.1);
        assert(seq![(b[0], b.subrange(2, 2 + b[1]))] + rest =~= os);
    }
}

/// Encoding a well-formed packet and decoding the bytes gives the packet back.
pub proof fn lemma_codec_round_trip(p: PacketView)
    requires
        p.well_formed(),
    ensures
        parse_packet(encoding(p)) == Some(p),
{
    let b = encoding(p);
    let h = header_bytes(p);
    let fixed = seq![p.op, p.htype, p.hlen, p.hops] + be32(p.xid) + be16(p.secs) + be16(p.flags)
        + be32(p.ciaddr) + be32(p.yiaddr) + be32(p.siaddr) + be32(p.giaddr);
    assert(fixed.len() == 28);
    assert(h =~= fixed + p.chaddr + p.sname + p.file + cookie());
    assert(h.len() == 240);
    lemma_parse_options_body(p.options, seq![]);
    assert(b.skip(240) =~= options_body(p.options) + seq![OPT_END] + seq![]);
    assert(b.subrange(236, 240) =~= cookie());
    assert(b.subrange(28, 44) =~= p.chaddr);
    assert(b.subrange(44, 108) =~= p.sname);
    assert(b.subrange(108, 236) =~= p.file);
    lemma_be32_roundtrip(p.xid);
    lemma_be32_roundtrip(p.ciaddr);
    lemma_be32_roundtrip(p.yiaddr);
    lemma_be32_roundtrip(p.siaddr);
    lemma_be32_roundtrip(p.giaddr);
    lemma_be16_roundtrip(p.secs);
    lemma_be16_roundtrip(p.flags);
    assert(b.subrange(4, 8) =~= be32(p.xid));
    assert(b.subrange(8, 10) =~= be16(p.secs));
    assert(b.subrange(10, 12) =~= be16(p.flags));
    assert(b.subrange(12, 16) =~= be32(p.ciaddr));
    assert(b.subrange(16, 20) =~= be32(p.yiaddr));
    assert(b.subrange(20, 24) =~= be32(p.siaddr));
    assert(b.subrange(24, 28) =~= be32(p.giaddr));
    assert(get_u32(b, 4) == get_u32(b.subrange(4, 8), 0));
    assert(get_u16(b, 8) == get_u16(b.subrange(8, 10), 0));
    assert(get_u16(b, 10) == get_u16(b.subrange(10, 12), 0));
    assert(get_u32(b, 12) == get_u32(b.subrange(12, 16), 0));
    assert(get_u32(b, 16) == get_u32(b.subrange(16, 20), 0));
    assert(get_u32(b, 20) == get_u32(b.subrange(20, 24), 0));
    assert(get_u32(b, 24) == get_u32(b.subrange(24, 28), 0));
}

pub(crate) fn read_u32(b: &[u8], i: usize) -> (r: u32)
    requires
        i + 4 <= b@.len(),
    ensures
        r == get_u32(b@, i as int),
{
    ((b[i] as u32) << 24u32) | ((b[i + 1] as u32) << 16u32) | ((b[i + 2] as u32) << 8u32) | (b[i
        + 3] as u32)
}

pub(crate) fn read_u16(b: &[u8], i: usize) -> (r: u16)
    requires
        i + 2 <= b@.len(),
    ensures
        r == get_u16(b@, i as int),
{
    ((b[i] as u16) << 8u16) | (b[i + 1] as u16)
}

/// A copy of `b[start..end]`.
pub fn copy_range(b: &[u8], start: usize, end: usize) -> (r: Vec<u8>)
    requires
        start <= end <= b@.len(),
    ensures
        r@ == b@.subrange(start as int, end as int),
{
    let mut r: Vec<u8> = Vec::with_capacity(end - start);
    let mut i: usize = start;
    while i < end
        invariant
            start <= i <= end <= b@.len(),
            r@ == b@.subrange(start as int, i as int),
        decreases end - i,
    {
        r.push(b[i]);
        i = i + 1;
        assert(r@ =~= b@.subrange(start as int, i as int));
    }
    r
}

pub(crate) fn push_u32(out: &mut Vec<u8>, x: u32)
    ensures
        final(out)@ == old(out)@ + be32(x),
{
    out.push((x >> 24u32) as u8);
    out.push((x >> 16u32) as u8);
    out.push((x >> 8u32) as u8);
    out.push(x as u8);
    assert(final(out)@ =~= old(out)@ + be32(x));
}

pub(crate) fn push_u16(out: &mut Vec<u8>, x: u16)
    ensures
        final(out)@ == old(out)@ + be16(x),
{
    out.push((x >> 8u16) as u8);
    out.push(x as u8);
    assert(final(out)@ =~= old(out)@ + be16(x));
}

pub(crate) fn push_all(out: &mut Vec<u8>, b: &[u8])
    ensures
        final(out)@ == old(out)@ + b@,
{
    let mut i: usize = 0;
    while i < b.len()
        invariant
            i <= b@.len(),
            out@ == old(out)@ + b@.subrange(0, i as int),
        decreases b.len() - i,
    {
        out.push(b[i]);
        i = i + 1;
        assert(out@ =~= old(out)@ + b@.subrange(0, i as int));
    }
    assert(b@.subrange(0, b@.len() as int) =~= b@);
}

impl Packet {
    /// Reads one packet from `b`.
    pub fn decode(b: &[u8]) -> (r: Result<Packet, FormatError>)
        ensures
            match r {
                Ok(p) => parse_packet(b@) == Some(p@),
                Err(e) => parse_packet(b@) is None && e == FormatError::InvalidFormat,
            },
    {
        if b.len() < OPTIONS_OFFSET || b[2] > 16 || b[236] != 0x63 || b[237] != 0x82 || b[238]
            != 0x53 || b[239] != 0x63 {
            proof {
                if b@.len() >= 240 && b@.subrange(236, 240) == cookie() {
                    assert(b@.subrange(236, 240)[0] == b@[236]);
                    assert(b@.subrange(236, 240)[1] == b@[237]);
                    assert(b@.subrange(236, 240)[2] == b@[238]);
                    assert(b@.subrange(236, 240)[3] == b@[239]);
                }
            }
            return Err(FormatError::InvalidFormat);
        }
        assert(b@.subrange(236, 240) =~= cookie());
        let ghost start = b@.skip(240);
        let mut options: Vec<DhcpOption> = Vec::new();
        let mut i: usize = OPTIONS_OFFSET;
        assert(options_view(options@) =~= seq![]);
        assert(b@.skip(240) =~= b@.skip(i as int));
        while i < b.len()
            invariant
                240 <= i <= b@.len(),
                start == b@.skip(240),
                parse_options(start) == prepend(
                    options_view(options@),
                    parse_options(b@.skip(i as int)),
                ),
            decreases b@.len() - i,
        {
            let code = b[i];
            let ghost rest = b@.skip(i as int);
            assert(rest[0] == code);
            if code == OPT_END {
                assert(b@.skip(b@.len() as int) =~= Seq::<u8>::empty());
                i = b.len();
            } else if code == OPT_PAD {
                assert(rest.drop_first() =~= b@.skip(i + 1));
                i = i + 1;
            } else {
                if i + 1 >= b.len() {
                    return Err(FormatError::InvalidFormat);
                }
                let len = b[i + 1] as usize;
                assert(rest[1] == len);
                if b.len() - (i + 2) < len {
                    return Err(FormatError::InvalidFormat);
                }
                let data = copy_range(b, i + 2, i + 2 + len);
                let ghost item = (code, data@);
                assert(rest.subrange(2, 2 + rest[1]) =~= data@);
                assert(rest.skip(2 + rest[1]) =~= b@.skip(i + 2 + len));
                let ghost before = options_view(options@);
                options.push(DhcpOption { code, data });
                assert(options_view(options@) =~= before.push(item));
                i = i + 2 + len;
                proof {
                    match parse_options(b@.skip(i as int)) {
                        Some(r) => {
                            assert(before + (seq![item] + r) =~= before.push(item) + r);
                        },
                        None => {},
                    }
                }
            }
        }
        proof {
            assert(b@.skip(i as int) =~= Seq::<u8>::empty());
            assert(options_view(options@) + Seq::<(u8, Seq<u8>)>::empty() =~= options_view(
                options@,
            ));
        }
        let p = Packet {
            op: b[0],
            htype: b[1],
            hlen: b[2],
            hops: b[3],
            xid: read_u32(b, 4),
            secs: read_u16(b, 8),
            flags: read_u16(b, 10),
            ciaddr: read_u32(b, 12),
            yiaddr: read_u32(b, 16),
            siaddr: read_u32(b, 20),
            giaddr: read_u32(b, 24),
            chaddr: copy_range(b, 28, 44),
            sname: copy_range(b, 44, 108),
            file: copy_range(b, 108, 236),
            options,
        };
        Ok(p)
    }

    /// Writes the packet: the header in network byte order, the cookie, the
    /// options in the order held, then End. The result is refused when it
    /// would not fit in `max_len` bytes.
    pub fn encode(&self, max_len: usize) -> (r: Result<Vec<u8>, FormatError>)
        ensures
            !self@.well_formed() ==> r == Err::<Vec<u8>, FormatError>(FormatError::InvalidFormat),
            self@.well_formed() && encoding(self@).len() > max_len ==> r == Err::<Vec<u8>, FormatError>(
                FormatError::BufferOverflow,
            ),
            self@.well_formed() && encoding(self@).len() <= max_len ==> (r matches Ok(v)
                && v@ == encoding(self@)),
    {
        if self.hlen > 16 || self.chaddr.len() != CHADDR_LEN || self.sname.len() != SNAME_LEN
            || self.file.len() != FILE_LEN {
            return Err(FormatError::InvalidFormat);
        }
        let mut out: Vec<u8> = Vec::new();
        out.push(self.op);
        out.push(self.htype);
        out.push(self.hlen);
        out.push(self.hops);
        push_u32(&mut out, self.xid);
        push_u16(&mut out, self.secs);
        push_u16(&mut out, self.flags);
        push_u32(&mut out, self.ciaddr);
        push_u32(&mut out, self.yiaddr);
        push_u32(&mut out, self.siaddr);
        push_u32(&mut out, self.giaddr);
        push_all(&mut out, self.chaddr.as_slice());
        push_all(&mut out, self.sname.as_slice());
        push_all(&mut out, self.file.as_slice());
        out.push(0x63);
        out.push(0x82);
        out.push(0x53);
        out.push(0x63);
        assert(out@ =~= header_bytes(self@));
        let ghost os = options_view(self.options@);
        let mut i: usize = 0;
        while i < self.options.len()
            invariant
                i <= self.options@.len(),
                os == options_view(self.options@),
                out@ == header_bytes(self@) + options_body(os.subrange(0, i as int)),
                options_encodable(os.subrange(0, i as int)),
            decreases self.options.len() - i,
        {
            let o = &self.options[i];
            if o.code == OPT_PAD || o.code == OPT_END || o.data.len() > 255 {
                proof {
                    assert(os[i as int] == o@);
                    assert(!option_encodable(os[i as int]));
                }
                return Err(FormatError::InvalidFormat);
            }
            out.push(o.code);
            out.push(o.data.len() as u8);
            push_all(&mut out, o.data.as_slice());
            proof {
                let s = os.subrange(0, i + 1);
                assert(s.drop_last() =~= os.subrange(0, i as int));
                assert(s.last() == o@);
                assert(out@ =~= header_bytes(self@) + options_body(s));
                assert forall|j: int| 0 <= j < s.len() implies #[trigger] option_encodable(
                    s[j],
                ) by {
                    if j < i {
                        assert(s[j] == os.subrange(0, i as int)[j]);
                    }
                }
            }
            i = i + 1;
        }
        out.push(OPT_END);
        assert(os.subrange(0, i as int) =~= os);
        assert(out@ =~= encoding(self@));
        if out.len() > max_len {
            return Err(FormatError::BufferOverflow);
        }
        Ok(out)
    }
}

proof fn lemma_parsed_options_encodable(b: Seq<u8>)
    requires
        parse_options(b) is Some,
    ensures
        options_encodable(parse_options(b)->0),
    decreases b.len(),
{
    if b.len() == 0 || b[0] == OPT_END {
    } else if b[0] == OPT_PAD {
        lemma_parsed_options_encodable(b.drop_first());
    } else {
        let rest = b.skip(2 + b[1]);
        lemma_parsed_options_encodable(rest);
        let os = parse_options(b)->0;
        let r = parse_options(rest)->0;
        assert forall|i: int| 0 <= i < os.len() implies #[trigger] option_encodable(os[i]) by {
            if i > 0 {
                assert(os[i] == r[i - 1]);
            }
        }
    }
}

/// Every packet read from the wire is well formed, and writing it again gives
/// bytes that read back as the same packet: options of codes this library does
/// not interpret are carried through, in their order.
pub proof fn lemma_reencode_keeps_options(b: Seq<u8>)
    requires
        parse_packet(b) is Some,
    ensures
        parse_packet(b)->0.well_formed(),
        parse_packet(encoding(parse_packet(b)->0)) == parse_packet(b),
{
    lemma_parsed_options_encodable(b.skip(240));
    let p = parse_packet(b)->0;
    lemma_codec_round_trip(p);
}

/// Index of the first option with this code.
pub fn find_option(os: &Vec<DhcpOption>, code: u8) -> (r: Option<usize>)
    ensures
        match r {
            Some(i) => i < os@.len() && lookup_option(options_view(os@), code) == Some(
                os@[i as int].data@,
            ) && os@[i as int].code == code,
            None => lookup_option(options_view(os@), code) is None,
        },
{
    let ghost v = options_view(os@);
    let mut i: usize = 0;
    assert(v.skip(0) =~= v);
    while i < os.len()
        invariant
            i <= os@.len(),
            v == options_view(os@),
            lookup_option(v, code) == lookup_option(v.skip(i as int), code),
        decreases os.len() - i,
    {
        assert(v.skip(i as int)[0] == os@[i as int]@);
        if os[i].code == code {
            return Some(i);
        }
        assert(v.skip(i as int).drop_first() =~= v.skip(i + 1));
        i = i + 1;
    }
    assert(v.skip(i as int) =~= Seq::<(u8, Seq<u8>)>::empty());
    None
}

impl Packet {
    /// The first option of this code read as a 32-bit big-endian value.
    pub fn option_u32(&self, code: u8) -> (r: Option<u32>)
        ensures
            r == option_u32(self@.options, code),
    {
        match find_option(&self.options, code) {
            Some(i) => {
                let d = &self.options[i].data;
                if d.len() >= 4 {
                    Some(read_u32(d.as_slice(), 0))
                } else {
                    None
                }
            },
            None => None,
        }
    }

    /// The DHCP message type, from option 53.
    pub fn message_type(&self) -> (r: Option<u8>)
        ensures
            r == message_type(self@.options),
    {
        match find_option(&self.options, OPT_MESSAGE_TYPE) {
            Some(i) => {
                let d = &self.options[i].data;
                if d.len() >= 1 {
                    Some(d[0])
                } else {
                    None
                }
            },
            None => None,
        }
    }
}

} // verus!
