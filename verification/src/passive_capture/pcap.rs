//! The PCAP container and the link, IP and TCP headers inside it.
use vstd::prelude::*;
use super::CaptureError;

verus! {

/// One captured packet: its time and the byte range of its data in the file.
#[derive(Clone, Copy)]
pub struct PcapPacket {
    pub timestamp_ms: u64,
    pub start: usize,
    pub len: usize,
}

/// Little-endian `u32` at `i`.
pub open spec fn le_u32(b: Seq<u8>, i: int) -> u32 {
    (b[i] + b[i + 1] * 256 + b[i + 2] * 65536 + b[i + 3] * 16777216) as u32
}

/// Big-endian `u32` at `i`.
pub open spec fn be_u32(b: Seq<u8>, i: int) -> u32 {
    (b[i] * 16777216 + b[i + 1] * 65536 + b[i + 2] * 256 + b[i + 3]) as u32
}

/// Big-endian `u16` at `i`.
pub open spec fn be_u16(b: Seq<u8>, i: int) -> u16 {
    (b[i] * 256 + b[i + 1]) as u16
}

pub open spec fn read_u32(b: Seq<u8>, i: int, little: bool) -> u32 {
    if little {
        le_u32(b, i)
    } else {
        be_u32(b, i)
    }
}

/// Byte order and timestamp resolution from the PCAP magic number:
/// `(little_endian, nanosecond_timestamps)`.
pub open spec fn pcap_format(b: Seq<u8>) -> Option<(bool, bool)> {
    if b[0] == 0xd4 && b[1] == 0xc3 && b[2] == 0xb2 && b[3] == 0xa1 {
        Some((true, false))
    } else if b[0] == 0xa1 && b[1] == 0xb2 && b[2] == 0xc3 && b[3] == 0xd4 {
        Some((false, false))
    } else if b[0] == 0x4d && b[1] == 0x3c && b[2] == 0xb2 && b[3] == 0xa1 {
        Some((true, true))
    } else if b[0] == 0xa1 && b[1] == 0xb2 && b[2] == 0x3c && b[3] == 0x4d {
        Some((false, true))
    } else {
        None
    }
}

/// The packet records from `offset` to the end of the file.
pub open spec fn packets_from(b: Seq<u8>, offset: int, little: bool, nanos: bool) -> Result<Seq<PcapPacket>, CaptureError>
    decreases b.len() - offset,
{
    if offset >= b.len() {
        Ok(Seq::empty())
    } else if b.len() - offset < 16 {
        Err(CaptureError::PacketHeaderIncomplete)
    } else {
        let seconds = read_u32(b, offset, little);
        let fraction = read_u32(b, offset + 4, little);
        let included = read_u32(b, offset + 8, little);
        let data = offset + 16;
        if included > b.len() - data {
            Err(CaptureError::PacketDataIncomplete)
        } else {
            let fraction_ms = if nanos { fraction / 1000000 } else { fraction / 1000 };
            let packet = PcapPacket {
                timestamp_ms: (seconds * 1000 + fraction_ms) as u64,
                start: data as usize,
                len: included as usize,
            };
            match packets_from(b, data + included, little, nanos) {
                Ok(rest) => Ok(seq![packet] + rest),
                Err(e) => Err(e),
            }
        }
    }
}

/// The packets of a PCAP file and its link type.
pub open spec fn parse_pcap_spec(b: Seq<u8>) -> Result<(Seq<PcapPacket>, u32), CaptureError> {
    if b.len() < 24 {
        Err(CaptureError::PcapHeaderIncomplete)
    } else {
        match pcap_format(b) {
            None => Err(CaptureError::UnsupportedMagic),
            Some((little, nanos)) => match packets_from(b, 24, little, nanos) {
                Ok(packets) => Ok((packets, read_u32(b, 20, little))),
                Err(e) => Err(e),
            },
        }
    }
}

pub fn read_u32_exec(b: &[u8], i: usize, little: bool) -> (res: u32)
    requires
        i + 4 <= b@.len(),
    ensures
        res == read_u32(b@, i as int, little),
{
    let b0 = b[i] as u32;
    let b1 = b[i + 1] as u32;
    let b2 = b[i + 2] as u32;
    let b3 = b[i + 3] as u32;
    if little {
        b0 + b1 * 256 + b2 * 65536 + b3 * 16777216
    } else {
        b0 * 16777216 + b1 * 65536 + b2 * 256 + b3
    }
}

pub fn be_u16_exec(b: &[u8], i: usize) -> (res: u16)
    requires
        i + 2 <= b@.len(),
    ensures
        res == be_u16(b@, i as int),
{
    (b[i] as u16) * 256 + (b[i + 1] as u16)
}

/// Splits a PCAP file into packet records.
pub fn parse_pcap(bytes: &[u8]) -> (res: Result<(Vec<PcapPacket>, u32), CaptureError>)
    ensures
        match res {
            Ok((packets, link)) => parse_pcap_spec(bytes@) == Ok::<(Seq<PcapPacket>, u32), CaptureError>((packets@, link)),
            Err(e) => parse_pcap_spec(bytes@) == Err::<(Seq<PcapPacket>, u32), CaptureError>(e),
        },
{
    if bytes.len() < 24 {
        return Err(CaptureError::PcapHeaderIncomplete);
    }
    let (little, nanos) = if bytes[0] == 0xd4 && bytes[1] == 0xc3 && bytes[2] == 0xb2 && bytes[3] == 0xa1 {
        (true, false)
    } else if bytes[0] == 0xa1 && bytes[1] == 0xb2 && bytes[2] == 0xc3 && bytes[3] == 0xd4 {
        (false, false)
    } else if bytes[0] == 0x4d && bytes[1] == 0x3c && bytes[2] == 0xb2 && bytes[3] == 0xa1 {
        (true, true)
    } else if bytes[0] == 0xa1 && bytes[1] == 0xb2 && bytes[2] == 0x3c && bytes[3] == 0x4d {
        (false, true)
    } else {
        return Err(CaptureError::UnsupportedMagic);
    };
    let link_type = read_u32_exec(bytes, 20, little);
    let mut packets: Vec<PcapPacket> = Vec::new();
    let mut offset: usize = 24;
    while offset < bytes.len()
        invariant
            24 <= offset <= bytes@.len(),
            pcap_format(bytes@) == Some((little, nanos)),
            packets_from(bytes@, 24, little, nanos) == (match packets_from(bytes@, offset as int, little, nanos) {
                Ok(rest) => Ok(packets@ + rest),
                Err(e) => Err::<Seq<PcapPacket>, CaptureError>(e),
            }),
        decreases bytes.len() - offset,
    {
        if bytes.len() - offset < 16 {
            return Err(CaptureError::PacketHeaderIncomplete);
        }
        let seconds = read_u32_exec(bytes, offset, little) as u64;
        let fraction = read_u32_exec(bytes, offset + 4, little) as u64;
        let included = read_u32_exec(bytes, offset + 8, little) as usize;
        let data = offset + 16;
        if included > bytes.len() - data {
            return Err(CaptureError::PacketDataIncomplete);
        }
        let fraction_ms = if nanos { fraction / 1000000 } else { fraction / 1000 };
        let packet = PcapPacket { timestamp_ms: seconds * 1000 + fraction_ms, start: data, len: included };
        proof {
            let rest = packets_from(bytes@, data + included, little, nanos);
            match rest {
                Ok(r) => {
                    assert(packets@ + (seq![packet] + r) =~= packets@.push(packet) + r);
                },
                Err(_) => {},
            }
        }
        packets.push(packet);
        offset = data + included;
    }
    proof {
        assert(packets@ + Seq::<PcapPacket>::empty() =~= packets@);
    }
    Ok((packets, link_type))
}

/// A network endpoint: address bytes and TCP port.
pub struct Endpoint {
    pub address: Vec<u8>,
    pub port: u16,
}

/// The TCP segment found in one packet.
pub struct ParsedTcp {
    pub source: Endpoint,
    pub destination: Endpoint,
    pub sequence: u32,
    /// Offset of the TCP payload within the packet data.
    pub payload_start: usize,
}

/// The model of a parsed TCP segment: addresses, ports, sequence number and
/// the payload offset within the packet.
pub struct TcpModel {
    pub source_address: Seq<u8>,
    pub source_port: u16,
    pub destination_address: Seq<u8>,
    pub destination_port: u16,
    pub sequence: u32,
    pub payload_start: int,
}

impl ParsedTcp {
    pub open spec fn model(&self) -> TcpModel {
        TcpModel {
            source_address: self.source.address@,
            source_port: self.source.port,
            destination_address: self.destination.address@,
            destination_port: self.destination.port,
            sequence: self.sequence,
            payload_start: self.payload_start as int,
        }
    }
}

/// A TCP header starting at `base` of `p`; `payload_start` counts from the
/// start of `p`.
pub open spec fn tcp_spec(p: Seq<u8>, base: int, source: Seq<u8>, destination: Seq<u8>) -> Option<TcpModel> {
    if p.len() - base < 20 {
        None
    } else {
        let header_length = (p[base + 12] / 16) * 4;
        if header_length < 20 || header_length > p.len() - base {
            None
        } else {
            Some(TcpModel {
                source_address: source,
                source_port: be_u16(p, base),
                destination_address: destination,
                destination_port: be_u16(p, base + 2),
                sequence: be_u32(p, base + 4),
                payload_start: base + header_length,
            })
        }
    }
}

/// An IPv4 packet at `base` carrying TCP.
pub open spec fn ipv4_spec(p: Seq<u8>, base: int) -> Option<TcpModel> {
    if p.len() - base < 20 || p[base + 9] != 6 {
        None
    } else {
        let header_length = (p[base] % 16) * 4;
        if header_length < 20 || p.len() - base < header_length + 20 {
            None
        } else {
            tcp_spec(p, base + header_length, p.subrange(base + 12, base + 16), p.subrange(base + 16, base + 20))
        }
    }
}

/// An IPv6 packet at `base` whose next header is TCP.
pub open spec fn ipv6_spec(p: Seq<u8>, base: int) -> Option<TcpModel> {
    if p.len() - base < 60 || p[base + 6] != 6 {
        None
    } else {
        tcp_spec(p, base + 40, p.subrange(base + 8, base + 24), p.subrange(base + 24, base + 40))
    }
}

/// The link header of a packet: where the network layer starts and the
/// protocol it announces. For the null link type the protocol family is a
/// `u32` in the capturing host's byte order (`host_little`).
pub open spec fn link_spec(p: Seq<u8>, link_type: u32, host_little: bool) -> Option<(int, u32)> {
    if link_type == 0 && p.len() >= 4 {
        Some((4, read_u32(p, 0, host_little)))
    } else if link_type == 1 && p.len() >= 14 {
        Some((14, be_u16(p, 12) as u32))
    } else if link_type == 113 && p.len() >= 16 {
        Some((16, be_u16(p, 14) as u32))
    } else if link_type == 276 && p.len() >= 20 {
        Some((20, be_u16(p, 0) as u32))
    } else {
        None
    }
}

/// The TCP segment of one packet, if it carries IPv4 or IPv6 TCP.
pub open spec fn tcp_packet_spec(p: Seq<u8>, link_type: u32, host_little: bool) -> Option<TcpModel> {
    match link_spec(p, link_type, host_little) {
        None => None,
        Some((base, hint)) => {
            if base >= p.len() {
                None
            } else if p[base] / 16 == 4 && (hint == 2 || hint == 0x0800) {
                ipv4_spec(p, base)
            } else if p[base] / 16 == 6 && (hint == 30 || hint == 24 || hint == 28 || hint == 0x86dd) {
                ipv6_spec(p, base)
            } else {
                None
            }
        },
    }
}

pub fn copy_range(p: &[u8], from: usize, to: usize) -> (res: Vec<u8>)
    requires
        from <= to <= p@.len(),
    ensures
        res@ == p@.subrange(from as int, to as int),
{
    let mut out: Vec<u8> = Vec::new();
    let mut i = from;
    while i < to
        invariant
            from <= i <= to,
            to <= p@.len(),
            out@ == p@.subrange(from as int, i as int),
        decreases to - i,
    {
        out.push(p[i]);
        assert(p@.subrange(from as int, i + 1) =~= p@.subrange(from as int, i as int).push(p@[i as int]));
        i = i + 1;
    }
    out
}

fn parse_tcp(p: &[u8], base: usize, source: Vec<u8>, destination: Vec<u8>) -> (res: Option<ParsedTcp>)
    requires
        base <= p@.len(),
    ensures
        match res {
            Some(t) => tcp_spec(p@, base as int, source@, destination@) == Some(t.model()),
            None => tcp_spec(p@, base as int, source@, destination@) is None,
        },
{
    if p.len() - base < 20 {
        return None;
    }
    let source_port = be_u16_exec(p, base);
    let destination_port = be_u16_exec(p, base + 2);
    let sequence = read_u32_exec(p, base + 4, false);
    let header_length = ((p[base + 12] / 16) as usize) * 4;
    if header_length < 20 || header_length > p.len() - base {
        return None;
    }
    Some(ParsedTcp {
        source: Endpoint { address: source, port: source_port },
        destination: Endpoint { address: destination, port: destination_port },
        sequence,
        payload_start: base + header_length,
    })
}

fn parse_ipv4_tcp(p: &[u8], base: usize) -> (res: Option<ParsedTcp>)
    requires
        base <= p@.len(),
    ensures
        match res {
            Some(t) => ipv4_spec(p@, base as int) == Some(t.model()),
            None => ipv4_spec(p@, base as int) is None,
        },
{
    if p.len() - base < 20 || p[base + 9] != 6 {
        return None;
    }
    let header_length = ((p[base] % 16) as usize) * 4;
    if header_length < 20 || p.len() - base < header_length + 20 {
        return None;
    }
    parse_tcp(p, base + header_length, copy_range(p, base + 12, base + 16), copy_range(p, base + 16, base + 20))
}

fn parse_ipv6_tcp(p: &[u8], base: usize) -> (res: Option<ParsedTcp>)
    requires
        base <= p@.len(),
    ensures
        match res {
            Some(t) => ipv6_spec(p@, base as int) == Some(t.model()),
            None => ipv6_spec(p@, base as int) is None,
        },
{
    if p.len() - base < 60 || p[base + 6] != 6 {
        return None;
    }
    parse_tcp(p, base + 40, copy_range(p, base + 8, base + 24), copy_range(p, base + 24, base + 40))
}

/// The TCP segment carried by one packet, given the capture's link type and
/// the byte order of the host that wrote it.
pub fn parse_tcp_packet(packet: &[u8], link_type: u32, host_little: bool) -> (res: Option<ParsedTcp>)
    ensures
        match res {
            Some(t) => tcp_packet_spec(packet@, link_type, host_little) == Some(t.model()),
            None => tcp_packet_spec(packet@, link_type, host_little) is None,
        },
{
    let (base, hint): (usize, u32) = if link_type == 0 && packet.len() >= 4 {
        (4, read_u32_exec(packet, 0, host_little))
    } else if link_type == 1 && packet.len() >= 14 {
        (14, be_u16_exec(packet, 12) as u32)
    } else if link_type == 113 && packet.len() >= 16 {
        (16, be_u16_exec(packet, 14) as u32)
    } else if link_type == 276 && packet.len() >= 20 {
        (20, be_u16_exec(packet, 0) as u32)
    } else {
        return None;
    };
    if base >= packet.len() {
        return None;
    }
    let version = packet[base] / 16;
    if version == 4 && (hint == 2 || hint == 0x0800) {
        parse_ipv4_tcp(packet, base)
    } else if version == 6 && (hint == 30 || hint == 24 || hint == 28 || hint == 0x86dd) {
        parse_ipv6_tcp(packet, base)
    } else {
        None
    }
}

/// Whether this machine stores `u32` values little-endian, read back from
/// `u32::from_ne_bytes`.
///
/// Trusted: `u32::from_ne_bytes([1, 0, 0, 0])` is 1 on a little-endian host
/// and 2^24 on a big-endian one; which of the two is the machine's.
#[verifier::external_body]
pub(crate) fn native_u32_of_one() -> (res: u32)
    ensures
        res == 1 || res == 16777216,
{
    u32::from_ne_bytes([1, 0, 0, 0])
}

/// Whether the running host is little-endian.
pub(crate) fn host_is_little_endian() -> (res: bool)
{
    native_u32_of_one() == 1
}

} // verus!
