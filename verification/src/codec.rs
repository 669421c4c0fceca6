//! The header codec: what the stack reads from received IPv4 and TCP headers,
//! and the headers it puts in front of outgoing segments.
//!
//! Reading and writing is done by `etherparse`. The functions here that call
//! it carry contracts that are believed, not proved; each says so.

use vstd::prelude::*;

verus! {

/// The protocol number of TCP in an IPv4 header.
pub const PROTOCOL_TCP: u8 = 6;

/// Length in bytes of an IPv4 header without options.
pub const IPV4_HEADER_LEN: usize = 20;

/// Length in bytes of a TCP header without options.
pub const TCP_HEADER_LEN: usize = 20;

/// The largest payload length that an IPv4 header without options can declare.
pub const IPV4_MAX_PAYLOAD_LEN: u16 = 65515;

/// The fields of a received IPv4 header that the stack looks at.
///
/// Addresses are held as the number that their four bytes spell in network
/// order, so `10.0.0.1` is `0x0A00_0001`.
#[derive(Clone, Copy, Debug, PartialEq, Eq, Structural)]
pub struct IpInfo {
    pub source: u32,
    pub destination: u32,
    pub protocol: u8,
    /// Length of the header with its options, in bytes.
    pub header_len: usize,
}

/// The fields of a received TCP header that the stack looks at.
#[derive(Clone, Copy, Debug, PartialEq, Eq, Structural)]
pub struct TcpInfo {
    pub source_port: u16,
    pub destination_port: u16,
    pub sequence_number: u32,
    pub acknowledgment_number: u32,
    pub syn: bool,
    pub ack: bool,
    pub fin: bool,
    pub rst: bool,
    pub window_size: u16,
    /// Length of the header with its options, in bytes.
    pub header_len: usize,
}

/// The IPv4 header that a connection puts on its outgoing frames.
#[derive(Clone, Copy, Debug, PartialEq, Eq, Structural)]
pub struct IpTemplate {
    /// Length of what follows the header, as the header declares it.
    pub payload_len: u16,
    pub time_to_live: u8,
    pub source: u32,
    pub destination: u32,
}

/// The TCP header that a connection puts on its outgoing frames.
#[derive(Clone, Copy, Debug, PartialEq, Eq, Structural)]
pub struct TcpTemplate {
    pub source_port: u16,
    pub destination_port: u16,
    pub sequence_number: u32,
    pub acknowledgment_number: u32,
    pub syn: bool,
    pub ack: bool,
    pub fin: bool,
    pub rst: bool,
    pub window_size: u16,
}

/// The number that two bytes spell, most significant byte first.
pub open spec fn be16(hi: u8, lo: u8) -> u16 {
    (hi * 0x100 + lo) as u16
}

/// The number that four bytes spell, most significant byte first.
pub open spec fn be32(b0: u8, b1: u8, b2: u8, b3: u8) -> u32 {
    (b0 * 0x100_0000 + b1 * 0x1_0000 + b2 * 0x100 + b3) as u32
}

/// The two bytes of `x`, most significant first.
pub open spec fn be16_bytes(x: u16) -> Seq<u8> {
    seq![(x / 0x100) as u8, (x % 0x100) as u8]
}

/// The four bytes of `x`, most significant first.
pub open spec fn be32_bytes(x: u32) -> Seq<u8> {
    seq![
        (x / 0x100_0000) as u8,
        (x / 0x1_0000 % 0x100) as u8,
        (x / 0x100 % 0x100) as u8,
        (x % 0x100) as u8,
    ]
}

/// The header length field of an IPv4 header: its length in 32-bit words.
pub open spec fn ipv4_ihl(b: Seq<u8>) -> u8 {
    b[0] & 0xf
}

/// `b` starts with an IPv4 header that is complete and consistent: version 4,
/// at least five words long, wholly inside `b`, and with a total length that
/// covers at least the header.
pub open spec fn ipv4_header_ok(b: Seq<u8>) -> bool {
    &&& b.len() >= 20
    &&& b[0] >> 4 == 4
    &&& ipv4_ihl(b) >= 5
    &&& b.len() >= ipv4_ihl(b) * 4
    &&& be16(b[2], b[3]) >= ipv4_ihl(b) * 4
}

/// The fields of the IPv4 header at the start of `b`.
pub open spec fn ipv4_fields(b: Seq<u8>) -> IpInfo {
    IpInfo {
        source: be32(b[12], b[13], b[14], b[15]),
        destination: be32(b[16], b[17], b[18], b[19]),
        protocol: b[9],
        header_len: (ipv4_ihl(b) * 4) as usize,
    }
}

/// What reading an IPv4 header from `b` gives.
pub open spec fn ipv4_header(b: Seq<u8>) -> Option<IpInfo> {
    if ipv4_header_ok(b) {
        Some(ipv4_fields(b))
    } else {
        None
    }
}

/// The data offset field of a TCP header: its length in 32-bit words.
pub open spec fn tcp_data_offset(b: Seq<u8>) -> u8 {
    (b[12] & 0xf0) >> 4
}

/// `b` starts with a complete TCP header: at least five words long and
/// wholly inside `b`.
pub open spec fn tcp_header_ok(b: Seq<u8>) -> bool {
    &&& b.len() >= 20
    &&& tcp_data_offset(b) >= 5
    &&& b.len() >= tcp_data_offset(b) * 4
}

/// The fields of the TCP header at the start of `b`.
pub open spec fn tcp_fields(b: Seq<u8>) -> TcpInfo {
    TcpInfo {
        source_port: be16(b[0], b[1]),
        destination_port: be16(b[2], b[3]),
        sequence_number: be32(b[4], b[5], b[6], b[7]),
        acknowledgment_number: be32(b[8], b[9], b[10], b[11]),
        syn: 0 != b[13] & 2,
        ack: 0 != b[13] & 16,
        fin: 0 != b[13] & 1,
        rst: 0 != b[13] & 4,
        window_size: be16(b[14], b[15]),
        header_len: (tcp_data_offset(b) * 4) as usize,
    }
}

/// What reading a TCP header from `b` gives.
pub open spec fn tcp_header(b: Seq<u8>) -> Option<TcpInfo> {
    if tcp_header_ok(b) {
        Some(tcp_fields(b))
    } else {
        None
    }
}

/// The sum of the 16-bit words of the IPv4 header of `ip`, the checksum
/// field left out: version and header length, the total length, the
/// don't-fragment flag, time to live and protocol, and the two addresses.
pub open spec fn ipv4_header_sum(ip: IpTemplate) -> int {
    0x4500 + (ip.payload_len + 20) + 0x4000 + (ip.time_to_live * 0x100 + 6) + ip.source / 0x1_0000
        + ip.source % 0x1_0000 + ip.destination / 0x1_0000 + ip.destination % 0x1_0000
}

/// What is above the low 16 bits of `x`, added to them.
pub open spec fn fold16(x: int) -> int {
    x % 0x1_0000 + x / 0x1_0000
}

/// The checksum of the IPv4 header of `ip`: the complement of the sum of its
/// words, folded twice into 16 bits.
#[verifier::opaque]
pub open spec fn ipv4_header_checksum(ip: IpTemplate) -> u16 {
    (0xffff - fold16(fold16(ipv4_header_sum(ip)))) as u16
}

/// The twenty bytes of the IPv4 header of `ip`, given its checksum.
pub open spec fn ipv4_header_bytes(ip: IpTemplate, checksum: u16) -> Seq<u8> {
    seq![0x45u8, 0u8] + be16_bytes((ip.payload_len + 20) as u16) + seq![
        0u8,
        0u8,
        0x40u8,
        0u8,
        ip.time_to_live,
        6u8,
    ] + be16_bytes(checksum) + be32_bytes(ip.source) + be32_bytes(ip.destination)
}

/// The flags byte of the TCP header of `tcp`.
pub open spec fn tcp_flags_byte(tcp: TcpTemplate) -> u8 {
    ((if tcp.fin { 1int } else { 0 }) + (if tcp.syn { 2int } else { 0 }) + (if tcp.rst { 4int } else { 0 })
        + (if tcp.ack { 16int } else { 0 })) as u8
}

/// The twenty bytes of the TCP header of `tcp`: no options, checksum and
/// urgent pointer zero.
pub open spec fn tcp_header_bytes(tcp: TcpTemplate) -> Seq<u8> {
    be16_bytes(tcp.source_port) + be16_bytes(tcp.destination_port) + be32_bytes(
        tcp.sequence_number,
    ) + be32_bytes(tcp.acknowledgment_number) + seq![0x50u8, tcp_flags_byte(tcp)] + be16_bytes(
        tcp.window_size,
    ) + seq![0u8, 0u8, 0u8, 0u8]
}

/// Reads the IPv4 header at the start of `bytes`.
///
/// Calls `etherparse::Ipv4HeaderSlice::from_slice` and copies out the source
/// and destination addresses, the protocol number and the header's length.
/// Believed of it: it accepts exactly the inputs of `ipv4_header_ok`, and on
/// those the accessors read the fields at the offsets of `ipv4_fields`.
#[verifier::external_body]
pub(crate) fn read_ipv4_header(bytes: &[u8]) -> (r: Option<IpInfo>)
    ensures
        r == ipv4_header(bytes@),
{
    match etherparse::Ipv4HeaderSlice::from_slice(bytes) {
        Ok(h) => {
            let (s, d) = (h.source(), h.destination());
            Some(IpInfo {
                source: u32::from_be_bytes([s[0], s[1], s[2], s[3]]),
                destination: u32::from_be_bytes([d[0], d[1], d[2], d[3]]),
                protocol: h.protocol(),
                header_len: h.slice().len(),
            })
        },
        Err(_) => None,
    }
}

/// Reads the TCP header at the start of `bytes`.
///
/// Calls `etherparse::TcpHeaderSlice::from_slice` and copies out the ports,
/// the sequence and acknowledgment numbers, four flags, the window and the
/// header's length. Believed of it: it accepts exactly the inputs of
/// `tcp_header_ok`, and on those the accessors read the fields at the offsets
/// of `tcp_fields`.
#[verifier::external_body]
pub(crate) fn read_tcp_header(bytes: &[u8]) -> (r: Option<TcpInfo>)
    ensures
        r == tcp_header(bytes@),
{
    match etherparse::TcpHeaderSlice::from_slice(bytes) {
        Ok(h) => Some(TcpInfo {
            source_port: h.source_port(),
            destination_port: h.destination_port(),
            sequence_number: h.sequence_number(),
            acknowledgment_number: h.acknowledgment_number(),
            syn: h.syn(),
            ack: h.ack(),
            fin: h.fin(),
            rst: h.rst(),
            window_size: h.window_size(),
            header_len: h.slice().len(),
        }),
        Err(_) => None,
    }
}

/// Writes the IPv4 header of `ip`.
///
/// Builds the header with `etherparse::Ipv4Header::new`, for a TCP payload,
/// and serialises it with `etherparse::Ipv4Header::write`. Believed of it:
/// with a payload length that the header can declare, the write succeeds and
/// gives the twenty bytes of `ipv4_header_bytes`, with the checksum that
/// `ipv4_header_checksum` states.
#[verifier::external_body]
pub(crate) fn write_ipv4_header(ip: &IpTemplate) -> (r: Vec<u8>)
    requires
        ip.payload_len <= IPV4_MAX_PAYLOAD_LEN,
    ensures
        r@ == ipv4_header_bytes(*ip, ipv4_header_checksum(*ip)),
{
    let header = etherparse::Ipv4Header::new(
        ip.payload_len,
        ip.time_to_live,
        etherparse::IpTrafficClass::Tcp,
        ip.source.to_be_bytes(),
        ip.destination.to_be_bytes(),
    );
    let mut out: Vec<u8> = Vec::new();
    let _ = header.write(&mut out);
    out
}

/// Writes the TCP header of `tcp`.
///
/// Builds the header with `etherparse::TcpHeader::new`, sets the
/// acknowledgment number and the four flags, and serialises it with
/// `etherparse::TcpHeader::write`, which leaves the checksum zero. Believed
/// of it: the write gives the twenty bytes of `tcp_header_bytes`.
#[verifier::external_body]
pub(crate) fn write_tcp_header(tcp: &TcpTemplate) -> (r: Vec<u8>)
    ensures
        r@ == tcp_header_bytes(*tcp),
{
    let mut header = etherparse::TcpHeader::new(
        tcp.source_port,
        tcp.destination_port,
        tcp.sequence_number,
        tcp.window_size,
    );
    header.acknowledgment_number = tcp.acknowledgment_number;
    header.syn = tcp.syn;
    header.ack = tcp.ack;
    header.fin = tcp.fin;
    header.rst = tcp.rst;
    let mut out: Vec<u8> = Vec::new();
    let _ = header.write(&mut out);
    out
}

/// An IPv4 header without options is twenty bytes long.
pub proof fn lemma_ipv4_header_len(ip: IpTemplate, checksum: u16)
    ensures
        ipv4_header_bytes(ip, checksum).len() == IPV4_HEADER_LEN,
{
}

/// A TCP header without options is twenty bytes long.
pub proof fn lemma_tcp_header_len(tcp: TcpTemplate)
    ensures
        tcp_header_bytes(tcp).len() == TCP_HEADER_LEN,
{
}

/// The checksum makes the header sum up: the words of a written IPv4 header,
/// the checksum among them, fold to sixteen set bits, which is how a
/// receiver tells a header that arrived whole.
pub proof fn lemma_ipv4_checksum_verifies(ip: IpTemplate)
    requires
        ip.payload_len <= IPV4_MAX_PAYLOAD_LEN,
    ensures
        fold16(fold16(ipv4_header_sum(ip) + ipv4_header_checksum(ip))) == 0xffff,
{
    reveal(ipv4_header_checksum);
}

/// Two bytes written most significant first spell the number again.
pub proof fn lemma_be16_round_trip(x: u16)
    ensures
        be16_bytes(x).len() == 2,
        be16(be16_bytes(x)[0], be16_bytes(x)[1]) == x,
{
}

/// Four bytes written most significant first spell the number again.
pub proof fn lemma_be32_round_trip(x: u32)
    ensures
        be32_bytes(x).len() == 4,
        be32(be32_bytes(x)[0], be32_bytes(x)[1], be32_bytes(x)[2], be32_bytes(x)[3]) == x,
{
}

/// What a TCP header that was written says when it is read.
pub open spec fn tcp_info_of(tcp: TcpTemplate) -> TcpInfo {
    TcpInfo {
        source_port: tcp.source_port,
        destination_port: tcp.destination_port,
        sequence_number: tcp.sequence_number,
        acknowledgment_number: tcp.acknowledgment_number,
        syn: tcp.syn,
        ack: tcp.ack,
        fin: tcp.fin,
        rst: tcp.rst,
        window_size: tcp.window_size,
        header_len: 20,
    }
}

/// What an IPv4 header that was written says when it is read.
pub open spec fn ip_info_of(ip: IpTemplate) -> IpInfo {
    IpInfo { source: ip.source, destination: ip.destination, protocol: 6, header_len: 20 }
}

/// A TCP header that was written is read back as it was, whatever follows
/// it.
pub proof fn lemma_tcp_header_round_trip(tcp: TcpTemplate, rest: Seq<u8>)
    ensures
        tcp_header(tcp_header_bytes(tcp) + rest) == Some(tcp_info_of(tcp)),
{
    let h = tcp_header_bytes(tcp);
    let b = h + rest;
    let f = tcp_flags_byte(tcp);
    lemma_tcp_header_len(tcp);
    lemma_be16_round_trip(tcp.source_port);
    lemma_be16_round_trip(tcp.destination_port);
    lemma_be32_round_trip(tcp.sequence_number);
    lemma_be32_round_trip(tcp.acknowledgment_number);
    lemma_be16_round_trip(tcp.window_size);
    assert forall|i: int| 0 <= i < 20 implies b[i] == h[i] by {}
    assert(h[0] == be16_bytes(tcp.source_port)[0] && h[1] == be16_bytes(tcp.source_port)[1]);
    assert(h[2] == be16_bytes(tcp.destination_port)[0] && h[3] == be16_bytes(
        tcp.destination_port,
    )[1]);
    assert(h[4] == be32_bytes(tcp.sequence_number)[0] && h[5] == be32_bytes(tcp.sequence_number)[1]
        && h[6] == be32_bytes(tcp.sequence_number)[2] && h[7] == be32_bytes(
        tcp.sequence_number,
    )[3]);
    assert(h[8] == be32_bytes(tcp.acknowledgment_number)[0] && h[9] == be32_bytes(
        tcp.acknowledgment_number,
    )[1] && h[10] == be32_bytes(tcp.acknowledgment_number)[2] && h[11] == be32_bytes(
        tcp.acknowledgment_number,
    )[3]);
    assert(h[12] == 0x50 && h[13] == f);
    assert(h[14] == be16_bytes(tcp.window_size)[0] && h[15] == be16_bytes(tcp.window_size)[1]);
    assert((0x50u8 & 0xf0) >> 4 == 5) by (bit_vector);
    assert(forall|a: u8| (0 != #[trigger] (a & 1)) == (a % 2 == 1)) by (bit_vector);
    assert(forall|a: u8| (0 != #[trigger] (a & 2)) == (a / 2 % 2 == 1)) by (bit_vector);
    assert(forall|a: u8| (0 != #[trigger] (a & 4)) == (a / 4 % 2 == 1)) by (bit_vector);
    assert(forall|a: u8| (0 != #[trigger] (a & 16)) == (a / 16 % 2 == 1)) by (bit_vector);
    assert((0 != f & 1) == tcp.fin);
    assert((0 != f & 2) == tcp.syn);
    assert((0 != f & 4) == tcp.rst);
    assert((0 != f & 16) == tcp.ack);
    assert(tcp_header_ok(b));
    assert(tcp_fields(b) == tcp_info_of(tcp));
}

/// An IPv4 header that was written with a payload length that it can
/// declare is read back as it was, whatever follows it.
pub proof fn lemma_ipv4_header_round_trip(ip: IpTemplate, checksum: u16, rest: Seq<u8>)
    requires
        ip.payload_len <= IPV4_MAX_PAYLOAD_LEN,
    ensures
        ipv4_header(ipv4_header_bytes(ip, checksum) + rest) == Some(ip_info_of(ip)),
{
    let h = ipv4_header_bytes(ip, checksum);
    let b = h + rest;
    lemma_ipv4_header_len(ip, checksum);
    lemma_be16_round_trip((ip.payload_len + 20) as u16);
    lemma_be32_round_trip(ip.source);
    lemma_be32_round_trip(ip.destination);
    assert forall|i: int| 0 <= i < 20 implies b[i] == h[i] by {}
    assert(h[0] == 0x45 && h[9] == 6);
    assert(h[2] == be16_bytes((ip.payload_len + 20) as u16)[0] && h[3] == be16_bytes(
        (ip.payload_len + 20) as u16,
    )[1]);
    assert(h[12] == be32_bytes(ip.source)[0] && h[13] == be32_bytes(ip.source)[1] && h[14]
        == be32_bytes(ip.source)[2] && h[15] == be32_bytes(ip.source)[3]);
    assert(h[16] == be32_bytes(ip.destination)[0] && h[17] == be32_bytes(ip.destination)[1]
        && h[18] == be32_bytes(ip.destination)[2] && h[19] == be32_bytes(ip.destination)[3]);
    assert(0x45u8 >> 4 == 4) by (bit_vector);
    assert(0x45u8 & 0xf == 5) by (bit_vector);
    assert(ipv4_header_ok(b));
    assert(ipv4_fields(b) == ip_info_of(ip));
}

} // verus!
