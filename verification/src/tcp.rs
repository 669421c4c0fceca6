//! One TCP connection: its sequence spaces, its state machine, and the
//! frames it answers with.
//!
//! A connection never touches the network. Whatever it wants sent it hands
//! back as the bytes of a frame, and the caller puts them on the wire.

use crate::codec::{
    ipv4_header_bytes, ipv4_header_checksum, lemma_ipv4_header_len, lemma_tcp_header_len,
    tcp_header_bytes, write_ipv4_header, write_tcp_header, IpInfo, IpTemplate, TcpInfo,
    TcpTemplate, IPV4_MAX_PAYLOAD_LEN,
};
use crate::seqnum::{between_wrapped, distance, is_between_wrapped};
use std::collections::VecDeque;
use vstd::prelude::*;
use vstd::slice::{slice_subrange, slice_to_vec};

verus! {

/// No frame that a connection builds is longer than this.
pub const MAX_FRAME_LEN: usize = 1500;

/// How many payload bytes fit in one frame behind the two headers.
pub const MAX_SEGMENT_PAYLOAD: usize = 1460;

/// The initial send sequence number of every connection.
pub const INITIAL_SEND_SEQUENCE: u32 = 0;

/// The send window that a new connection starts with and advertises.
pub const INITIAL_WINDOW: u16 = 10;

/// The time to live of outgoing frames.
pub const TIME_TO_LIVE: u8 = 64;

/// How many unacknowledged bytes a connection buffers at most.
pub const SENDQUEUE_SIZE: usize = 1024;

/// Where a connection stands between the peer's SYN and the end.
#[derive(Clone, Copy, Debug, PartialEq, Eq, Structural)]
pub enum State {
    SynRcvd,
    Estab,
    FinWait1,
    FinWait2,
    TimeWait,
}

impl State {
    /// Whether the peer has acknowledged our SYN: true of every state but
    /// `SynRcvd`.
    pub open spec fn synchronized(self) -> bool {
        self != State::SynRcvd
    }

    /// Whether the peer has acknowledged our SYN.
    pub fn is_synchronized(&self) -> (r: bool)
        ensures
            r == self.synchronized(),
    {
        match *self {
            State::SynRcvd => false,
            State::Estab => true,
            State::FinWait1 => true,
            State::FinWait2 => true,
            State::TimeWait => true,
        }
    }
}

/// The four addresses that tell one connection from every other.
///
/// `src` is the peer's address and port, `dst` the local ones; an address is
/// the number that its four bytes spell in network order.
#[derive(Clone, Copy, Debug, PartialEq, Eq, Hash)]
pub struct Quad {
    pub src: (u32, u16),
    pub dst: (u32, u16),
}

impl Quad {
    /// The four addresses as one number: each quad has a number of its own.
    pub open spec fn key_of(self) -> u128 {
        (self.src.0 * 0x1_0000_0000_0000_0000_0000 + self.src.1 * 0x1_0000_0000_0000_0000
            + self.dst.0 * 0x1_0000 + self.dst.1) as u128
    }

    /// The four addresses as one number.
    pub fn key(&self) -> (k: u128)
        ensures
            k == self.key_of(),
    {
        (self.src.0 as u128) * 0x1_0000_0000_0000_0000_0000 + (self.src.1 as u128)
            * 0x1_0000_0000_0000_0000 + (self.dst.0 as u128) * 0x1_0000 + (self.dst.1 as u128)
    }

    /// Two quads with the same number are the same quad.
    pub proof fn lemma_key_injective(a: Quad, b: Quad)
        requires
            a.key_of() == b.key_of(),
        ensures
            a == b,
    {
    }
}

/// The send side of a connection's sequence space.
#[derive(Clone, Copy, Debug, PartialEq, Eq, Structural)]
pub struct SendSequenceSpace {
    /// Oldest sequence number not yet acknowledged.
    pub una: u32,
    /// Next sequence number to send.
    pub nxt: u32,
    /// The send window.
    pub wnd: u16,
    /// Whether an urgent pointer is set.
    pub up: bool,
    /// Sequence number of the segment used for the last window update.
    pub wl1: usize,
    /// Acknowledgment number of the segment used for the last window update.
    pub wl2: usize,
    /// Initial send sequence number.
    pub iss: u32,
}

/// The receive side of a connection's sequence space.
#[derive(Clone, Copy, Debug, PartialEq, Eq, Structural)]
pub struct RecvSequenceSpace {
    /// Next sequence number expected from the peer.
    pub nxt: u32,
    /// The receive window.
    pub wnd: u16,
    /// Whether an urgent pointer is set.
    pub up: bool,
    /// The peer's initial sequence number.
    pub irs: u32,
}

/// One TCP connection.
#[derive(Debug)]
pub struct Connection {
    pub state: State,
    pub send: SendSequenceSpace,
    pub recv: RecvSequenceSpace,
    /// The IPv4 header of the next outgoing frame.
    pub ip: IpTemplate,
    /// The TCP header of the next outgoing frame.
    pub tcp: TcpTemplate,
    /// Bytes received and not yet read, oldest first.
    pub incoming: VecDeque<u8>,
    /// Bytes taken from the writer and not yet acknowledged, oldest first.
    pub unacked: VecDeque<u8>,
}

/// A connection as a mathematical value.
pub struct ConnectionView {
    pub state: State,
    pub send: SendSequenceSpace,
    pub recv: RecvSequenceSpace,
    pub ip: IpTemplate,
    pub tcp: TcpTemplate,
    pub incoming: Seq<u8>,
    pub unacked: Seq<u8>,
}

impl View for Connection {
    type V = ConnectionView;

    open spec fn view(&self) -> ConnectionView {
        ConnectionView {
            state: self.state,
            send: self.send,
            recv: self.recv,
            ip: self.ip,
            tcp: self.tcp,
            incoming: self.incoming@,
            unacked: self.unacked@,
        }
    }
}

/// The sequence number `n` steps after `s`.
pub open spec fn seq_add(s: u32, n: int) -> u32 {
    ((s + n) % 0x1_0000_0000) as u32
}

/// One if the flag is set, else zero: what a SYN or a FIN takes up in the
/// sequence space.
pub open spec fn flag_len(flag: bool) -> int {
    if flag {
        1
    } else {
        0
    }
}

/// The payload length that the IPv4 header declares after a payload of
/// `payload_len` bytes was handed over: the TCP header and the whole payload
/// where the header can declare that much, else what it declared before.
pub open spec fn declared_len(before: u16, payload_len: int) -> u16 {
    if 20 + payload_len <= 65515 {
        (20 + payload_len) as u16
    } else {
        before
    }
}

/// How many bytes of a payload of `payload_len` bytes go into one frame.
pub open spec fn fitting(payload_len: int) -> int {
    if payload_len <= MAX_SEGMENT_PAYLOAD {
        payload_len
    } else {
        MAX_SEGMENT_PAYLOAD as int
    }
}

impl ConnectionView {
    /// The IPv4 header can declare its payload length, and no more bytes
    /// wait for their acknowledgment than a connection buffers.
    pub open spec fn wf(self) -> bool {
        &&& self.ip.payload_len <= IPV4_MAX_PAYLOAD_LEN
        &&& self.unacked.len() <= SENDQUEUE_SIZE
    }

    /// The IPv4 header of the frame that carries `payload`.
    pub open spec fn ip_of_frame(self, payload: Seq<u8>) -> IpTemplate {
        IpTemplate { payload_len: declared_len(self.ip.payload_len, payload.len() as int), ..self.ip }
    }

    /// The TCP header of the next frame: the template with the current
    /// sequence and acknowledgment numbers.
    pub open spec fn tcp_of_frame(self) -> TcpTemplate {
        TcpTemplate {
            sequence_number: self.send.nxt,
            acknowledgment_number: self.recv.nxt,
            ..self.tcp
        }
    }

    /// The frame that carries `payload` behind the headers as they stand:
    /// both headers, then as much of the payload as fits.
    pub open spec fn header_frame(self, payload: Seq<u8>) -> Seq<u8> {
        let ip = self.ip_of_frame(payload);
        ipv4_header_bytes(ip, ipv4_header_checksum(ip)) + tcp_header_bytes(self.tcp)
            + payload.subrange(0, fitting(payload.len() as int))
    }

    /// The connection after a frame that carries `payload` was built: the
    /// next sequence number has moved past the payload bytes in the frame and
    /// past a SYN and a FIN, and neither flag is set any more.
    pub open spec fn after_header_frame(self, payload: Seq<u8>) -> ConnectionView {
        ConnectionView {
            send: SendSequenceSpace {
                nxt: seq_add(
                    self.send.nxt,
                    fitting(payload.len() as int) + flag_len(self.tcp.syn) + flag_len(self.tcp.fin),
                ),
                ..self.send
            },
            ip: self.ip_of_frame(payload),
            tcp: TcpTemplate { syn: false, fin: false, ..self.tcp },
            ..self
        }
    }

    /// The connection with its current numbers in the TCP header.
    pub open spec fn numbered(self) -> ConnectionView {
        ConnectionView { tcp: self.tcp_of_frame(), ..self }
    }

    /// The frame that carries `payload` with the connection's current
    /// numbers: its sequence number is the next to send, its acknowledgment
    /// number the next expected.
    pub open spec fn frame(self, payload: Seq<u8>) -> Seq<u8> {
        self.numbered().header_frame(payload)
    }

    /// The connection after the frame that carries `payload` with its
    /// current numbers was built.
    pub open spec fn after_frame(self, payload: Seq<u8>) -> ConnectionView {
        self.numbered().after_header_frame(payload)
    }

    /// The connection made ready for a reset: the RST flag is set, the
    /// numbers in the TCP header are zero, and the IPv4 header declares a
    /// bare TCP header.
    pub open spec fn resetting(self) -> ConnectionView {
        ConnectionView {
            ip: IpTemplate { payload_len: 20, ..self.ip },
            tcp: TcpTemplate {
                rst: true,
                sequence_number: 0,
                acknowledgment_number: 0,
                ..self.tcp
            },
            ..self
        }
    }
}

/// How much of the sequence space a segment takes up: its payload, and one
/// number each for a SYN and a FIN.
pub open spec fn segment_len(tcph: TcpInfo, data_len: int) -> int {
    data_len + flag_len(tcph.fin) + flag_len(tcph.syn)
}

/// `s` lies in the receive window that starts at `nxt` and is `wnd` wide.
pub open spec fn in_window(nxt: u32, wnd: u16, s: u32) -> bool {
    between_wrapped(seq_add(nxt, -1), s, seq_add(nxt, wnd as int))
}

/// Whether a segment that starts at `seqn` and takes up `slen` sequence
/// numbers is let in by the receive window that starts at `nxt` and is `wnd`
/// wide.
///
/// An empty segment is let in by a closed window only at `nxt` itself, and by
/// an open one wherever it lies in the window. A segment that is not empty
/// is never let in by a closed window, and by an open one where its first or
/// its last number lies in the window.
pub open spec fn segment_acceptable(nxt: u32, wnd: u16, seqn: u32, slen: int) -> bool {
    if slen == 0 {
        if wnd == 0 {
            seqn == nxt
        } else {
            in_window(nxt, wnd, seqn)
        }
    } else {
        wnd != 0 && (in_window(nxt, wnd, seqn) || in_window(nxt, wnd, seq_add(seqn, slen - 1)))
    }
}

/// How many bytes at the front of a segment's payload the receiver has had
/// before, where it expects `nxt` next.
///
/// Where `nxt` lies inside the numbers that the segment takes up, the
/// segment starts at `nxt` or before it, and what lies before `nxt` is
/// stale: the payload bytes in front of it, a SYN not counted among them.
/// Else the segment starts behind `nxt`, and nothing of it is stale.
pub open spec fn stale(nxt: u32, tcph: TcpInfo, data_len: int) -> int {
    let behind = distance(tcph.sequence_number, nxt);
    if behind < segment_len(tcph, data_len) && behind > flag_len(tcph.syn) {
        behind - flag_len(tcph.syn)
    } else {
        0
    }
}

/// The part of a segment's payload that the receiver has not had before,
/// where it expects `nxt` next.
pub open spec fn fresh(nxt: u32, tcph: TcpInfo, data: Seq<u8>) -> Seq<u8> {
    data.subrange(stale(nxt, tcph, data.len() as int), data.len() as int)
}

/// What a connection does with one segment: the connection afterwards, and
/// the frame it answers with, if any.
pub struct Reaction {
    pub connection: ConnectionView,
    pub reply: Option<Seq<u8>>,
}

impl ConnectionView {
    /// The peer has sent its FIN: nothing more will arrive.
    pub open spec fn rcv_closed(self) -> bool {
        self.state == State::TimeWait
    }

    /// How many bytes a reader with room for `room` bytes gets.
    pub open spec fn readable(self, room: int) -> int {
        if room <= self.incoming.len() {
            room
        } else {
            self.incoming.len() as int
        }
    }

    /// The connection once a reader with room for `room` bytes has read.
    pub open spec fn after_read(self, room: int) -> ConnectionView {
        ConnectionView {
            incoming: self.incoming.subrange(self.readable(room), self.incoming.len() as int),
            ..self
        }
    }

    /// How many of `len` bytes a writer can hand over.
    pub open spec fn writable(self, len: int) -> int {
        if len <= SENDQUEUE_SIZE - self.unacked.len() {
            len
        } else {
            SENDQUEUE_SIZE - self.unacked.len()
        }
    }

    /// The connection once a writer has handed over `data`.
    pub open spec fn after_write(self, data: Seq<u8>) -> ConnectionView {
        ConnectionView {
            unacked: self.unacked + data.subrange(0, self.writable(data.len() as int)),
            ..self
        }
    }

    /// The acknowledgment number `ackn` acknowledges something that was sent
    /// and not acknowledged before.
    pub open spec fn ack_acceptable(self, ackn: u32) -> bool {
        between_wrapped(self.send.una, ackn, seq_add(self.send.nxt, 1))
    }

    /// The connection with the FIN flag set in its header.
    pub open spec fn with_fin(self) -> ConnectionView {
        ConnectionView { tcp: TcpTemplate { fin: true, ..self.tcp }, ..self }
    }

    /// The connection in another state.
    pub open spec fn in_state(self, state: State) -> ConnectionView {
        ConnectionView { state, ..self }
    }

    /// Whether the connection takes a segment whose header is `tcph` and
    /// whose payload is `data_len` bytes long: its acknowledgment is in
    /// range, and the receive window lets it in.
    pub open spec fn takes(self, tcph: TcpInfo, data_len: int) -> bool {
        &&& self.ack_acceptable(tcph.acknowledgment_number)
        &&& segment_acceptable(
            self.recv.nxt,
            self.recv.wnd,
            tcph.sequence_number,
            segment_len(tcph, data_len),
        )
    }

    /// What is unread once the payload `data` of a segment that was let in
    /// has arrived: what was unread before, then the part of the payload
    /// that the connection has not had before. After the peer's FIN nothing
    /// is added any more.
    pub open spec fn received(self, tcph: TcpInfo, data: Seq<u8>) -> Seq<u8> {
        if self.rcv_closed() {
            self.incoming
        } else {
            self.incoming + fresh(self.recv.nxt, tcph, data)
        }
    }

    /// The connection once the segment's acknowledgment was taken, its
    /// payload was put with the unread bytes, and its sequence numbers were
    /// consumed.
    pub open spec fn taken(self, tcph: TcpInfo, data: Seq<u8>) -> ConnectionView {
        ConnectionView {
            send: SendSequenceSpace { una: tcph.acknowledgment_number, ..self.send },
            recv: RecvSequenceSpace {
                nxt: seq_add(tcph.sequence_number, segment_len(tcph, data.len() as int)),
                ..self.recv
            },
            incoming: self.received(tcph, data),
            ..self
        }
    }

    /// What the state machine does with an acceptable segment that carries
    /// an acknowledgment, after `taken`.
    ///
    /// In `SynRcvd` the handshake is complete: the connection is established
    /// and at once closes from its side, with a FIN, which leaves it in
    /// `FinWait1`. Then a FIN of the peer ends the connection: in `FinWait2`
    /// it is acknowledged, in any other state it is not, and either way the
    /// connection is in `TimeWait`.
    ///
    /// A synchronized connection has nothing more to do with the
    /// acknowledgment: it is the oldest unacknowledged number by now, and
    /// nothing lies between a number and itself.
    pub open spec fn transition(self, tcph: TcpInfo) -> Reaction {
        let opened = if self.state == State::SynRcvd {
            Reaction {
                connection: self.with_fin().after_frame(Seq::empty()).in_state(State::FinWait1),
                reply: Some(self.with_fin().frame(Seq::empty())),
            }
        } else {
            Reaction { connection: self, reply: None }
        };
        if !tcph.fin {
            opened
        } else if opened.connection.state == State::FinWait2 {
            Reaction {
                connection: opened.connection.after_frame(Seq::empty()).in_state(State::TimeWait),
                reply: Some(opened.connection.frame(Seq::empty())),
            }
        } else {
            Reaction { connection: opened.connection.in_state(State::TimeWait), reply: opened.reply }
        }
    }

    /// What the connection does with a segment whose header is `tcph` and
    /// whose payload is `data`.
    ///
    /// An acknowledgment that is out of range ends the matter: before the
    /// handshake is complete it is answered with a reset, afterwards the
    /// segment is ignored. Otherwise the acknowledgment is taken. A segment
    /// that the receive window does not let in is answered with a frame
    /// without payload and changes nothing more. Otherwise its payload is
    /// put with the unread bytes and its sequence numbers are consumed, and
    /// where it carries the ACK flag the state machine moves as `transition`
    /// says.
    pub open spec fn on_segment(self, tcph: TcpInfo, data: Seq<u8>) -> Reaction {
        let acked = ConnectionView {
            send: SendSequenceSpace { una: tcph.acknowledgment_number, ..self.send },
            ..self
        };
        if !self.ack_acceptable(tcph.acknowledgment_number) {
            if self.state.synchronized() {
                Reaction { connection: self, reply: None }
            } else {
                Reaction {
                    connection: self.resetting().after_header_frame(Seq::empty()),
                    reply: Some(self.resetting().header_frame(Seq::empty())),
                }
            }
        } else if !self.takes(tcph, data.len() as int) {
            Reaction {
                connection: acked.after_frame(Seq::empty()),
                reply: Some(acked.frame(Seq::empty())),
            }
        } else if !tcph.ack {
            Reaction { connection: self.taken(tcph, data), reply: None }
        } else {
            self.taken(tcph, data).transition(tcph)
        }
    }
}

/// The connection that answers a SYN whose headers are `iph` and `tcph`,
/// before its first frame is built: it answers from the address and port
/// that the SYN was sent to, expects the number after the peer's, has sent
/// nothing yet, and has SYN and ACK set in its header.
pub open spec fn listening_reply(iph: IpInfo, tcph: TcpInfo) -> ConnectionView {
    ConnectionView {
        state: State::SynRcvd,
        send: SendSequenceSpace {
            iss: 0,
            una: 0,
            nxt: 0,
            wnd: 10,
            up: false,
            wl1: 0,
            wl2: 0,
        },
        recv: RecvSequenceSpace {
            irs: tcph.sequence_number,
            nxt: seq_add(tcph.sequence_number, 1),
            wnd: tcph.window_size,
            up: false,
        },
        ip: IpTemplate {
            payload_len: 0,
            time_to_live: 64,
            source: iph.destination,
            destination: iph.source,
        },
        tcp: TcpTemplate {
            source_port: tcph.destination_port,
            destination_port: tcph.source_port,
            sequence_number: 0,
            acknowledgment_number: 0,
            syn: true,
            ack: true,
            fin: false,
            rst: false,
            window_size: 10,
        },
        incoming: Seq::empty(),
        unacked: Seq::empty(),
    }
}

/// The empty segment that is expected next is always let in, whether the
/// window is open or closed.
pub proof fn lemma_next_is_acceptable(nxt: u32, wnd: u16)
    ensures
        segment_acceptable(nxt, wnd, nxt, 0),
{
}

/// A connection that has answered a SYN waits for the acknowledgment of its
/// own: it is in `SynRcvd`, its SYN and nothing else is outstanding, and it
/// takes the acknowledgment of the number after its initial one.
pub proof fn lemma_after_syn(iph: IpInfo, syn: TcpInfo)
    ensures
        ({
            let c = listening_reply(iph, syn).after_frame(Seq::empty());
            &&& c.wf()
            &&& c.state == State::SynRcvd
            &&& c.send.iss == 0
            &&& c.send.una == c.send.iss
            &&& c.send.nxt == seq_add(c.send.iss, 1)
            &&& !c.tcp.syn
            &&& c.recv.irs == syn.sequence_number
            &&& c.recv.nxt == seq_add(syn.sequence_number, 1)
            &&& c.recv.wnd == syn.window_size
            &&& c.ack_acceptable(1)
        }),
{
}

/// In `SynRcvd`, an acceptable acknowledgment on the empty segment that is
/// expected next ends the handshake: the connection closes from its side at
/// once, answers with the frame that carries its FIN, and is left in
/// `FinWait1`.
#[verifier::rlimit(30)]
pub proof fn lemma_handshake_ack(c: ConnectionView, ack: TcpInfo)
    requires
        c.state == State::SynRcvd,
        c.ack_acceptable(ack.acknowledgment_number),
        ack.sequence_number == c.recv.nxt,
        ack.ack && !ack.syn && !ack.fin,
    ensures
        c.on_segment(ack, Seq::empty()).connection == c.taken(
            ack,
            Seq::empty(),
        ).with_fin().after_frame(Seq::empty()).in_state(State::FinWait1),
        c.on_segment(ack, Seq::empty()).reply == Some(
            c.taken(ack, Seq::empty()).with_fin().frame(Seq::empty()),
        ),
        c.taken(ack, Seq::empty()).recv.nxt == c.recv.nxt,
        c.taken(ack, Seq::empty()).send.una == ack.acknowledgment_number,
        c.taken(ack, Seq::empty()).incoming == c.incoming,
{
    let none = Seq::<u8>::empty();
    let taken = c.taken(ack, none);
    assert(segment_len(ack, 0) == 0);
    assert(segment_acceptable(c.recv.nxt, c.recv.wnd, ack.sequence_number, 0)) by {
        lemma_next_is_acceptable(c.recv.nxt, c.recv.wnd);
    }
    assert(c.takes(ack, 0));
    assert(seq_add(c.recv.nxt, 0) == c.recv.nxt);
    assert(c.received(ack, none) =~= c.incoming);
    assert(c.on_segment(ack, none) == taken.transition(ack));
    assert(taken.state == State::SynRcvd);
}

/// The end of the stream is final: once the peer has sent its FIN, no
/// segment adds to what is unread, and none opens the stream again.
pub proof fn lemma_end_is_final(c: ConnectionView, tcph: TcpInfo, data: Seq<u8>)
    requires
        c.rcv_closed(),
    ensures
        c.on_segment(tcph, data).connection.rcv_closed(),
        c.on_segment(tcph, data).connection.incoming == c.incoming,
{
}

/// What arrives in order is kept whole: where a connection whose peer has
/// not sent its FIN takes a segment that starts at the number it expects
/// next, the segment's payload follows what was unread, byte for byte.
pub proof fn lemma_payload_in_order(c: ConnectionView, tcph: TcpInfo, data: Seq<u8>)
    requires
        !c.rcv_closed(),
        c.takes(tcph, data.len() as int),
        tcph.sequence_number == c.recv.nxt,
        !tcph.syn,
    ensures
        c.on_segment(tcph, data).connection.incoming == c.incoming + data,
{
    assert(fresh(c.recv.nxt, tcph, data) =~= data);
}

/// An acknowledgment that `on_segment` takes also lies between the number
/// before itself and the number after the next to send: once it is the
/// oldest unacknowledged number, the handshake needs no second test of it.
pub proof fn lemma_accepted_ack_completes_handshake(una: u32, ackn: u32, nxt: u32)
    requires
        between_wrapped(una, ackn, seq_add(nxt, 1)),
    ensures
        between_wrapped(seq_add(ackn, -1), ackn, seq_add(nxt, 1)),
{
}

/// The sequence number `n` steps after `s`.
pub fn advance(s: u32, n: u128) -> (r: u32)
    ensures
        r == seq_add(s, n as int),
{
    let low: u128 = n % 0x1_0000_0000;
    s.wrapping_add(low as u32)
}

/// How much of the sequence space the segment with header `tcph` and payload
/// `data` takes up.
pub fn segment_length(tcph: &TcpInfo, data: &[u8]) -> (slen: u128)
    ensures
        slen == segment_len(*tcph, data@.len() as int),
{
    let mut slen: u128 = data.len() as u128;
    if tcph.fin {
        slen = slen + 1;
    }
    if tcph.syn {
        slen = slen + 1;
    }
    slen
}

/// Where in `data` the bytes start that a receiver which expects `nxt` next
/// has not had before.
pub fn unread_from(nxt: u32, tcph: &TcpInfo, data: &[u8]) -> (first: usize)
    ensures
        first == stale(nxt, *tcph, data@.len() as int),
        first <= data@.len(),
{
    let behind: u128 = nxt.wrapping_sub(tcph.sequence_number) as u128;
    let lead: u128 = if tcph.syn {
        1
    } else {
        0
    };
    if behind < segment_length(tcph, data) && behind > lead {
        (behind - lead) as usize
    } else {
        0
    }
}

/// Decides whether the receive window that starts at `nxt` and is `wnd` wide
/// lets in a segment that starts at `seqn` and takes up `slen` sequence
/// numbers.
pub fn is_segment_acceptable(nxt: u32, wnd: u16, seqn: u32, slen: u128) -> (r: bool)
    ensures
        r == segment_acceptable(nxt, wnd, seqn, slen as int),
{
    let before = nxt.wrapping_sub(1);
    let wend = nxt.wrapping_add(wnd as u32);
    if slen == 0 {
        // an empty segment has rules of its own
        if wnd == 0 {
            seqn == nxt
        } else {
            is_between_wrapped(before, seqn, wend)
        }
    } else if wnd == 0 {
        false
    } else {
        is_between_wrapped(before, seqn, wend) || is_between_wrapped(
            before,
            advance(seqn, slen - 1),
            wend,
        )
    }
}

impl Connection {
    /// The invariant of a connection: that of its view.
    pub open spec fn wf(&self) -> bool {
        self@.wf()
    }

    /// Builds the frame that carries `payload` behind the headers as they
    /// stand, and moves the send sequence space past what the frame holds.
    fn emit(&mut self, payload: &[u8]) -> (r: (Vec<u8>, usize))
        requires
            old(self).wf(),
        ensures
            final(self)@ == old(self)@.after_header_frame(payload@),
            final(self).wf(),
            r.0@ == old(self)@.header_frame(payload@),
            r.1 == fitting(payload@.len() as int),
            r.0@.len() == 40 + r.1,
            r.0@.len() <= MAX_FRAME_LEN,
    {
        if payload.len() <= 65495 {
            self.ip.payload_len = (payload.len() + 20) as u16;
        }
        let mut frame = write_ipv4_header(&self.ip);
        let mut tcp_bytes = write_tcp_header(&self.tcp);
        proof {
            lemma_ipv4_header_len(self.ip, ipv4_header_checksum(self.ip));
            lemma_tcp_header_len(self.tcp);
        }
        frame.append(&mut tcp_bytes);
        let n: usize = if payload.len() <= MAX_SEGMENT_PAYLOAD {
            payload.len()
        } else {
            MAX_SEGMENT_PAYLOAD
        };
        let mut body = slice_to_vec(slice_subrange(payload, 0, n));
        frame.append(&mut body);
        let mut taken: u128 = n as u128;
        if self.tcp.syn {
            taken = taken + 1;
            self.tcp.syn = false;
        }
        if self.tcp.fin {
            taken = taken + 1;
            self.tcp.fin = false;
        }
        self.send.nxt = advance(self.send.nxt, taken);
        (frame, n)
    }

    /// Builds the frame that carries `payload` with the connection's current
    /// numbers, and moves the send sequence space past what the frame holds.
    ///
    /// Returns the frame and the number of payload bytes in it.
    pub fn write(&mut self, payload: &[u8]) -> (r: (Vec<u8>, usize))
        requires
            old(self).wf(),
        ensures
            final(self)@ == old(self)@.after_frame(payload@),
            final(self).wf(),
            r.0@ == old(self)@.frame(payload@),
            r.1 == fitting(payload@.len() as int),
            r.0@.len() == 40 + r.1,
            r.0@.len() <= MAX_FRAME_LEN,
    {
        self.tcp.sequence_number = self.send.nxt;
        self.tcp.acknowledgment_number = self.recv.nxt;
        self.emit(payload)
    }

    /// Builds a reset frame: sets the RST flag, for good, zeroes the
    /// sequence and acknowledgment numbers of the header, and builds a frame
    /// without payload from the header as it then stands.
    pub fn send_rst(&mut self) -> (frame: Vec<u8>)
        requires
            old(self).wf(),
        ensures
            final(self)@ == old(self)@.resetting().after_header_frame(Seq::empty()),
            final(self).wf(),
            frame@ == old(self)@.resetting().header_frame(Seq::empty()),
            frame@.len() == 40,
            final(self).state == old(self).state,
            final(self).recv == old(self).recv,
            final(self).send.una == old(self).send.una,
    {
        self.tcp.rst = true;
        self.tcp.sequence_number = 0;
        self.tcp.acknowledgment_number = 0;
        self.ip.payload_len = 20;
        let empty: Vec<u8> = Vec::new();
        let (frame, _) = self.emit(empty.as_slice());
        frame
    }

    /// Answers a segment that asks for a connection.
    ///
    /// A segment without SYN asks for none. For one with SYN, returns the new
    /// connection, in `SynRcvd`, and the SYN+ACK frame to send. The frame
    /// carries the initial send sequence number, and the SYN is all that is
    /// outstanding.
    pub fn accept(iph: &IpInfo, tcph: &TcpInfo, _data: &[u8]) -> (r: Option<(Connection, Vec<u8>)>)
        ensures
            r is Some <==> tcph.syn,
            r matches Some((c, frame)) ==> {
                &&& c@ == listening_reply(*iph, *tcph).after_frame(Seq::empty())
                &&& frame@ == listening_reply(*iph, *tcph).frame(Seq::empty())
                &&& c.wf()
                &&& c.state == State::SynRcvd
                &&& c.send.una == c.send.iss
                &&& c.send.nxt == seq_add(c.send.iss, 1)
                &&& !c.tcp.syn
            },
    {
        if !tcph.syn {
            // only a SYN opens a connection
            return None;
        }
        let iss = INITIAL_SEND_SEQUENCE;
        let wnd = INITIAL_WINDOW;
        let mut c = Connection {
            state: State::SynRcvd,
            send: SendSequenceSpace {
                iss,
                una: iss,
                nxt: iss,
                wnd,
                up: false,
                wl1: 0,
                wl2: 0,
            },
            recv: RecvSequenceSpace {
                irs: tcph.sequence_number,
                nxt: tcph.sequence_number.wrapping_add(1),
                wnd: tcph.window_size,
                up: false,
            },
            ip: IpTemplate {
                payload_len: 0,
                time_to_live: TIME_TO_LIVE,
                source: iph.destination,
                destination: iph.source,
            },
            tcp: TcpTemplate {
                source_port: tcph.destination_port,
                destination_port: tcph.source_port,
                sequence_number: iss,
                acknowledgment_number: 0,
                syn: true,
                ack: true,
                fin: false,
                rst: false,
                window_size: wnd,
            },
            incoming: VecDeque::new(),
            unacked: VecDeque::new(),
        };
        let empty: Vec<u8> = Vec::new();
        let (frame, _) = c.write(empty.as_slice());
        Some((c, frame))
    }

    /// Whether the peer has sent its FIN.
    pub fn is_rcv_closed(&self) -> (r: bool)
        ensures
            r == self@.rcv_closed(),
    {
        // the one state here that follows the peer's FIN
        if let State::TimeWait = self.state {
            true
        } else {
            false
        }
    }

    /// Moves the oldest unread bytes to the front of `buf`, as many as there
    /// are and `buf` has room for, and returns how many that were.
    pub fn take_incoming(&mut self, buf: &mut [u8]) -> (n: usize)
        ensures
            n == old(self)@.readable(old(buf)@.len() as int),
            final(self)@ == old(self)@.after_read(old(buf)@.len() as int),
            final(buf)@ == old(self)@.incoming.subrange(0, n as int) + old(buf)@.subrange(
                n as int,
                old(buf)@.len() as int,
            ),
    {
        let n: usize = if buf.len() <= self.incoming.len() {
            buf.len()
        } else {
            self.incoming.len()
        };
        let mut i: usize = 0;
        while i < n
            invariant
                i <= n,
                n <= old(self)@.incoming.len(),
                n <= old(buf)@.len(),
                buf@.len() == old(buf)@.len(),
                self.incoming@ == old(self)@.incoming.subrange(
                    i as int,
                    old(self)@.incoming.len() as int,
                ),
                buf@ == old(self)@.incoming.subrange(0, i as int) + old(buf)@.subrange(
                    i as int,
                    old(buf)@.len() as int,
                ),
                self.state == old(self).state,
                self.send == old(self).send,
                self.recv == old(self).recv,
                self.ip == old(self).ip,
                self.tcp == old(self).tcp,
                self.unacked@ == old(self).unacked@,
            decreases n - i,
        {
            let ghost incoming_before = self.incoming@;
            let ghost buf_before = buf@;
            let byte = self.incoming.pop_front().unwrap();
            buf[i] = byte;
            i = i + 1;
            proof {
                assert(self.incoming@ =~= old(self)@.incoming.subrange(
                    i as int,
                    old(self)@.incoming.len() as int,
                ));
                assert(buf@ =~= old(self)@.incoming.subrange(0, i as int) + old(buf)@.subrange(
                    i as int,
                    old(buf)@.len() as int,
                ));
            }
        }
        n
    }

    /// Takes bytes from the front of `data` into the buffer of
    /// unacknowledged bytes, as many as the buffer has room for, and returns
    /// how many that were.
    pub fn queue_unacked(&mut self, data: &[u8]) -> (n: usize)
        requires
            old(self).wf(),
        ensures
            final(self).wf(),
            n == old(self)@.writable(data@.len() as int),
            final(self)@ == old(self)@.after_write(data@),
    {
        let room: usize = SENDQUEUE_SIZE - self.unacked.len();
        let n: usize = if data.len() <= room {
            data.len()
        } else {
            room
        };
        let mut i: usize = 0;
        while i < n
            invariant
                i <= n,
                n <= data@.len(),
                old(self)@.unacked.len() + n <= 1024,
                self.unacked@ == old(self)@.unacked + data@.subrange(0, i as int),
                self.state == old(self).state,
                self.send == old(self).send,
                self.recv == old(self).recv,
                self.ip == old(self).ip,
                self.tcp == old(self).tcp,
                self.incoming@ == old(self).incoming@,
            decreases n - i,
        {
            self.unacked.push_back(data[i]);
            i = i + 1;
            proof {
                assert(self.unacked@ =~= old(self)@.unacked + data@.subrange(0, i as int));
            }
        }
        n
    }

    /// Decides whether `ackn` acknowledges something that was sent and not
    /// acknowledged before.
    pub fn is_ack_acceptable(&self, ackn: u32) -> (r: bool)
        ensures
            r == self@.ack_acceptable(ackn),
    {
        is_between_wrapped(self.send.una, ackn, self.send.nxt.wrapping_add(1))
    }

    /// Decides whether the connection takes the segment with header `tcph`
    /// and payload `data`.
    pub fn takes(&self, tcph: &TcpInfo, data: &[u8]) -> (r: bool)
        ensures
            r == self@.takes(*tcph, data@.len() as int),
    {
        self.is_ack_acceptable(tcph.acknowledgment_number) && is_segment_acceptable(
            self.recv.nxt,
            self.recv.wnd,
            tcph.sequence_number,
            segment_length(tcph, data),
        )
    }

    /// Puts the part of `data` that the connection has not had before with
    /// the unread bytes, unless the peer has sent its FIN.
    fn keep(&mut self, tcph: &TcpInfo, data: &[u8])
        ensures
            final(self)@ == (ConnectionView {
                incoming: old(self)@.received(*tcph, data@),
                ..old(self)@
            }),
    {
        if self.is_rcv_closed() {
            return ;
        }
        let first = unread_from(self.recv.nxt, tcph, data);
        let mut i: usize = first;
        while i < data.len()
            invariant
                first <= i <= data@.len(),
                self.incoming@ == old(self)@.incoming + data@.subrange(first as int, i as int),
                self.state == old(self).state,
                self.send == old(self).send,
                self.recv == old(self).recv,
                self.ip == old(self).ip,
                self.tcp == old(self).tcp,
                self.unacked@ == old(self).unacked@,
            decreases data@.len() - i,
        {
            self.incoming.push_back(data[i]);
            i = i + 1;
            proof {
                assert(self.incoming@ =~= old(self)@.incoming + data@.subrange(
                    first as int,
                    i as int,
                ));
            }
        }
        proof {
            assert(self.incoming@ =~= old(self)@.incoming + data@.subrange(
                first as int,
                data@.len() as int,
            ));
        }
    }

    /// Moves the state machine for an acceptable segment that carries an
    /// acknowledgment, and returns the frame to answer with, if there is one.
    fn react(&mut self, tcph: &TcpInfo) -> (reply: Option<Vec<u8>>)
        requires
            old(self).wf(),
        ensures
            final(self).wf(),
            final(self)@ == old(self)@.transition(*tcph).connection,
            reply is Some <==> old(self)@.transition(*tcph).reply is Some,
            reply matches Some(frame) ==> Some(frame@) == old(self)@.transition(*tcph).reply,
    {
        let empty: Vec<u8> = Vec::new();
        let mut reply: Option<Vec<u8>> = None;
        if let State::SynRcvd = self.state {
            // the peer has acknowledged our SYN: the connection is
            // established, and closes from this side at once
            self.state = State::Estab;
            self.tcp.fin = true;
            let (frame, _) = self.write(empty.as_slice());
            reply = Some(frame);
            self.state = State::FinWait1;
        }
        if tcph.fin {
            if let State::FinWait2 = self.state {
                // the peer is done as well
                let (frame, _) = self.write(empty.as_slice());
                reply = Some(frame);
            }
            self.state = State::TimeWait;
        }
        reply
    }

    /// Takes one segment that was sent to this connection: checks its
    /// acknowledgment and its place in the receive window, puts its payload
    /// with the unread bytes, and moves the state machine. Returns the frame
    /// to answer it with, if there is one.
    #[verifier::rlimit(30)]
    pub fn on_packet(&mut self, _iph: &IpInfo, tcph: &TcpInfo, data: &[u8]) -> (reply: Option<
        Vec<u8>,
    >)
        requires
            old(self).wf(),
        ensures
            final(self).wf(),
            final(self)@ == old(self)@.on_segment(*tcph, data@).connection,
            reply is Some <==> old(self)@.on_segment(*tcph, data@).reply is Some,
            reply matches Some(frame) ==> Some(frame@) == old(self)@.on_segment(*tcph, data@).reply,
    {
        let ackn = tcph.acknowledgment_number;
        if !self.is_ack_acceptable(ackn) {
            if !self.state.is_synchronized() {
                // nothing of ours can have been acknowledged like this
                return Some(self.send_rst());
            }
            return None;
        }
        let slen = segment_length(tcph, data);
        if !is_segment_acceptable(self.recv.nxt, self.recv.wnd, tcph.sequence_number, slen) {
            self.send.una = ackn;
            let empty: Vec<u8> = Vec::new();
            let (frame, _) = self.write(empty.as_slice());
            return Some(frame);
        }
        self.send.una = ackn;
        self.keep(tcph, data);
        self.recv.nxt = advance(tcph.sequence_number, slen);
        if !tcph.ack {
            return None;
        }
        self.react(tcph)
    }
}

} // verus!
