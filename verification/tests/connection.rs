use etherparse::{IpTrafficClass, Ipv4Header, Ipv4HeaderSlice, TcpHeader, TcpHeaderSlice};
use std::collections::VecDeque;
use trust::codec::{IpInfo, IpTemplate, TcpInfo, TcpTemplate};
use trust::tcp::{unread_from, Connection, RecvSequenceSpace, SendSequenceSpace, State};

const PEER: u32 = 0xC0A8_0002;
const LOCAL: u32 = 0xC0A8_0001;

fn ip_info() -> IpInfo {
    IpInfo { source: PEER, destination: LOCAL, protocol: 6, header_len: 20 }
}

fn segment(seq: u32, ackn: u32, syn: bool, ack: bool, fin: bool) -> TcpInfo {
    TcpInfo {
        source_port: 40000,
        destination_port: 8000,
        sequence_number: seq,
        acknowledgment_number: ackn,
        syn,
        ack,
        fin,
        rst: false,
        window_size: 10,
        header_len: 20,
    }
}

fn connection(state: State, una: u32, nxt: u32, rcv_nxt: u32, rcv_wnd: u16) -> Connection {
    Connection {
        state,
        send: SendSequenceSpace { una, nxt, wnd: 10, up: false, wl1: 0, wl2: 0, iss: 0 },
        recv: RecvSequenceSpace { nxt: rcv_nxt, wnd: rcv_wnd, up: false, irs: rcv_nxt.wrapping_sub(1) },
        ip: IpTemplate { payload_len: 0, time_to_live: 64, source: LOCAL, destination: PEER },
        tcp: TcpTemplate {
            source_port: 8000,
            destination_port: 40000,
            sequence_number: 0,
            acknowledgment_number: 0,
            syn: false,
            ack: true,
            fin: false,
            rst: false,
            window_size: 10,
        },
        incoming: VecDeque::new(),
        unacked: VecDeque::new(),
    }
}

fn tcp_of(frame: &[u8]) -> TcpHeaderSlice<'_> {
    let ip = Ipv4HeaderSlice::from_slice(frame).unwrap();
    TcpHeaderSlice::from_slice(&frame[ip.slice().len()..]).unwrap()
}

#[test]
fn is_synchronized_in_every_state_but_the_first() {
    assert!(!State::SynRcvd.is_synchronized());
    assert!(State::Estab.is_synchronized());
    assert!(State::FinWait1.is_synchronized());
    assert!(State::FinWait2.is_synchronized());
    assert!(State::TimeWait.is_synchronized());
}

#[test]
fn accept_wants_a_syn() {
    assert!(Connection::accept(&ip_info(), &segment(100, 0, false, true, false), &[]).is_none());
    assert!(Connection::accept(&ip_info(), &segment(100, 0, false, false, true), &[]).is_none());
    assert!(Connection::accept(&ip_info(), &segment(100, 0, true, false, false), &[]).is_some());
}

#[test]
fn accept_answers_with_syn_ack() {
    let (c, frame) = Connection::accept(&ip_info(), &segment(100, 0, true, false, false), &[]).unwrap();
    assert_eq!(c.state, State::SynRcvd);
    // exactly the SYN is outstanding
    assert_eq!(c.send, SendSequenceSpace { una: 0, nxt: 1, wnd: 10, up: false, wl1: 0, wl2: 0, iss: 0 });
    assert_eq!(c.send.una, c.send.iss);
    assert_eq!(c.send.nxt, c.send.iss.wrapping_add(1));
    assert_eq!(c.recv, RecvSequenceSpace { nxt: 101, wnd: 10, up: false, irs: 100 });
    assert_eq!(c.ip, IpTemplate { payload_len: 20, time_to_live: 64, source: LOCAL, destination: PEER });
    assert_eq!(
        c.tcp,
        TcpTemplate {
            source_port: 8000,
            destination_port: 40000,
            sequence_number: 0,
            acknowledgment_number: 101,
            syn: false,
            ack: true,
            fin: false,
            rst: false,
            window_size: 10,
        }
    );
    assert!(c.incoming.is_empty());
    assert!(c.unacked.is_empty());

    assert_eq!(frame.len(), 40);
    let ip = Ipv4HeaderSlice::from_slice(&frame).unwrap();
    assert_eq!(ip.source(), &[192u8, 168, 0, 1][..]);
    assert_eq!(ip.destination(), &[192u8, 168, 0, 2][..]);
    assert_eq!(ip.protocol(), 6);
    assert_eq!(ip.ttl(), 64);
    assert_eq!(ip.total_len(), 40);
    let tcp = tcp_of(&frame);
    assert!(tcp.syn() && tcp.ack() && !tcp.fin() && !tcp.rst());
    assert_eq!(tcp.acknowledgment_number(), 101);
    assert_eq!(tcp.sequence_number(), c.send.iss);
    assert_eq!(tcp.source_port(), 8000);
    assert_eq!(tcp.destination_port(), 40000);
    assert_eq!(tcp.window_size(), 10);
}

#[test]
fn accept_wraps_the_peer_sequence_number() {
    let (c, frame) =
        Connection::accept(&ip_info(), &segment(u32::MAX, 0, true, false, false), &[]).unwrap();
    assert_eq!(c.recv.irs, u32::MAX);
    assert_eq!(c.recv.nxt, 0);
    assert_eq!(tcp_of(&frame).acknowledgment_number(), 0);
}

#[test]
fn frame_bytes_are_the_two_headers() {
    let (_, frame) = Connection::accept(&ip_info(), &segment(0x0102_0304, 0, true, false, false), &[]).unwrap();
    // the IPv4 header: 0x4500 + 0x0028 + 0x4000 + 0x4006 + 0xc0a8 + 0x0001
    // + 0xc0a8 + 0x0002 is 0x24681, which folds to 0x4683, whose complement
    // is 0xb97c
    assert_eq!(
        &frame[..20],
        &[0x45, 0, 0, 40, 0, 0, 0x40, 0, 64, 6, 0xb9, 0x7c, 192, 168, 0, 1, 192, 168, 0, 2][..]
    );
    let mut ip = Ipv4Header::new(20, 64, IpTrafficClass::Tcp, [192, 168, 0, 1], [192, 168, 0, 2]);
    ip.header_checksum = 0xb97c;
    assert_eq!(Ipv4HeaderSlice::from_slice(&frame).unwrap().to_header(), ip);
    assert_eq!(ip.calc_header_checksum().unwrap(), 0xb97c);
    // the TCP header: ports, sequence number 0, acknowledgment number, data
    // offset 5, SYN and ACK, window 10, checksum and urgent pointer zero
    assert_eq!(
        &frame[20..],
        &[0x1f, 0x40, 0x9c, 0x40, 0, 0, 0, 0, 1, 2, 3, 5, 0x50, 0x12, 0, 10, 0, 0, 0, 0][..]
    );
    // and the codec reads back what was written
    let mut tcp = TcpHeader::new(8000, 40000, 0, 10);
    tcp.acknowledgment_number = 0x0102_0305;
    tcp.syn = true;
    tcp.ack = true;
    assert_eq!(tcp_of(&frame).to_header(), tcp);
}

#[test]
fn write_fills_one_frame() {
    let mut c = connection(State::Estab, 1, 5, 1000, 10);
    let payload: Vec<u8> = (0..2000u32).map(|i| (i % 251) as u8).collect();
    let (frame, n) = c.write(&payload);
    assert_eq!(n, 1460);
    assert_eq!(frame.len(), 1500);
    assert_eq!(&frame[40..], &payload[..1460]);
    assert_eq!(c.send.nxt, 5 + 1460);
    // the header declares the whole payload, not what fitted
    assert_eq!(c.ip.payload_len, 2020);
    let tcp = tcp_of(&frame);
    assert_eq!(tcp.sequence_number(), 5);
    assert_eq!(tcp.acknowledgment_number(), 1000);
}

#[test]
fn write_of_a_short_payload() {
    let mut c = connection(State::Estab, 1, u32::MAX - 1, 1000, 10);
    let (frame, n) = c.write(b"hello");
    assert_eq!(n, 5);
    assert_eq!(frame.len(), 45);
    assert_eq!(&frame[40..], b"hello");
    assert_eq!(c.send.nxt, 3);
    assert_eq!(c.ip.payload_len, 25);
    assert_eq!(Ipv4HeaderSlice::from_slice(&frame).unwrap().total_len(), 45);
}

#[test]
fn write_keeps_the_declared_length_it_cannot_replace() {
    let mut c = connection(State::Estab, 1, 5, 1000, 10);
    c.ip.payload_len = 77;
    let payload = vec![0u8; 65496];
    let (frame, n) = c.write(&payload);
    assert_eq!(n, 1460);
    assert_eq!(c.ip.payload_len, 77);
    assert_eq!(Ipv4HeaderSlice::from_slice(&frame).unwrap().total_len(), 97);
    let (_, n) = c.write(&payload[..65495]);
    assert_eq!(n, 1460);
    assert_eq!(c.ip.payload_len, 65515);
}

#[test]
fn write_sends_syn_and_fin_once() {
    let mut c = connection(State::Estab, 1, 5, 1000, 10);
    c.tcp.syn = true;
    c.tcp.fin = true;
    let (frame, n) = c.write(&[]);
    assert_eq!(n, 0);
    assert!(tcp_of(&frame).syn() && tcp_of(&frame).fin());
    assert_eq!(c.send.nxt, 7);
    assert!(!c.tcp.syn && !c.tcp.fin);
    let (frame, _) = c.write(&[]);
    assert!(!tcp_of(&frame).syn() && !tcp_of(&frame).fin());
    assert_eq!(c.send.nxt, 7);
}

#[test]
fn send_rst_sets_the_flag_for_good() {
    let mut c = connection(State::SynRcvd, 0, 2, 101, 10);
    c.tcp.sequence_number = 1;
    c.tcp.acknowledgment_number = 101;
    c.ip.payload_len = 99;
    let frame = c.send_rst();
    // a bare frame with the flag set and both numbers zero
    assert_eq!(frame.len(), 40);
    let tcp = tcp_of(&frame);
    assert!(tcp.rst() && tcp.ack() && !tcp.syn() && !tcp.fin());
    assert_eq!(tcp.sequence_number(), 0);
    assert_eq!(tcp.acknowledgment_number(), 0);
    assert_eq!(Ipv4HeaderSlice::from_slice(&frame).unwrap().total_len(), 40);
    assert!(c.tcp.rst);
    assert_eq!(c.tcp.sequence_number, 0);
    assert_eq!(c.tcp.acknowledgment_number, 0);
    assert_eq!(c.ip.payload_len, 20);
    // the sequence spaces and the state are as they were
    assert_eq!(c.send, SendSequenceSpace { una: 0, nxt: 2, wnd: 10, up: false, wl1: 0, wl2: 0, iss: 0 });
    assert_eq!(c.recv, RecvSequenceSpace { nxt: 101, wnd: 10, up: false, irs: 100 });
    assert_eq!(c.state, State::SynRcvd);
    // the flag stays, the zeroes do not
    let (frame, _) = c.write(&[]);
    assert!(tcp_of(&frame).rst());
    assert_eq!(tcp_of(&frame).sequence_number(), 2);
    assert_eq!(tcp_of(&frame).acknowledgment_number(), 101);
}

#[test]
fn unacceptable_ack_before_the_handshake_is_reset() {
    let (mut c, _) = Connection::accept(&ip_info(), &segment(100, 0, true, false, false), &[]).unwrap();
    // send.una is 0 and send.nxt is 1: 2 acknowledges what was never sent
    let reply = c.on_packet(&ip_info(), &segment(101, 2, false, true, false), b"data").unwrap();
    assert!(tcp_of(&reply).rst());
    assert_eq!(tcp_of(&reply).sequence_number(), 0);
    assert_eq!(tcp_of(&reply).acknowledgment_number(), 0);
    assert_eq!(reply.len(), 40);
    assert_eq!(c.state, State::SynRcvd);
    assert_eq!(c.send.una, 0);
    assert_eq!(c.send.nxt, 1);
    assert_eq!(c.recv.nxt, 101);
    assert!(c.incoming.is_empty());
    // as does 0, which acknowledges nothing new
    let reply = c.on_packet(&ip_info(), &segment(101, 0, false, true, false), &[]).unwrap();
    assert!(tcp_of(&reply).rst());
    assert_eq!(tcp_of(&reply).sequence_number(), 0);
    assert_eq!(tcp_of(&reply).acknowledgment_number(), 0);
}

#[test]
fn unacceptable_ack_after_the_handshake_is_ignored() {
    for state in [State::Estab, State::FinWait1, State::FinWait2, State::TimeWait] {
        let mut c = connection(state, 2, 3, 101, 10);
        assert!(c.on_packet(&ip_info(), &segment(101, 2, false, true, true), &[]).is_none());
        assert!(c.on_packet(&ip_info(), &segment(101, 4, false, true, true), &[]).is_none());
        assert_eq!(c.state, state);
        assert_eq!(c.send.una, 2);
        assert_eq!(c.recv.nxt, 101);
    }
}

#[test]
fn handshake_ack_establishes_and_closes() {
    let (mut c, _) = Connection::accept(&ip_info(), &segment(100, 0, true, false, false), &[]).unwrap();
    let reply = c.on_packet(&ip_info(), &segment(101, 1, false, true, false), &[]).unwrap();
    assert_eq!(c.state, State::FinWait1);
    assert_eq!(c.send.una, 1);
    assert_eq!(c.send.nxt, 2);
    assert_eq!(c.recv.nxt, 101);
    let tcp = tcp_of(&reply);
    assert!(tcp.fin() && tcp.ack() && !tcp.syn() && !tcp.rst());
    assert_eq!(tcp.sequence_number(), 1);
    assert_eq!(tcp.acknowledgment_number(), 101);
    assert!(!c.tcp.fin);
}

#[test]
fn segment_acceptance_boundary() {
    // recv.nxt = 1000, recv.wnd = 10
    let mut c = connection(State::FinWait1, 1, 3, 1000, 10);
    assert!(c.on_packet(&ip_info(), &segment(1000, 2, false, true, false), &[]).is_none());
    assert_eq!(c.recv.nxt, 1000);
    assert_eq!(c.send.una, 2);

    let mut c = connection(State::FinWait1, 1, 3, 1000, 10);
    let reply = c.on_packet(&ip_info(), &segment(1011, 2, false, true, false), &[]).unwrap();
    let tcp = tcp_of(&reply);
    assert!(tcp.ack() && !tcp.syn() && !tcp.fin() && !tcp.rst());
    assert_eq!(tcp.sequence_number(), 3);
    assert_eq!(tcp.acknowledgment_number(), 1000);
    assert_eq!(reply.len(), 40);
    assert_eq!(c.recv.nxt, 1000);
    assert_eq!(c.state, State::FinWait1);
    assert_eq!(c.send.una, 2);

    // first byte 995, last byte 1000
    let mut c = connection(State::FinWait1, 1, 3, 1000, 10);
    assert!(c.on_packet(&ip_info(), &segment(995, 2, false, true, false), b"abcdef").is_none());
    assert_eq!(c.recv.nxt, 1001);
    // of which the last byte is new
    assert_eq!(c.incoming, b"f".iter().copied().collect::<VecDeque<u8>>());

    // first byte 995, last byte 999
    let mut c = connection(State::FinWait1, 1, 3, 1000, 10);
    assert!(c.on_packet(&ip_info(), &segment(995, 2, false, true, false), b"abcde").is_some());
    assert_eq!(c.recv.nxt, 1000);
    assert!(c.incoming.is_empty());
}

#[test]
fn syn_and_fin_take_one_sequence_number_each() {
    let mut c = connection(State::FinWait1, 1, 3, 1000, 10);
    assert!(c.on_packet(&ip_info(), &segment(1000, 2, true, false, false), &[1, 2, 3]).is_none());
    assert_eq!(c.recv.nxt, 1004);
    assert_eq!(c.incoming, VecDeque::from(vec![1u8, 2, 3]));
    let mut c = connection(State::FinWait1, 1, 3, 1000, 10);
    assert!(c.on_packet(&ip_info(), &segment(1000, 2, true, false, true), &[]).is_none());
    assert_eq!(c.recv.nxt, 1002);
    // without the ACK flag the state stays as it is, FIN or not
    assert_eq!(c.state, State::FinWait1);
}

#[test]
fn closed_window_lets_in_the_next_empty_segment_only() {
    let mut c = connection(State::FinWait1, 1, 3, 1000, 0);
    assert!(c.on_packet(&ip_info(), &segment(1000, 2, false, true, false), &[]).is_none());
    let mut c = connection(State::FinWait1, 1, 3, 1000, 0);
    assert!(c.on_packet(&ip_info(), &segment(1001, 2, false, true, false), &[]).is_some());
    let mut c = connection(State::FinWait1, 1, 3, 1000, 0);
    assert!(c.on_packet(&ip_info(), &segment(1000, 2, false, true, false), &[9]).is_some());
    assert_eq!(c.recv.nxt, 1000);
    assert!(c.incoming.is_empty());
}

#[test]
fn fin_in_fin_wait_2_is_acknowledged() {
    let mut c = connection(State::FinWait2, 2, 3, 1000, 10);
    let reply = c.on_packet(&ip_info(), &segment(1000, 3, false, true, true), &[]).unwrap();
    assert_eq!(c.state, State::TimeWait);
    assert_eq!(c.recv.nxt, 1001);
    assert_eq!(c.send.una, 3);
    let tcp = tcp_of(&reply);
    assert!(tcp.ack() && !tcp.fin() && !tcp.syn() && !tcp.rst());
    assert_eq!(tcp.acknowledgment_number(), 1001);
    assert_eq!(tcp.sequence_number(), 3);
    assert!(c.is_rcv_closed());
}

#[test]
fn fin_in_another_state_ends_the_connection_unanswered() {
    for state in [State::Estab, State::FinWait1, State::TimeWait] {
        let mut c = connection(state, 2, 3, 1000, 10);
        assert!(c.on_packet(&ip_info(), &segment(1000, 3, false, true, true), &[]).is_none());
        assert_eq!(c.state, State::TimeWait);
        assert_eq!(c.recv.nxt, 1001);
    }
    // with the handshake's ACK the answer is our own FIN
    let (mut c, _) = Connection::accept(&ip_info(), &segment(100, 0, true, false, false), &[]).unwrap();
    let reply = c.on_packet(&ip_info(), &segment(101, 1, false, true, true), &[]).unwrap();
    assert!(tcp_of(&reply).fin());
    assert_eq!(c.state, State::TimeWait);
    assert_eq!(c.recv.nxt, 102);
}

#[test]
fn without_fin_a_synchronized_connection_stays() {
    for state in [State::Estab, State::FinWait1, State::FinWait2, State::TimeWait] {
        let mut c = connection(state, 2, 3, 1000, 10);
        assert!(c.on_packet(&ip_info(), &segment(1000, 3, false, true, false), &[]).is_none());
        assert_eq!(c.state, state);
        assert_eq!(c.send.una, 3);
        assert!(c.is_rcv_closed() == (state == State::TimeWait));
    }
}

#[test]
fn take_incoming_is_first_in_first_out() {
    let mut c = connection(State::Estab, 1, 3, 1000, 10);
    c.incoming.extend(b"abcdefg".iter().copied());
    let mut buf = [0u8; 3];
    assert_eq!(c.take_incoming(&mut buf), 3);
    assert_eq!(&buf, b"abc");
    let mut buf = [b'-'; 6];
    assert_eq!(c.take_incoming(&mut buf), 4);
    assert_eq!(&buf, b"defg--");
    assert_eq!(c.take_incoming(&mut buf), 0);
    assert_eq!(&buf, b"defg--");
    assert!(c.incoming.is_empty());
}

#[test]
fn queue_unacked_stops_at_the_bound() {
    let mut c = connection(State::Estab, 1, 3, 1000, 10);
    assert_eq!(c.queue_unacked(&[7; 1000]), 1000);
    assert_eq!(c.queue_unacked(&[8; 100]), 24);
    assert_eq!(c.unacked.len(), 1024);
    assert_eq!(c.unacked[999], 7);
    assert_eq!(c.unacked[1000], 8);
    assert_eq!(c.queue_unacked(&[9; 1]), 0);
    assert_eq!(c.unacked.len(), 1024);
}

#[test]
fn payload_in_order_is_kept_whole() {
    let mut c = connection(State::FinWait1, 1, 3, 1000, 10);
    assert!(c.on_packet(&ip_info(), &segment(1000, 2, false, true, false), b"hello").is_none());
    assert_eq!(c.recv.nxt, 1005);
    // the next one acknowledges more, and follows
    c.send.nxt = 4;
    assert!(c.on_packet(&ip_info(), &segment(1005, 3, false, false, false), b", world").is_none());
    assert_eq!(c.recv.nxt, 1012);
    assert_eq!(c.incoming, b"hello, world".iter().copied().collect::<VecDeque<u8>>());
    let mut buf = [0u8; 32];
    assert_eq!(c.take_incoming(&mut buf), 12);
    assert_eq!(&buf[..12], b"hello, world");
}

#[test]
fn payload_that_was_had_before_is_left_out() {
    // three bytes before the next expected one, two from it on
    let mut c = connection(State::Estab, 1, 3, 1000, 10);
    assert!(c.on_packet(&ip_info(), &segment(997, 2, false, true, false), b"abcde").is_none());
    assert_eq!(c.incoming, b"de".iter().copied().collect::<VecDeque<u8>>());
    assert_eq!(c.recv.nxt, 1002);
    // a SYN takes the first number, the payload the ones behind it
    let mut c = connection(State::Estab, 1, 3, 1000, 10);
    assert!(c.on_packet(&ip_info(), &segment(997, 2, true, true, false), b"abcde").is_none());
    assert_eq!(c.incoming, b"cde".iter().copied().collect::<VecDeque<u8>>());
    assert_eq!(c.recv.nxt, 1003);
    // the FIN is all that is new
    let mut c = connection(State::Estab, 1, 3, 1000, 10);
    assert!(c.on_packet(&ip_info(), &segment(995, 2, false, false, true), b"abcde").is_none());
    assert!(c.incoming.is_empty());
    assert_eq!(c.recv.nxt, 1001);
    // across the wraparound
    let mut c = connection(State::Estab, 1, 3, 2, 10);
    assert!(c.on_packet(&ip_info(), &segment(u32::MAX - 1, 2, false, true, false), b"abcde").is_none());
    assert_eq!(c.incoming, b"e".iter().copied().collect::<VecDeque<u8>>());
    assert_eq!(c.recv.nxt, 3);
}

#[test]
fn payload_behind_a_gap_is_kept_whole() {
    let mut c = connection(State::Estab, 1, 3, 1000, 10);
    assert!(c.on_packet(&ip_info(), &segment(1004, 2, false, true, false), b"abc").is_none());
    assert_eq!(c.incoming, b"abc".iter().copied().collect::<VecDeque<u8>>());
    assert_eq!(c.recv.nxt, 1007);
}

#[test]
fn nothing_arrives_after_the_end() {
    let mut c = connection(State::FinWait2, 2, 3, 1000, 10);
    // the payload that comes with the FIN still counts
    assert!(c.on_packet(&ip_info(), &segment(1000, 3, false, true, true), b"last").is_some());
    assert_eq!(c.state, State::TimeWait);
    assert_eq!(c.incoming, b"last".iter().copied().collect::<VecDeque<u8>>());
    assert_eq!(c.recv.nxt, 1005);
    // what comes later does not
    c.send.nxt = 4;
    assert!(c.on_packet(&ip_info(), &segment(1005, 4, false, true, false), b"more").is_none());
    assert_eq!(c.state, State::TimeWait);
    assert_eq!(c.incoming, b"last".iter().copied().collect::<VecDeque<u8>>());
    assert_eq!(c.recv.nxt, 1009);
}

#[test]
fn takes_what_on_packet_takes() {
    let c = connection(State::FinWait1, 1, 3, 1000, 10);
    assert!(c.takes(&segment(1000, 2, false, true, false), &[]));
    assert!(c.takes(&segment(995, 2, false, true, false), &[0; 6]));
    // the acknowledgment is out of range
    assert!(!c.takes(&segment(1000, 1, false, true, false), &[]));
    assert!(!c.takes(&segment(1000, 4, false, true, false), &[]));
    // the window does not let it in
    assert!(!c.takes(&segment(1011, 2, false, true, false), &[]));
    assert!(!c.takes(&segment(995, 2, false, true, false), &[0; 5]));
}

#[test]
fn unread_from_skips_what_lies_before() {
    let plain = segment(997, 0, false, true, false);
    assert_eq!(unread_from(1000, &plain, b"abcde"), 3);
    assert_eq!(unread_from(997, &plain, b"abcde"), 0);
    assert_eq!(unread_from(1001, &plain, b"abcde"), 4);
    // the segment ends before the number
    assert_eq!(unread_from(1002, &plain, b"abcde"), 0);
    // the segment starts behind the number
    assert_eq!(unread_from(990, &plain, b"abcde"), 0);
    let with_syn = segment(997, 0, true, true, false);
    assert_eq!(unread_from(1000, &with_syn, b"abcde"), 2);
    assert_eq!(unread_from(998, &with_syn, b"abcde"), 0);
    assert_eq!(unread_from(997, &with_syn, b"abcde"), 0);
    let with_fin = segment(997, 0, false, true, true);
    assert_eq!(unread_from(1002, &with_fin, b"abcde"), 5);
    assert_eq!(unread_from(1003, &with_fin, b"abcde"), 0);
}
