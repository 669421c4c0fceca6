//! The connection table: every live connection under its quad, and for each
//! listening port the connections that nobody has claimed yet.
//!
//! The table is one value that its users share behind one lock. Each function
//! here is one step taken under that lock; none of them waits.

use crate::codec::{
    ip_info_of, ipv4_header, ipv4_header_bytes, ipv4_header_checksum, lemma_ipv4_header_len,
    lemma_ipv4_header_round_trip, lemma_tcp_header_len, lemma_tcp_header_round_trip,
    read_ipv4_header, read_tcp_header, tcp_header, tcp_header_bytes, tcp_info_of, IpInfo, TcpInfo,
    PROTOCOL_TCP,
};
use crate::tcp::{
    lemma_after_syn, lemma_handshake_ack, listening_reply, seq_add, Connection, ConnectionView,
    Quad, State, SENDQUEUE_SIZE,
};
use crate::TcpListener;
use std::collections::HashMap;
use std::collections::VecDeque;
use vstd::prelude::*;
use vstd::slice::slice_subrange;

verus! {

broadcast use vstd::std_specs::hash::group_hash_axioms;

/// Why an operation on a listener or a stream did not go through.
#[derive(Clone, Copy, Debug, PartialEq, Eq, Structural)]
pub enum TcpError {
    /// The port is bound already.
    AddrInUse,
    /// The connection of the stream is no longer in the table.
    ConnectionAborted,
    /// The operation cannot go through now, and may later.
    WouldBlock,
}

/// A received frame taken apart.
#[derive(Clone, Copy, Debug, PartialEq, Eq, Structural)]
pub struct Segment {
    pub ip: IpInfo,
    pub tcp: TcpInfo,
    /// Where in the frame the payload starts.
    pub payload_at: usize,
}

/// Why a received frame holds no segment.
#[derive(Clone, Copy, Debug, PartialEq, Eq, Structural)]
pub enum FrameError {
    /// It does not start with an IPv4 header.
    BadIpHeader,
    /// It carries another protocol than TCP.
    NotTcp,
    /// No TCP header follows the IPv4 header.
    BadTcpHeader,
}

/// What became of a received frame.
#[derive(Debug)]
pub enum Dispatch {
    /// The frame held no segment, and was dropped.
    Malformed(FrameError),
    /// The segment belongs to no connection and opens none, and was dropped.
    Unclaimed,
    /// The segment went to the connection named, which did not take it: it
    /// answers with the frame given, a reset or a bare acknowledgment, if
    /// with any. Nothing depends on that frame reaching the peer.
    Refused(Quad, Option<Vec<u8>>),
    /// The segment went to the connection named, which took it and answers
    /// with the frame given, if with any. Whoever waits to read or write may
    /// look again.
    Delivered(Quad, Option<Vec<u8>>),
    /// The segment opened the connection named, which answers with the frame
    /// given and now waits to be claimed. Whoever waits to accept may look
    /// again.
    Opened(Quad, Vec<u8>),
}

/// What became of a received frame, as a mathematical value.
pub enum DispatchView {
    Malformed(FrameError),
    Unclaimed,
    Refused(Quad, Option<Seq<u8>>),
    Delivered(Quad, Option<Seq<u8>>),
    Opened(Quad, Seq<u8>),
}

impl View for Dispatch {
    type V = DispatchView;

    open spec fn view(&self) -> DispatchView {
        match *self {
            Dispatch::Malformed(e) => DispatchView::Malformed(e),
            Dispatch::Unclaimed => DispatchView::Unclaimed,
            Dispatch::Refused(quad, None) => DispatchView::Refused(quad, None),
            Dispatch::Refused(quad, Some(frame)) => DispatchView::Refused(quad, Some(frame@)),
            Dispatch::Delivered(quad, None) => DispatchView::Delivered(quad, None),
            Dispatch::Delivered(quad, Some(frame)) => DispatchView::Delivered(quad, Some(frame@)),
            Dispatch::Opened(quad, frame) => DispatchView::Opened(quad, frame@),
        }
    }
}

/// The segment that `frame` holds: an IPv4 header that names TCP as its
/// protocol, then a TCP header, then the payload.
pub open spec fn dissected(frame: Seq<u8>) -> Result<Segment, FrameError> {
    match ipv4_header(frame) {
        None => Err(FrameError::BadIpHeader),
        Some(ip) => if ip.protocol != 6 {
            Err(FrameError::NotTcp)
        } else {
            match tcp_header(frame.subrange(ip.header_len as int, frame.len() as int)) {
                None => Err(FrameError::BadTcpHeader),
                Some(tcp) => Ok(
                    Segment { ip, tcp, payload_at: (ip.header_len + tcp.header_len) as usize },
                ),
            }
        },
    }
}

/// The connection that a segment belongs to.
pub open spec fn quad_of(seg: Segment) -> Quad {
    Quad {
        src: (seg.ip.source, seg.tcp.source_port),
        dst: (seg.ip.destination, seg.tcp.destination_port),
    }
}

/// The payload of the segment `seg` that `frame` holds.
pub open spec fn payload_of(frame: Seq<u8>, seg: Segment) -> Seq<u8> {
    frame.subrange(seg.payload_at as int, frame.len() as int)
}

/// Takes a received frame apart.
pub fn dissect(frame: &[u8]) -> (r: Result<Segment, FrameError>)
    ensures
        r == dissected(frame@),
        r matches Ok(seg) ==> seg.ip.header_len <= seg.payload_at <= frame@.len(),
{
    let ip = match read_ipv4_header(frame) {
        Some(ip) => ip,
        None => {
            return Err(FrameError::BadIpHeader);
        },
    };
    if ip.protocol != PROTOCOL_TCP {
        return Err(FrameError::NotTcp);
    }
    let rest = slice_subrange(frame, ip.header_len, frame.len());
    match read_tcp_header(rest) {
        Some(tcp) => Ok(Segment { ip, tcp, payload_at: ip.header_len + tcp.header_len }),
        None => Err(FrameError::BadTcpHeader),
    }
}

/// The queue `s` without the connection `q`, the others in their order.
pub open spec fn without(s: Seq<Quad>, q: Quad) -> Seq<Quad> {
    if s.contains(q) {
        s.remove(s.index_of(q))
    } else {
        s
    }
}

/// A queue without `q` holds what it held before except `q`, and no
/// connection twice if it held none twice.
proof fn lemma_without(s: Seq<Quad>, q: Quad)
    requires
        s.no_duplicates(),
    ensures
        without(s, q).no_duplicates(),
        !without(s, q).contains(q),
        forall|x: Quad| #[trigger] without(s, q).contains(x) ==> s.contains(x),
{
    let w = without(s, q);
    if s.contains(q) {
        let at = s.index_of(q);
        assert(0 <= at < s.len() && s[at] == q);
        assert forall|i: int| 0 <= i < w.len() implies w[i] == s[if i < at {
            i
        } else {
            i + 1
        }] by {}
        assert forall|i: int, j: int| 0 <= i < w.len() && 0 <= j < w.len() && i != j implies w[i]
            != w[j] by {
            let a = if i < at { i } else { i + 1 };
            let b = if j < at { j } else { j + 1 };
            assert(w[i] == s[a] && w[j] == s[b]);
        }
        assert forall|i: int| 0 <= i < w.len() implies w[i] != q by {
            let a = if i < at { i } else { i + 1 };
            assert(w[i] == s[a]);
        }
        assert forall|x: Quad| #[trigger] w.contains(x) implies s.contains(x) by {
            let i = choose|i: int| 0 <= i < w.len() && w[i] == x;
            let a = if i < at { i } else { i + 1 };
            assert(s[a] == x);
        }
    }
}

/// Takes the connection `quad` out of `queue`, where it waits there.
fn leave_queue(queue: &mut VecDeque<Quad>, quad: &Quad)
    requires
        old(queue)@.no_duplicates(),
    ensures
        final(queue)@ == without(old(queue)@, *quad),
{
    let key = quad.key();
    let mut i: usize = 0;
    while i < queue.len()
        invariant
            i <= queue@.len(),
            queue@ == old(queue)@,
            queue@.no_duplicates(),
            key == quad.key_of(),
            forall|j: int| 0 <= j < i ==> queue@[j] != *quad,
        decreases queue@.len() - i,
    {
        if queue[i].key() == key {
            proof {
                Quad::lemma_key_injective(queue@[i as int], *quad);
                assert(queue@.contains(*quad));
                assert(queue@.index_of(*quad) == i);
            }
            queue.remove(i);
            return ;
        }
        i = i + 1;
    }
    proof {
        assert(!queue@.contains(*quad));
    }
}

/// The connection table.
pub struct ConnectionManager {
    terminate: bool,
    connections: HashMap<u128, Connection>,
    pending: HashMap<u16, VecDeque<Quad>>,
}

/// The connection table as a mathematical value.
pub struct ManagerView {
    /// Whether the table's users were told to stop.
    pub terminate: bool,
    /// The live connections.
    pub connections: Map<Quad, ConnectionView>,
    /// For each bound port its unclaimed connections, oldest first.
    pub pending: Map<u16, Seq<Quad>>,
}

impl ManagerView {
    /// Every connection is well formed; every unclaimed connection is in the
    /// table and waits at the port that it was opened to; and none waits
    /// twice.
    pub open spec fn wf(self) -> bool {
        &&& forall|q: Quad| self.connections.contains_key(q) ==> #[trigger] self.connections[q].wf()
        &&& forall|p: u16, i: int|
            self.pending.contains_key(p) && 0 <= i < self.pending[p].len() ==> {
                &&& self.connections.contains_key(#[trigger] self.pending[p][i])
                &&& self.pending[p][i].dst.1 == p
            }
        &&& forall|p: u16|
            self.pending.contains_key(p) ==> #[trigger] self.pending[p].no_duplicates()
    }

    /// The table with `port` newly bound.
    pub open spec fn bound(self, port: u16) -> ManagerView {
        ManagerView { pending: self.pending.insert(port, Seq::empty()), ..self }
    }

    /// The table once the oldest unclaimed connection at `port` was claimed.
    pub open spec fn claimed(self, port: u16) -> ManagerView {
        ManagerView { pending: self.pending.insert(port, self.pending[port].drop_first()), ..self }
    }

    /// The table once the segment `seg` with the payload `data` has gone to
    /// the connection `q`.
    pub open spec fn delivered(self, q: Quad, seg: Segment, data: Seq<u8>) -> ManagerView {
        ManagerView {
            connections: self.connections.insert(
                q,
                self.connections[q].on_segment(seg.tcp, data).connection,
            ),
            ..self
        }
    }

    /// The table once the SYN `seg` has opened the connection `q`: the
    /// connection is in the table, and waits at its port behind those that
    /// waited there before.
    pub open spec fn opened(self, q: Quad, seg: Segment) -> ManagerView {
        ManagerView {
            connections: self.connections.insert(
                q,
                listening_reply(seg.ip, seg.tcp).after_frame(Seq::empty()),
            ),
            pending: self.pending.insert(q.dst.1, self.pending[q.dst.1].push(q)),
            ..self
        }
    }

    /// Whether the segment `seg` opens a connection: none has its quad, it
    /// carries SYN, and its port is bound.
    pub open spec fn opens(self, seg: Segment) -> bool {
        &&& !self.connections.contains_key(quad_of(seg))
        &&& self.pending.contains_key(seg.tcp.destination_port)
        &&& seg.tcp.syn
    }

    /// What a reader of the connection `q` gets, with room for `room` bytes.
    ///
    /// `ConnectionAborted` where the connection is not in the table. Else
    /// the number of bytes read: as many unread bytes as there is room for
    /// where any are unread, and none where nothing is unread and the peer
    /// has sent its FIN. `None` where nothing is unread and more may come:
    /// the reader has to wait.
    pub open spec fn read_outcome(self, q: Quad, room: int) -> Result<Option<usize>, TcpError> {
        if !self.connections.contains_key(q) {
            Err(TcpError::ConnectionAborted)
        } else if self.connections[q].incoming.len() > 0 {
            Ok(Some(self.connections[q].readable(room) as usize))
        } else if self.connections[q].rcv_closed() {
            Ok(Some(0usize))
        } else {
            Ok(None)
        }
    }

    /// The table once a reader of the connection `q` with room for `room`
    /// bytes has read.
    pub open spec fn after_read(self, q: Quad, room: int) -> ManagerView {
        if self.connections.contains_key(q) {
            ManagerView {
                connections: self.connections.insert(q, self.connections[q].after_read(room)),
                ..self
            }
        } else {
            self
        }
    }

    /// What a writer of `len` bytes to the connection `q` gets.
    ///
    /// `ConnectionAborted` where the connection is not in the table, and
    /// `WouldBlock` where its buffer of unacknowledged bytes is full. Else
    /// the number of bytes that the buffer had room for.
    pub open spec fn write_outcome(self, q: Quad, len: int) -> Result<usize, TcpError> {
        if !self.connections.contains_key(q) {
            Err(TcpError::ConnectionAborted)
        } else if self.connections[q].unacked.len() >= SENDQUEUE_SIZE {
            Err(TcpError::WouldBlock)
        } else {
            Ok(self.connections[q].writable(len) as usize)
        }
    }

    /// The table once a writer has handed `data` to the connection `q`.
    pub open spec fn after_write(self, q: Quad, data: Seq<u8>) -> ManagerView {
        if self.connections.contains_key(q) {
            ManagerView {
                connections: self.connections.insert(q, self.connections[q].after_write(data)),
                ..self
            }
        } else {
            self
        }
    }

    /// What flushing the connection `q` gives: `ConnectionAborted` where it
    /// is not in the table, `WouldBlock` where bytes of it are still
    /// unacknowledged.
    pub open spec fn flush_outcome(self, q: Quad) -> Result<(), TcpError> {
        if !self.connections.contains_key(q) {
            Err(TcpError::ConnectionAborted)
        } else if self.connections[q].unacked.len() == 0 {
            Ok(())
        } else {
            Err(TcpError::WouldBlock)
        }
    }

    /// The table once the connection `q` was closed: it has left the table,
    /// and its port's queue as well if it still waited there.
    pub open spec fn closed(self, q: Quad) -> ManagerView {
        ManagerView {
            connections: self.connections.remove(q),
            pending: if self.pending.contains_key(q.dst.1) {
                self.pending.insert(q.dst.1, without(self.pending[q.dst.1], q))
            } else {
                self.pending
            },
            ..self
        }
    }

    /// The frame that closing the connection `q` sends: its FIN, where the
    /// connection is in the table.
    pub open spec fn closing_frame(self, q: Quad) -> Option<Seq<u8>> {
        if self.connections.contains_key(q) {
            Some(self.connections[q].with_fin().frame(Seq::empty()))
        } else {
            None
        }
    }

    /// The table once `port` was unbound: the port is bound no more, and the
    /// connections that waited at it have left the table.
    pub open spec fn unbound(self, port: u16) -> ManagerView {
        if self.pending.contains_key(port) {
            ManagerView {
                connections: self.connections.remove_keys(self.pending[port].to_set()),
                pending: self.pending.remove(port),
                ..self
            }
        } else {
            self
        }
    }

    /// The table after `frame` was received.
    ///
    /// A frame that holds no segment changes nothing. A segment of a live
    /// connection goes to that connection. Any other segment opens a
    /// connection where it can, and else changes nothing.
    pub open spec fn received(self, frame: Seq<u8>) -> ManagerView {
        match dissected(frame) {
            Err(_) => self,
            Ok(seg) => if self.connections.contains_key(quad_of(seg)) {
                self.delivered(quad_of(seg), seg, payload_of(frame, seg))
            } else if self.opens(seg) {
                self.opened(quad_of(seg), seg)
            } else {
                self
            },
        }
    }

    /// What becomes of `frame` when it is received.
    pub open spec fn dispatch(self, frame: Seq<u8>) -> DispatchView {
        match dissected(frame) {
            Err(e) => DispatchView::Malformed(e),
            Ok(seg) => if self.connections.contains_key(quad_of(seg)) {
                let c = self.connections[quad_of(seg)];
                let data = payload_of(frame, seg);
                if c.takes(seg.tcp, data.len() as int) {
                    DispatchView::Delivered(quad_of(seg), c.on_segment(seg.tcp, data).reply)
                } else {
                    DispatchView::Refused(quad_of(seg), c.on_segment(seg.tcp, data).reply)
                }
            } else if self.opens(seg) {
                DispatchView::Opened(
                    quad_of(seg),
                    listening_reply(seg.ip, seg.tcp).frame(Seq::empty()),
                )
            } else {
                DispatchView::Unclaimed
            },
        }
    }
}

/// The connections of a table under their quads.
spec fn table_view(m: Map<u128, Connection>) -> Map<Quad, ConnectionView> {
    Map::new(|q: Quad| m.contains_key(q.key_of()), |q: Quad| m[q.key_of()]@)
}

/// The queues of a table as sequences.
spec fn queues_view(m: Map<u16, VecDeque<Quad>>) -> Map<u16, Seq<Quad>> {
    Map::new(|p: u16| m.contains_key(p), |p: u16| m[p]@)
}

/// Putting a connection under a quad's number puts it under the quad.
proof fn lemma_table_insert(m: Map<u128, Connection>, q: Quad, c: Connection)
    ensures
        table_view(m.insert(q.key_of(), c)) == table_view(m).insert(q, c@),
{
    assert forall|q2: Quad| q2.key_of() == q.key_of() implies q2 == q by {
        Quad::lemma_key_injective(q2, q);
    }
    assert(table_view(m.insert(q.key_of(), c)) =~= table_view(m).insert(q, c@));
}

/// Taking out what is under a quad's number takes out the quad.
proof fn lemma_table_remove(m: Map<u128, Connection>, q: Quad)
    ensures
        table_view(m.remove(q.key_of())) == table_view(m).remove(q),
{
    assert forall|q2: Quad| q2.key_of() == q.key_of() implies q2 == q by {
        Quad::lemma_key_injective(q2, q);
    }
    assert(table_view(m.remove(q.key_of())) =~= table_view(m).remove(q));
}

/// Putting a queue under a port puts its sequence under the port.
proof fn lemma_queues_insert(m: Map<u16, VecDeque<Quad>>, p: u16, d: VecDeque<Quad>)
    ensures
        queues_view(m.insert(p, d)) == queues_view(m).insert(p, d@),
{
    assert(queues_view(m.insert(p, d)) =~= queues_view(m).insert(p, d@));
}

/// Taking out a port's queue takes out its sequence.
proof fn lemma_queues_remove(m: Map<u16, VecDeque<Quad>>, p: u16)
    ensures
        queues_view(m.remove(p)) == queues_view(m).remove(p),
{
    assert(queues_view(m.remove(p)) =~= queues_view(m).remove(p));
}

impl View for ConnectionManager {
    type V = ManagerView;

    closed spec fn view(&self) -> ManagerView {
        ManagerView {
            terminate: self.terminate,
            connections: table_view(self.connections@),
            pending: queues_view(self.pending@),
        }
    }
}

impl ConnectionManager {
    /// The invariant of the table: that of its view.
    pub open spec fn wf(&self) -> bool {
        self@.wf()
    }

    /// An empty table: no connection, no bound port.
    pub fn new() -> (cm: ConnectionManager)
        ensures
            cm.wf(),
            cm@.terminate == false,
            cm@.connections == Map::<Quad, ConnectionView>::empty(),
            cm@.pending == Map::<u16, Seq<Quad>>::empty(),
    {
        let cm = ConnectionManager {
            terminate: false,
            connections: HashMap::new(),
            pending: HashMap::new(),
        };
        assert(cm@.connections =~= Map::<Quad, ConnectionView>::empty());
        assert(cm@.pending =~= Map::<u16, Seq<Quad>>::empty());
        cm
    }

    /// Binds `port`: from now on a SYN sent to it opens a connection.
    ///
    /// Fails with `AddrInUse`, and changes nothing, where the port is bound
    /// already.
    pub fn bind(&mut self, port: u16) -> (r: Result<TcpListener, TcpError>)
        requires
            old(self).wf(),
        ensures
            final(self).wf(),
            old(self)@.pending.contains_key(port) ==> r == Err::<TcpListener, TcpError>(
                TcpError::AddrInUse,
            ) && final(self)@ == old(self)@,
            !old(self)@.pending.contains_key(port) ==> r == Ok::<TcpListener, TcpError>(
                TcpListener { port },
            ) && final(self)@ == old(self)@.bound(port),
    {
        if self.pending.contains_key(&port) {
            return Err(TcpError::AddrInUse);
        }
        self.pending.insert(port, VecDeque::new());
        proof {
            assert(self@.pending =~= old(self)@.pending.insert(port, Seq::empty()));
            assert(self@.connections =~= old(self)@.connections);
        }
        Ok(TcpListener { port })
    }

    /// Claims the oldest unclaimed connection at `port`, if there is one.
    pub fn claim(&mut self, port: u16) -> (r: Option<Quad>)
        requires
            old(self).wf(),
            old(self)@.pending.contains_key(port),
        ensures
            final(self).wf(),
            old(self)@.pending[port].len() == 0 ==> r is None && final(self)@ == old(self)@,
            old(self)@.pending[port].len() > 0 ==> r == Some(old(self)@.pending[port][0])
                && final(self)@ == old(self)@.claimed(port),
    {
        let taken = self.pending.remove(&port);
        let mut queue = taken.unwrap();
        let front = queue.pop_front();
        self.pending.insert(port, queue);
        proof {
            let before = old(self)@;
            let after = self@;
            assert(after.connections =~= before.connections);
            if front is Some {
                let q0 = before.pending[port];
                let q1 = q0.drop_first();
                assert(after.pending =~= before.claimed(port).pending);
                assert forall|i: int| 0 <= i < q1.len() implies q1[i] == q0[i + 1] by {}
                assert(q0.no_duplicates());
                assert forall|i: int, j: int|
                    0 <= i < q1.len() && 0 <= j < q1.len() && i != j implies q1[i] != q1[j] by {
                    assert(q1[i] == q0[i + 1] && q1[j] == q0[j + 1]);
                }
                assert(q1.no_duplicates());
            } else {
                assert(after.pending =~= before.pending);
            }
        }
        front
    }

    /// Hands a segment to the connection `quad`, which is in the table.
    fn deliver(&mut self, quad: Quad, seg: &Segment, data: &[u8]) -> (reply: Option<Vec<u8>>)
        requires
            old(self).wf(),
            old(self)@.connections.contains_key(quad),
        ensures
            final(self).wf(),
            final(self)@ == old(self)@.delivered(quad, *seg, data@),
            reply is Some <==> old(self)@.connections[quad].on_segment(seg.tcp, data@).reply
                is Some,
            reply matches Some(frame) ==> Some(frame@) == old(self)@.connections[quad].on_segment(
                seg.tcp,
                data@,
            ).reply,
    {
        let key = quad.key();
        let mut c = self.connections.remove(&key).unwrap();
        let reply = c.on_packet(&seg.ip, &seg.tcp, data);
        self.connections.insert(key, c);
        proof {
            lemma_table_remove(old(self).connections@, quad);
            lemma_table_insert(old(self).connections@.remove(key), quad, c);
            assert(self@.connections =~= old(self)@.delivered(quad, *seg, data@).connections);
        }
        reply
    }

    /// Puts the new connection `c` into the table under `quad`, and lets it
    /// wait at its port, which is bound.
    fn enqueue(&mut self, quad: Quad, c: Connection)
        requires
            old(self).wf(),
            c.wf(),
            !old(self)@.connections.contains_key(quad),
            old(self)@.pending.contains_key(quad.dst.1),
        ensures
            final(self).wf(),
            final(self)@ == (ManagerView {
                connections: old(self)@.connections.insert(quad, c@),
                pending: old(self)@.pending.insert(
                    quad.dst.1,
                    old(self)@.pending[quad.dst.1].push(quad),
                ),
                ..old(self)@
            }),
    {
        let key = quad.key();
        let port = quad.dst.1;
        let ghost cv = c@;
        self.connections.insert(key, c);
        let mut queue = self.pending.remove(&port).unwrap();
        queue.push_back(quad);
        self.pending.insert(port, queue);
        proof {
            let before = old(self)@;
            let q0 = before.pending[port];
            lemma_table_insert(old(self).connections@, quad, c);
            lemma_queues_remove(old(self).pending@, port);
            lemma_queues_insert(old(self).pending@.remove(port), port, queue);
            assert(self@.pending =~= before.pending.insert(port, q0.push(quad)));
            assert(self@.connections == before.connections.insert(quad, cv));
            assert forall|i: int| 0 <= i < q0.len() implies q0[i] != quad by {
                assert(before.connections.contains_key(q0[i]));
            }
            assert(q0.no_duplicates());
            let q1 = q0.push(quad);
            assert forall|i: int, j: int|
                0 <= i < q1.len() && 0 <= j < q1.len() && i != j implies q1[i] != q1[j] by {
                if i < q0.len() {
                    assert(q1[i] == q0[i]);
                }
                if j < q0.len() {
                    assert(q1[j] == q0[j]);
                }
            }
            assert(q1.no_duplicates());
        }
    }

    /// Takes one received frame: hands its segment to the connection that it
    /// belongs to, or lets it open a connection at a bound port.
    ///
    /// Returns what became of the frame, with the frame to send in answer.
    #[verifier::rlimit(30)]
    pub fn on_frame(&mut self, frame: &[u8]) -> (r: Dispatch)
        requires
            old(self).wf(),
        ensures
            final(self).wf(),
            final(self)@ == old(self)@.received(frame@),
            r@ == old(self)@.dispatch(frame@),
    {
        let seg = match dissect(frame) {
            Ok(seg) => seg,
            Err(e) => {
                return Dispatch::Malformed(e);
            },
        };
        let data = slice_subrange(frame, seg.payload_at, frame.len());
        let quad = Quad {
            src: (seg.ip.source, seg.tcp.source_port),
            dst: (seg.ip.destination, seg.tcp.destination_port),
        };
        if let Some(c) = self.connection(&quad) {
            let taken = c.takes(&seg.tcp, data);
            let reply = self.deliver(quad, &seg, data);
            return if taken {
                Dispatch::Delivered(quad, reply)
            } else {
                Dispatch::Refused(quad, reply)
            };
        }
        if !self.pending.contains_key(&quad.dst.1) {
            return Dispatch::Unclaimed;
        }
        match Connection::accept(&seg.ip, &seg.tcp, data) {
            Some((c, reply)) => {
                self.enqueue(quad, c);
                Dispatch::Opened(quad, reply)
            },
            None => Dispatch::Unclaimed,
        }
    }

    /// Whether the connection `quad` is in the table.
    pub fn has_connection(&self, quad: &Quad) -> (r: bool)
        ensures
            r == self@.connections.contains_key(*quad),
    {
        self.connections.contains_key(&quad.key())
    }

    /// Whether `port` is bound.
    pub fn is_bound(&self, port: u16) -> (r: bool)
        ensures
            r == self@.pending.contains_key(port),
    {
        self.pending.contains_key(&port)
    }
    /// One attempt to read from the connection `quad` into `buf`.
    ///
    /// With `Ok(Some(n))` the first `n` bytes of `buf` are the oldest unread
    /// bytes, which have left the connection; `n` is zero at the end of the
    /// stream. With `Ok(None)` there is nothing to read yet.
    pub fn read(&mut self, quad: &Quad, buf: &mut [u8]) -> (r: Result<Option<usize>, TcpError>)
        requires
            old(self).wf(),
        ensures
            final(self).wf(),
            r == old(self)@.read_outcome(*quad, old(buf)@.len() as int),
            final(self)@ == old(self)@.after_read(*quad, old(buf)@.len() as int),
            final(buf)@.len() == old(buf)@.len(),
            r matches Ok(Some(n)) ==> final(buf)@ == old(self)@.connections[*quad].incoming.subrange(
                0,
                n as int,
            ) + old(buf)@.subrange(n as int, old(buf)@.len() as int),
            !(r matches Ok(Some(_))) ==> final(buf)@ == old(buf)@,
    {
        let key = quad.key();
        let mut c = match self.connections.remove(&key) {
            Some(c) => c,
            None => {
                proof {
                    assert(self.connections@ =~= old(self).connections@);
                }
                return Err(TcpError::ConnectionAborted);
            },
        };
        let ghost before = c@;
        proof {
            lemma_table_remove(old(self).connections@, *quad);
            assert(before == old(self)@.connections[*quad]);
            assert(before.wf());
        }
        let r = if c.incoming.len() > 0 {
            Some(c.take_incoming(buf))
        } else if c.is_rcv_closed() {
            // nothing will arrive any more: the stream has ended
            Some(0)
        } else {
            None
        };
        self.connections.insert(key, c);
        proof {
            lemma_table_insert(old(self).connections@.remove(key), *quad, c);
            assert(c@.incoming =~= before.after_read(old(buf)@.len() as int).incoming);
            assert(c@ == before.after_read(old(buf)@.len() as int));
            assert(c@.wf());
            assert(self@.connections =~= old(self)@.after_read(
                *quad,
                old(buf)@.len() as int,
            ).connections);
            if r is Some && before.incoming.len() == 0 {
                assert(buf@ =~= before.incoming.subrange(0, 0) + old(buf)@.subrange(
                    0,
                    old(buf)@.len() as int,
                ));
            }
        }
        Ok(r)
    }

    /// Hands the front of `buf` to the connection `quad`, as much of it as
    /// the connection has room for, and returns how many bytes that were.
    pub fn write(&mut self, quad: &Quad, buf: &[u8]) -> (r: Result<usize, TcpError>)
        requires
            old(self).wf(),
        ensures
            final(self).wf(),
            r == old(self)@.write_outcome(*quad, buf@.len() as int),
            r is Ok ==> final(self)@ == old(self)@.after_write(*quad, buf@),
            r is Err ==> final(self)@ == old(self)@,
    {
        let key = quad.key();
        let mut c = match self.connections.remove(&key) {
            Some(c) => c,
            None => {
                proof {
                    assert(self.connections@ =~= old(self).connections@);
                }
                return Err(TcpError::ConnectionAborted);
            },
        };
        let ghost before = c@;
        let r = if c.unacked.len() >= SENDQUEUE_SIZE {
            Err(TcpError::WouldBlock)
        } else {
            Ok(c.queue_unacked(buf))
        };
        self.connections.insert(key, c);
        proof {
            lemma_table_remove(old(self).connections@, *quad);
            lemma_table_insert(old(self).connections@.remove(key), *quad, c);
            if r is Ok {
                assert(self@.connections =~= old(self)@.after_write(*quad, buf@).connections);
            } else {
                assert(self@.connections =~= old(self)@.connections);
            }
        }
        r
    }

    /// Succeeds where every byte written to the connection `quad` was
    /// acknowledged.
    pub fn flush(&self, quad: &Quad) -> (r: Result<(), TcpError>)
        ensures
            r == self@.flush_outcome(*quad),
    {
        match self.connections.get(&quad.key()) {
            None => Err(TcpError::ConnectionAborted),
            Some(c) => if c.unacked.len() == 0 {
                Ok(())
            } else {
                Err(TcpError::WouldBlock)
            },
        }
    }

    /// Tells the users of the table to stop.
    pub fn terminate(&mut self)
        ensures
            final(self)@ == (ManagerView { terminate: true, ..old(self)@ }),
    {
        self.terminate = true;
    }

    /// Whether the users of the table were told to stop.
    pub fn is_terminated(&self) -> (r: bool)
        ensures
            r == self@.terminate,
    {
        self.terminate
    }
    /// Closes the connection `quad`: takes it out of the table, and returns
    /// the frame with its FIN, to be sent. Returns `None` where the
    /// connection is not in the table.
    pub fn close(&mut self, quad: &Quad) -> (r: Option<Vec<u8>>)
        requires
            old(self).wf(),
        ensures
            final(self).wf(),
            final(self)@ == old(self)@.closed(*quad),
            r is Some <==> old(self)@.closing_frame(*quad) is Some,
            r matches Some(frame) ==> Some(frame@) == old(self)@.closing_frame(*quad),
    {
        let key = quad.key();
        let port = quad.dst.1;
        if self.pending.contains_key(&port) {
            let mut queue = self.pending.remove(&port).unwrap();
            let ghost q0 = queue@;
            proof {
                assert(q0 == old(self)@.pending[port]);
                assert(q0.no_duplicates());
            }
            leave_queue(&mut queue, quad);
            self.pending.insert(port, queue);
            proof {
                lemma_queues_remove(old(self).pending@, port);
                lemma_queues_insert(old(self).pending@.remove(port), port, queue);
                lemma_without(q0, *quad);
            }
        }
        let taken = self.connections.remove(&key);
        proof {
            lemma_table_remove(old(self).connections@, *quad);
            if taken is Some {
                assert(taken->0@ == old(self)@.connections[*quad]);
                assert(taken->0.wf());
            }
            assert(self@.pending =~= old(self)@.closed(*quad).pending);
            assert(self@.connections =~= old(self)@.closed(*quad).connections);
            let before = old(self)@;
            let after = self@;
            assert forall|p: u16, i: int|
                after.pending.contains_key(p) && 0 <= i < after.pending[p].len() implies {
                &&& after.connections.contains_key(#[trigger] after.pending[p][i])
                &&& after.pending[p][i].dst.1 == p
            } by {
                if p == port {
                    lemma_without(before.pending[p], *quad);
                    let x = after.pending[p][i];
                    assert(after.pending[p].contains(x));
                    assert(before.pending[p].contains(x));
                    let k = choose|k: int|
                        0 <= k < before.pending[p].len() && before.pending[p][k] == x;
                    assert(before.connections.contains_key(before.pending[p][k]));
                } else {
                    assert(before.connections.contains_key(before.pending[p][i]));
                }
            }
            assert forall|p: u16| after.pending.contains_key(p) implies #[trigger] after.pending[p].no_duplicates() by {
                if p == port {
                    lemma_without(before.pending[p], *quad);
                } else {
                    assert(before.pending[p].no_duplicates());
                }
            }
        }
        match taken {
            Some(mut c) => {
                c.tcp.fin = true;
                let empty: Vec<u8> = Vec::new();
                let (frame, _) = c.write(empty.as_slice());
                Some(frame)
            },
            None => None,
        }
    }
    /// Unbinds `port`: closes every connection that still waits at it, and
    /// returns the frames with their FINs, to be sent, in the order in which
    /// the connections waited. Changes nothing where the port is not bound.
    pub fn unbind(&mut self, port: u16) -> (frames: Vec<Vec<u8>>)
        requires
            old(self).wf(),
        ensures
            final(self).wf(),
            final(self)@ == old(self)@.unbound(port),
            !old(self)@.pending.contains_key(port) ==> frames@.len() == 0,
            old(self)@.pending.contains_key(port) ==> {
                &&& frames@.len() == old(self)@.pending[port].len()
                &&& forall|i: int|
                    0 <= i < frames@.len() ==> Some((#[trigger] frames@[i])@) == old(
                        self,
                    )@.closing_frame(old(self)@.pending[port][i])
            },
    {
        let mut frames: Vec<Vec<u8>> = Vec::new();
        let queue = match self.pending.remove(&port) {
            Some(queue) => queue,
            None => {
                proof {
                    assert(self.pending@ =~= old(self).pending@);
                }
                return frames;
            },
        };
        let ghost before = old(self)@;
        proof {
            lemma_queues_remove(old(self).pending@, port);
            assert(queue@ == before.pending[port]);
            assert(queue@.no_duplicates());
        }
        let mut i: usize = 0;
        while i < queue.len()
            invariant
                i <= queue@.len(),
                before == old(self)@,
                before.wf(),
                before.pending.contains_key(port),
                queue@ == before.pending[port],
                queue@.no_duplicates(),
                self@.terminate == before.terminate,
                self@.pending == before.pending.remove(port),
                self@.connections == before.connections.remove_keys(
                    queue@.subrange(0, i as int).to_set(),
                ),
                frames@.len() == i,
                forall|j: int|
                    0 <= j < i ==> Some((#[trigger] frames@[j])@) == before.closing_frame(
                        queue@[j],
                    ),
            decreases queue@.len() - i,
        {
            let quad = queue[i];
            let ghost table = self.connections@;
            proof {
                assert(before.connections.contains_key(queue@[i as int]));
                assert(!queue@.subrange(0, i as int).to_set().contains(quad)) by {
                    if queue@.subrange(0, i as int).contains(quad) {
                        let k = choose|k: int|
                            0 <= k < i && queue@.subrange(0, i as int)[k] == quad;
                        assert(queue@[k] == queue@[i as int]);
                    }
                }
                assert(self@.connections.contains_key(quad));
                assert(self@.connections[quad] == before.connections[quad]);
            }
            let mut c = self.connections.remove(&quad.key()).unwrap();
            proof {
                assert(c@ == before.connections[quad]);
                assert(c.wf());
            }
            c.tcp.fin = true;
            let empty: Vec<u8> = Vec::new();
            let (frame, _) = c.write(empty.as_slice());
            frames.push(frame);
            proof {
                lemma_table_remove(table, quad);
                let done = queue@.subrange(0, i as int);
                let more = queue@.subrange(0, i + 1);
                assert forall|x: Quad| more.to_set().contains(x) <==> (done.to_set().contains(x)
                    || x == quad) by {
                    if more.contains(x) {
                        let k = choose|k: int| 0 <= k < more.len() && more[k] == x;
                        if k < i {
                            assert(done[k] == x);
                        }
                    }
                    if done.contains(x) {
                        let k = choose|k: int| 0 <= k < done.len() && done[k] == x;
                        assert(more[k] == x);
                    }
                    if x == quad {
                        assert(more[i as int] == x);
                    }
                }
                assert(self@.connections =~= before.connections.remove_keys(more.to_set()));
            }
            i = i + 1;
        }
        proof {
            assert(queue@.subrange(0, i as int) =~= queue@);
            let after = self@;
            assert forall|p: u16, k: int|
                after.pending.contains_key(p) && 0 <= k < after.pending[p].len() implies {
                &&& after.connections.contains_key(#[trigger] after.pending[p][k])
                &&& after.pending[p][k].dst.1 == p
            } by {
                let x = before.pending[p][k];
                assert(before.connections.contains_key(x) && x.dst.1 == p);
                if queue@.contains(x) {
                    let m = choose|m: int| 0 <= m < queue@.len() && queue@[m] == x;
                    assert(before.pending[port][m].dst.1 == port);
                }
            }
        }
        frames
    }
    /// The connection `quad`, where it is in the table.
    pub fn connection(&self, quad: &Quad) -> (r: Option<&Connection>)
        ensures
            r is Some <==> self@.connections.contains_key(*quad),
            r matches Some(c) ==> c@ == self@.connections[*quad],
    {
        self.connections.get(&quad.key())
    }

    /// Puts the connection `c` into the table under `quad`, as one that was
    /// claimed already, and returns the connection that was there before.
    pub fn insert(&mut self, quad: Quad, c: Connection) -> (r: Option<Connection>)
        requires
            old(self).wf(),
            c.wf(),
        ensures
            final(self).wf(),
            final(self)@ == (ManagerView {
                connections: old(self)@.connections.insert(quad, c@),
                ..old(self)@
            }),
            r is Some <==> old(self)@.connections.contains_key(quad),
            r matches Some(before) ==> before@ == old(self)@.connections[quad],
    {
        let ghost cv = c@;
        let r = self.connections.insert(quad.key(), c);
        proof {
            lemma_table_insert(old(self).connections@, quad, c);
            assert(self@.connections == old(self)@.connections.insert(quad, cv));
        }
        r
    }
}

/// At the end of the stream a reader gets zero bytes, and no error: where
/// the peer has sent its FIN and nothing is unread, reading gives `Ok` of
/// zero bytes and changes nothing.
pub proof fn lemma_read_at_end(m: ManagerView, q: Quad, room: int)
    requires
        m.connections.contains_key(q),
        m.connections[q].rcv_closed(),
        m.connections[q].incoming.len() == 0,
        0 <= room,
    ensures
        m.read_outcome(q, room) == Ok::<Option<usize>, TcpError>(Some(0usize)),
        m.after_read(q, room) == m,
{
    assert(m.connections[q].after_read(room).incoming =~= m.connections[q].incoming);
    assert(m.after_read(q, room).connections =~= m.connections);
}

/// What is unread comes before the end of the stream: where bytes are
/// unread, a reader with room gets at least one of them, whether or not the
/// peer has sent its FIN; and a reader with room for all of them leaves
/// nothing unread.
pub proof fn lemma_read_before_end(m: ManagerView, q: Quad, room: int)
    requires
        m.connections.contains_key(q),
        m.connections[q].incoming.len() > 0,
        0 < room <= usize::MAX,
    ensures
        m.read_outcome(q, room) matches Ok(Some(n)) && 0 < n <= room && n
            <= m.connections[q].incoming.len(),
        m.after_read(q, room).connections[q].incoming.len() == m.connections[q].incoming.len()
            - m.connections[q].readable(room),
        room >= m.connections[q].incoming.len() ==> m.after_read(
            q,
            room,
        ).connections[q].incoming.len() == 0,
{
}

/// A full buffer takes nothing: where as many bytes are unacknowledged as a
/// connection buffers, writing fails with `WouldBlock`, whatever is written.
pub proof fn lemma_write_when_full(m: ManagerView, q: Quad, len: int)
    requires
        m.connections.contains_key(q),
        m.connections[q].unacked.len() == SENDQUEUE_SIZE,
    ensures
        m.write_outcome(q, len) == Err::<usize, TcpError>(TcpError::WouldBlock),
{
}

/// Writing never exceeds the bound, and what fits is taken whole: where the
/// buffer is not full, a write of no more bytes than it has room for takes
/// them all, a longer one takes what there is room for, and afterwards no
/// more bytes are unacknowledged than a connection buffers.
pub proof fn lemma_write_within_bound(m: ManagerView, q: Quad, data: Seq<u8>)
    requires
        m.connections.contains_key(q),
        m.connections[q].unacked.len() < SENDQUEUE_SIZE,
    ensures
        data.len() <= SENDQUEUE_SIZE - m.connections[q].unacked.len() ==> m.write_outcome(
            q,
            data.len() as int,
        ) == Ok::<usize, TcpError>(data.len() as usize) && m.after_write(
            q,
            data,
        ).connections[q].unacked == m.connections[q].unacked + data,
        data.len() > SENDQUEUE_SIZE - m.connections[q].unacked.len() ==> m.write_outcome(
            q,
            data.len() as int,
        ) == Ok::<usize, TcpError>(
            (SENDQUEUE_SIZE - m.connections[q].unacked.len()) as usize,
        ),
        m.after_write(q, data).connections[q].unacked.len() <= SENDQUEUE_SIZE,
{
    if data.len() <= SENDQUEUE_SIZE - m.connections[q].unacked.len() {
        assert(data.subrange(0, data.len() as int) =~= data);
    }
}

/// A connection is handed out once: the connection that a claim takes from
/// a port's queue waits at no port afterwards, and the others that waited
/// wait on as before, in their order.
pub proof fn lemma_claimed_once(m: ManagerView, port: u16)
    requires
        m.wf(),
        m.pending.contains_key(port),
        m.pending[port].len() > 0,
    ensures
        m.claimed(port).wf(),
        forall|p: u16|
            m.claimed(port).pending.contains_key(p) ==> !(#[trigger] m.claimed(
                port,
            ).pending[p]).contains(m.pending[port][0]),
        m.claimed(port).pending[port] == m.pending[port].subrange(
            1,
            m.pending[port].len() as int,
        ),
        forall|p: u16|
            p != port && m.pending.contains_key(p) ==> #[trigger] m.claimed(port).pending[p]
                == m.pending[p],
        m.claimed(port).connections == m.connections,
{
    let q0 = m.pending[port];
    let q1 = q0.drop_first();
    let after = m.claimed(port);
    assert(q0.no_duplicates());
    assert forall|i: int| 0 <= i < q1.len() implies q1[i] == q0[i + 1] by {}
    assert forall|i: int, j: int| 0 <= i < q1.len() && 0 <= j < q1.len() && i != j implies q1[i]
        != q1[j] by {
        assert(q1[i] == q0[i + 1] && q1[j] == q0[j + 1]);
    }
    assert forall|p: u16, i: int|
        after.pending.contains_key(p) && 0 <= i < after.pending[p].len() implies {
        &&& after.connections.contains_key(#[trigger] after.pending[p][i])
        &&& after.pending[p][i].dst.1 == p
    } by {
        if p == port {
            assert(after.pending[p][i] == q0[i + 1]);
        } else {
            assert(after.pending[p][i] == m.pending[p][i]);
        }
    }
    assert forall|p: u16| after.pending.contains_key(p) implies !(#[trigger] after.pending[p]).contains(
        q0[0],
    ) by {
        if after.pending[p].contains(q0[0]) {
            let i = choose|i: int| 0 <= i < after.pending[p].len() && after.pending[p][i] == q0[0];
            if p == port {
                assert(q1[i] == q0[i + 1]);
            } else {
                assert(m.pending[p][i].dst.1 == p);
                assert(q0[0].dst.1 == port);
            }
        }
    }
}

/// Every frame that a connection builds holds a segment: taken apart, it
/// gives the addresses of the connection's IPv4 header and every field of
/// its TCP header as they stood, and its payload starts behind forty bytes
/// of headers.
pub proof fn lemma_header_frame_is_a_segment(c: ConnectionView, payload: Seq<u8>)
    requires
        c.wf(),
    ensures
        dissected(c.header_frame(payload)) == Ok::<Segment, FrameError>(
            Segment {
                ip: ip_info_of(c.ip_of_frame(payload)),
                tcp: tcp_info_of(c.tcp),
                payload_at: 40,
            },
        ),
        c.header_frame(payload).len() == 40 + crate::tcp::fitting(payload.len() as int),
{
    let ip = c.ip_of_frame(payload);
    let sum = ipv4_header_checksum(ip);
    let ip_bytes = ipv4_header_bytes(ip, sum);
    let tcp_bytes = tcp_header_bytes(c.tcp);
    let body = payload.subrange(0, crate::tcp::fitting(payload.len() as int));
    let frame = c.header_frame(payload);
    lemma_ipv4_header_len(ip, sum);
    lemma_tcp_header_len(c.tcp);
    assert(frame =~= ip_bytes + (tcp_bytes + body));
    lemma_ipv4_header_round_trip(ip, sum, tcp_bytes + body);
    assert(frame.subrange(20, frame.len() as int) =~= tcp_bytes + body);
    lemma_tcp_header_round_trip(c.tcp, body);
}

/// A frame that a connection builds with its current numbers carries the
/// next number to send as its sequence number, and the next number expected
/// as its acknowledgment number.
pub proof fn lemma_frame_is_a_segment(c: ConnectionView, payload: Seq<u8>)
    requires
        c.wf(),
    ensures
        dissected(c.frame(payload)) == Ok::<Segment, FrameError>(
            Segment {
                ip: ip_info_of(c.ip_of_frame(payload)),
                tcp: tcp_info_of(c.tcp_of_frame()),
                payload_at: 40,
            },
        ),
{
    lemma_header_frame_is_a_segment(c.numbered(), payload);
}

/// A reset carries zero numbers: the frame that resets a connection, taken
/// apart, has RST set, sequence number zero and acknowledgment number zero,
/// and no payload.
pub proof fn lemma_reset_is_bare(c: ConnectionView)
    requires
        c.wf(),
    ensures
        c.resetting().header_frame(Seq::empty()).len() == 40,
        dissected(c.resetting().header_frame(Seq::empty())) matches Ok(seg) && seg.tcp.rst
            && seg.tcp.sequence_number == 0 && seg.tcp.acknowledgment_number == 0
            && seg.payload_at == 40 && seg.tcp.source_port == c.tcp.source_port
            && seg.tcp.destination_port == c.tcp.destination_port && seg.ip.source == c.ip.source
            && seg.ip.destination == c.ip.destination,
        c.resetting().after_header_frame(Seq::empty()).state == c.state,
        c.resetting().after_header_frame(Seq::empty()).recv == c.recv,
        c.resetting().after_header_frame(Seq::empty()).send.una == c.send.una,
{
    lemma_header_frame_is_a_segment(c.resetting(), Seq::empty());
}

/// A SYN is answered with a SYN+ACK that acknowledges the number after the
/// peer's: the frame that answers a SYN, taken apart, goes back to where the
/// SYN came from, carries SYN and ACK and neither FIN nor RST, its sequence
/// number is the initial send sequence number, and its acknowledgment number
/// is the peer's sequence number plus one.
pub proof fn lemma_syn_is_answered(iph: IpInfo, tcph: TcpInfo)
    ensures
        dissected(listening_reply(iph, tcph).frame(Seq::empty())) == Ok::<Segment, FrameError>(
            Segment {
                ip: IpInfo {
                    source: iph.destination,
                    destination: iph.source,
                    protocol: 6,
                    header_len: 20,
                },
                tcp: TcpInfo {
                    source_port: tcph.destination_port,
                    destination_port: tcph.source_port,
                    sequence_number: 0,
                    acknowledgment_number: seq_add(tcph.sequence_number, 1),
                    syn: true,
                    ack: true,
                    fin: false,
                    rst: false,
                    window_size: 10,
                    header_len: 20,
                },
                payload_at: 40,
            },
        ),
{
    lemma_frame_is_a_segment(listening_reply(iph, tcph), Seq::empty());
}

/// The handshake completes: a connection that has answered a SYN takes the
/// peer's acknowledgment of its initial sequence number plus one, sent from
/// the number after the peer's SYN, as the end of the handshake. It is
/// established, and closes from its side at once: it is left in `FinWait1`,
/// and answers with a frame that carries FIN.
#[verifier::rlimit(30)]
pub proof fn lemma_handshake_completes(iph: IpInfo, syn: TcpInfo, ack: TcpInfo)
    requires
        ack.ack && !ack.syn && !ack.fin,
        ack.acknowledgment_number == 1,
        ack.sequence_number == seq_add(syn.sequence_number, 1),
    ensures
        ({
            let c = listening_reply(iph, syn).after_frame(Seq::empty());
            let r = c.on_segment(ack, Seq::empty());
            &&& c.state == State::SynRcvd
            &&& r.connection.state == State::FinWait1
            &&& r.connection.state.synchronized()
            &&& r.connection.send.una == 1
            &&& r.connection.send.nxt == 2
            &&& r.reply matches Some(frame) && dissected(frame) matches Ok(seg) && seg.tcp.fin
                && seg.tcp.ack && seg.tcp.sequence_number == 1 && seg.tcp.acknowledgment_number
                == seq_add(syn.sequence_number, 1)
        }),
{
    let c = listening_reply(iph, syn).after_frame(Seq::empty());
    lemma_after_syn(iph, syn);
    lemma_handshake_ack(c, ack);
    let closing = c.taken(ack, Seq::empty()).with_fin();
    assert(closing.wf());
    lemma_frame_is_a_segment(closing, Seq::empty());
}

} // verus!
