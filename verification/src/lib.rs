//! A user-space TCP endpoint: sequence-space arithmetic, the per-connection
//! state machine, and the table that routes segments to connections.

pub mod codec;
pub mod manager;
pub mod seqnum;
pub mod tcp;

use crate::manager::{ConnectionManager, TcpError};
use crate::tcp::Quad;
use vstd::prelude::*;

verus! {

/// A port that was bound. Connections opened to it wait in the table until
/// `accept` claims them.
#[derive(Debug)]
pub struct TcpListener {
    pub port: u16,
}

/// One end of a connection that was claimed from a listener.
#[derive(Debug)]
pub struct TcpStream {
    pub quad: Quad,
}

impl TcpListener {
    /// Claims the oldest connection that waits at this listener's port.
    ///
    /// Returns `None` where none waits: the caller then waits until one was
    /// opened, and asks again.
    pub fn accept(&mut self, cm: &mut ConnectionManager) -> (r: Option<TcpStream>)
        requires
            old(cm).wf(),
            old(cm)@.pending.contains_key(old(self).port),
        ensures
            final(self).port == old(self).port,
            final(cm).wf(),
            old(cm)@.pending[old(self).port].len() == 0 ==> r is None && final(cm)@ == old(cm)@,
            old(cm)@.pending[old(self).port].len() > 0 ==> r == Some(
                TcpStream { quad: old(cm)@.pending[old(self).port][0] },
            ) && final(cm)@ == old(cm)@.claimed(old(self).port),
    {
        match cm.claim(self.port) {
            Some(quad) => Some(TcpStream { quad }),
            None => None,
        }
    }
    /// Unbinds this listener's port, and closes the connections that still
    /// wait at it. Returns the frames with their FINs, to be sent.
    pub fn close(self, cm: &mut ConnectionManager) -> (frames: Vec<Vec<u8>>)
        requires
            old(cm).wf(),
        ensures
            final(cm).wf(),
            final(cm)@ == old(cm)@.unbound(self.port),
            !old(cm)@.pending.contains_key(self.port) ==> frames@.len() == 0,
            old(cm)@.pending.contains_key(self.port) ==> {
                &&& frames@.len() == old(cm)@.pending[self.port].len()
                &&& forall|i: int|
                    0 <= i < frames@.len() ==> Some((#[trigger] frames@[i])@) == old(
                        cm,
                    )@.closing_frame(old(cm)@.pending[self.port][i])
            },
    {
        cm.unbind(self.port)
    }
}

impl TcpStream {
    /// One attempt to read into `buf`.
    ///
    /// With `Ok(Some(n))` the first `n` bytes of `buf` are the oldest unread
    /// bytes of the connection, and `n` is zero only at the end of the stream
    /// or where `buf` is empty. With `Ok(None)` there is nothing to read yet:
    /// the caller then waits until a segment was delivered, and asks again.
    /// Fails with `ConnectionAborted` where the connection is gone.
    pub fn read(&mut self, cm: &mut ConnectionManager, buf: &mut [u8]) -> (r: Result<
        Option<usize>,
        TcpError,
    >)
        requires
            old(cm).wf(),
        ensures
            final(self).quad == old(self).quad,
            final(cm).wf(),
            r == old(cm)@.read_outcome(old(self).quad, old(buf)@.len() as int),
            final(cm)@ == old(cm)@.after_read(old(self).quad, old(buf)@.len() as int),
            final(buf)@.len() == old(buf)@.len(),
            r matches Ok(Some(n)) ==> final(buf)@ == old(cm)@.connections[old(
                self,
            ).quad].incoming.subrange(0, n as int) + old(buf)@.subrange(
                n as int,
                old(buf)@.len() as int,
            ),
            !(r matches Ok(Some(_))) ==> final(buf)@ == old(buf)@,
    {
        cm.read(&self.quad, buf)
    }

    /// Hands the front of `buf` to the connection, as much of it as the
    /// connection has room for, and returns how many bytes that were.
    ///
    /// Fails with `ConnectionAborted` where the connection is gone, and with
    /// `WouldBlock` where it has no room at all.
    pub fn write(&mut self, cm: &mut ConnectionManager, buf: &[u8]) -> (r: Result<usize, TcpError>)
        requires
            old(cm).wf(),
        ensures
            final(self).quad == old(self).quad,
            final(cm).wf(),
            r == old(cm)@.write_outcome(old(self).quad, buf@.len() as int),
            r is Ok ==> final(cm)@ == old(cm)@.after_write(old(self).quad, buf@),
            r is Err ==> final(cm)@ == old(cm)@,
    {
        cm.write(&self.quad, buf)
    }

    /// Succeeds where every byte written was acknowledged.
    ///
    /// Fails with `ConnectionAborted` where the connection is gone, and with
    /// `WouldBlock` where bytes are still unacknowledged.
    pub fn flush(&mut self, cm: &ConnectionManager) -> (r: Result<(), TcpError>)
        ensures
            final(self).quad == old(self).quad,
            r == cm@.flush_outcome(old(self).quad),
    {
        cm.flush(&self.quad)
    }

    /// Closes the connection: takes it out of the table, and returns the
    /// frame with its FIN, to be sent; `None` where the connection is gone.
    pub fn close(self, cm: &mut ConnectionManager) -> (r: Option<Vec<u8>>)
        requires
            old(cm).wf(),
        ensures
            final(cm).wf(),
            final(cm)@ == old(cm)@.closed(self.quad),
            r is Some <==> old(cm)@.closing_frame(self.quad) is Some,
            r matches Some(frame) ==> Some(frame@) == old(cm)@.closing_frame(self.quad),
    {
        cm.close(&self.quad)
    }
}

} // verus!
