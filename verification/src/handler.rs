//! Per-connection bookkeeping: a growable buffer of bytes read from the
//! socket but not yet emitted as a complete frame, and the decision whether a
//! read event lets the connection progress.
//!
//! The surrounding program owns the socket and drives a loop: it drains
//! complete frames with [`Connection::next_frame`] and echoes each one, and
//! when no frame is pending it performs one blocking read and hands the bytes
//! to [`Connection::on_read`], which either accepts them or rules the
//! connection finished. A connection shares no state with any other.

use vstd::prelude::*;
use crate::framer::spec_extract;
use crate::framer::try_extract_frame;

verus! {

/// What one read event means for the connection.
#[derive(Clone, Copy, Debug, PartialEq, Eq)]
pub enum ReadOutcome {
    /// New bytes arrived and were appended; framing can be retried.
    Progress,
    /// The read produced nothing and no bytes are buffered: the peer is done
    /// and the connection closes cleanly.
    CleanClose,
    /// The read produced nothing while an incomplete frame is pending: the
    /// peer will never finish it, and the connection is terminated rather
    /// than polled forever.
    Stalled,
}

/// One live connection's framing state.
pub struct Connection {
    buffer: Vec<u8>,
}

impl View for Connection {
    type V = Seq<u8>;

    closed spec fn view(&self) -> Seq<u8> {
        self.buffer@
    }
}

impl Connection {
    /// A fresh connection with an empty buffer.
    pub fn new() -> (c: Connection)
        ensures
            c@ == Seq::<u8>::empty(),
    {
        Connection { buffer: Vec::new() }
    }

    /// Number of bytes read from the socket but not yet emitted as part of a
    /// complete frame.
    pub fn buffered_len(&self) -> (n: usize)
        ensures
            n == self@.len(),
    {
        self.buffer.len()
    }

    /// Splits the first complete frame off the front of the buffer, keeping
    /// the bytes after its delimiter, or leaves the buffer untouched when no
    /// delimiter has arrived yet. Frames come out in arrival order, one per
    /// call, with the delimiter stripped.
    pub fn next_frame(&mut self) -> (r: Option<Vec<u8>>)
        ensures
            match r {
                Some(f) => spec_extract(old(self)@) == (Some(f@), final(self)@),
                None => {
                    &&& spec_extract(old(self)@) == (None::<Seq<u8>>, final(self)@)
                    &&& final(self)@ == old(self)@
                },
            },
    {
        let (frame, remainder) = try_extract_frame(self.buffer.as_slice());
        self.buffer = remainder;
        frame
    }

    /// Applies the result of one read call: `data` holds the bytes the read
    /// produced, and an empty `data` models end of stream or a non-advancing
    /// read. New bytes are appended to the buffer, which is otherwise left
    /// unchanged; a read without new bytes ends the connection, cleanly when
    /// nothing is buffered and as a stall when an incomplete frame is
    /// pending.
    pub fn on_read(&mut self, data: &[u8]) -> (r: ReadOutcome)
        ensures
            data@.len() > 0 ==> r == ReadOutcome::Progress && final(self)@ == old(self)@
                + data@,
            data@.len() == 0 ==> final(self)@ == old(self)@,
            data@.len() == 0 && old(self)@.len() == 0 ==> r == ReadOutcome::CleanClose,
            data@.len() == 0 && old(self)@.len() > 0 ==> r == ReadOutcome::Stalled,
    {
        let n = data.len();
        if n == 0 {
            if self.buffer.len() == 0 {
                ReadOutcome::CleanClose
            } else {
                ReadOutcome::Stalled
            }
        } else {
            let mut i: usize = 0;
            while i < n
                invariant
                    n == data@.len(),
                    i <= n,
                    self@ == old(self)@ + data@.subrange(0, i as int),
                decreases n - i,
            {
                self.buffer.push(data[i]);
                proof {
                    assert(self@ =~= old(self)@ + data@.subrange(0, i + 1 as int));
                }
                i = i + 1;
            }
            proof {
                assert(data@.subrange(0, n as int) =~= data@);
            }
            ReadOutcome::Progress
        }
    }
}

} // verus!
