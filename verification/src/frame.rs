//! Stream framing: accumulates bytes as they arrive and hands out one
//! complete newline-terminated line at a time, so message boundaries never
//! depend on how the transport segments its reads. A trailing carriage
//! return before the terminator is stripped.

use vstd::prelude::*;
use crate::codec::{BYTE_CR, BYTE_LF};
use crate::util::{copy_range, push_all};

verus! {

/// Drops a single trailing carriage return, if the line ends in one.
pub open spec fn strip_cr(line: Seq<u8>) -> Seq<u8> {
    if line.len() > 0 && line.last() == BYTE_CR {
        line.drop_last()
    } else {
        line
    }
}

/// Splits the buffered bytes at the first line feed: the line before it
/// (with a trailing carriage return stripped) and the bytes after it.
/// `None` while no line feed has arrived yet.
pub open spec fn frame_split(s: Seq<u8>) -> Option<(Seq<u8>, Seq<u8>)> {
    match s.index_of_first(BYTE_LF) {
        Some(i) => Some((strip_cr(s.take(i)), s.skip(i + 1))),
        None => None,
    }
}

/// Buffer of bytes received but not yet framed into lines.
pub struct FrameBuffer {
    buf: Vec<u8>,
}

impl View for FrameBuffer {
    type V = Seq<u8>;

    closed spec fn view(&self) -> Seq<u8> {
        self.buf@
    }
}

impl FrameBuffer {
    /// An empty buffer.
    pub fn new() -> (r: Self)
        ensures
            r@ == Seq::<u8>::empty(),
    {
        FrameBuffer { buf: Vec::new() }
    }

    /// Appends newly received bytes: the buffer holds exactly the
    /// concatenation of everything fed so far, however delivery was split.
    pub fn feed(&mut self, data: &[u8])
        ensures
            final(self)@ == old(self)@ + data@,
    {
        push_all(&mut self.buf, data);
    }

    /// Takes the first complete line out of the buffer, or returns `None`
    /// and leaves the buffer unchanged while no terminator has arrived.
    pub fn next_frame(&mut self) -> (r: Option<Vec<u8>>)
        ensures
            match r {
                Some(line) => frame_split(old(self)@) == Some((line@, final(self)@)),
                None => frame_split(old(self)@) is None && final(self)@ == old(self)@,
            },
    {
        let buf_len = self.buf.len();
        match crate::util::find_byte(self.buf.as_slice(), BYTE_LF) {
            Some(i) => {
                proof {
                    self.buf@.index_of_first_ensures(BYTE_LF);
                }
                let mut line = copy_range(self.buf.as_slice(), 0, i);
                proof {
                    assert(line@ =~= self.buf@.take(i as int));
                }
                if line.len() > 0 && line[line.len() - 1] == BYTE_CR {
                    line.pop();
                    proof {
                        assert(line@ =~= old(self).buf@.take(i as int).drop_last());
                    }
                }
                proof {
                    assert(i < buf_len);
                }
                let rest = copy_range(self.buf.as_slice(), i + 1, buf_len);
                proof {
                    assert(rest@ =~= self.buf@.skip(i as int + 1));
                }
                self.buf = rest;
                Some(line)
            },
            None => None,
        }
    }
}

/// Bytes delivered in two pieces leave the decoder exactly as the same
/// bytes delivered at once: feeding is concatenation, so framing depends
/// only on the total byte stream, never on write boundaries.
pub proof fn lemma_partial_delivery(pending: Seq<u8>, a: Seq<u8>, b: Seq<u8>)
    ensures
        (pending + a) + b == pending + (a + b),
{
    assert((pending + a) + b =~= pending + (a + b));
}

/// Once the terminator of a line arrives, exactly that line comes out as
/// one frame, whatever bytes follow it.
pub proof fn lemma_frame_at_terminator(line: Seq<u8>, rest: Seq<u8>)
    requires
        forall|i: int| 0 <= i < line.len() ==> line[i] != BYTE_LF,
    ensures
        frame_split(line + seq![BYTE_LF] + rest) == Some((strip_cr(line), rest)),
{
    let s = line + seq![BYTE_LF] + rest;
    s.index_of_first_ensures(BYTE_LF);
    assert(s[line.len() as int] == BYTE_LF);
    assert(s.contains(BYTE_LF));
    let i = s.index_of_first(BYTE_LF)->Some_0;
    assert(i == line.len()) by {
        if i < line.len() {
            assert(s[i] == line[i]);
        }
        if i > line.len() {
            assert(s[line.len() as int] != BYTE_LF);
        }
    }
    assert(s.take(i) =~= line);
    assert(s.skip(i + 1) =~= rest);
}

} // verus!
