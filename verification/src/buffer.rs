//! The fixed-capacity receive buffer: it accepts bytes read from the
//! socket, hands out every complete frame they contain, and compacts the
//! unconsumed tail to the front so the next read can append after it.

use vstd::prelude::*;
use vstd::slice::slice_subrange;

use crate::decode::{decode, Outcome};
use crate::frame::{msg_chars, Message};
use crate::grammar::{lemma_decode_consumed, spec_decode, spec_drain, SpecMsg, SpecOutcome};

verus! {

/// Receive buffer size used for a connection, in bytes.
pub const INBUFLEN: usize = 8192;

/// What a drain pass reports once no further complete frame remains.
#[derive(Debug, PartialEq)]
pub enum DrainStatus {
    /// The leftover bytes are a frame still being received: read more.
    NeedMore,
    /// The buffer is completely full yet holds no complete frame, so no
    /// forward progress is possible: fatal for the connection.
    BufferFull,
    /// The leftover bytes can never form a valid frame: fatal for the
    /// connection.
    Malformed,
}

/// A fixed-capacity byte buffer. The bytes it currently holds are `self@`;
/// storage never grows or shrinks after construction.
pub struct RecvBuffer {
    data: Vec<u8>,
    len: usize,
}

impl View for RecvBuffer {
    type V = Seq<u8>;

    closed spec fn view(&self) -> Seq<u8> {
        self.data@.take(self.len as int)
    }
}

impl RecvBuffer {
    /// The fixed capacity, in bytes.
    pub closed spec fn cap(&self) -> int {
        self.data@.len() as int
    }

    /// The buffer's bytes fit its storage.
    pub closed spec fn wf(&self) -> bool {
        self.len as int <= self.data@.len()
    }

    /// A well-formed buffer never holds more than its capacity.
    pub proof fn lemma_wf_len(&self)
        requires
            self.wf(),
        ensures
            0 <= self@.len() <= self.cap(),
    {
    }

    /// A fresh, empty buffer of the given fixed capacity.
    pub fn new(capacity: usize) -> (b: RecvBuffer)
        ensures
            b.wf(),
            b@ == Seq::<u8>::empty(),
            b.cap() == capacity as int,
    {
        let b = RecvBuffer { data: vec![0u8; capacity], len: 0 };
        proof {
            assert(b@ =~= Seq::<u8>::empty());
        }
        b
    }

    /// The fixed capacity.
    pub fn capacity(&self) -> (c: usize)
        ensures
            c as int == self.cap(),
    {
        self.data.len()
    }

    /// How many bytes are currently held.
    pub fn byte_len(&self) -> (l: usize)
        requires
            self.wf(),
        ensures
            l as int == self@.len(),
    {
        self.len
    }

    /// A copy of the bytes currently held, for diagnostics when the
    /// connection must be torn down over them.
    pub fn bytes(&self) -> (r: Vec<u8>)
        requires
            self.wf(),
        ensures
            r@ == self@,
    {
        let mut out: Vec<u8> = Vec::new();
        let n = self.len;
        let mut i: usize = 0;
        while i < n
            invariant
                i <= n,
                n == self.len,
                self.wf(),
                out@ == self@.take(i as int),
            decreases n - i,
        {
            let b = self.data[i];
            out.push(b);
            proof {
                assert(self@.take(i as int).push(self@[i as int]) =~= self@.take(i as int + 1));
            }
            i = i + 1;
        }
        proof {
            assert(self@.take(n as int) =~= self@);
        }
        out
    }

    /// How many more bytes the buffer can accept before it is full.
    pub fn free_len(&self) -> (f: usize)
        requires
            self.wf(),
        ensures
            f as int == self.cap() - self@.len(),
    {
        self.data.len() - self.len
    }

    /// Appends bytes read from the socket after the bytes already held.
    pub fn fill(&mut self, chunk: &[u8])
        requires
            old(self).wf(),
            chunk@.len() <= old(self).cap() - old(self)@.len(),
        ensures
            final(self).wf(),
            final(self).cap() == old(self).cap(),
            final(self)@ == old(self)@ + chunk@,
    {
        let n = chunk.len();
        let cap = self.data.len();
        let mut i: usize = 0;
        while i < n
            invariant
                i <= n,
                n == chunk@.len(),
                self.len == old(self).len,
                self.len + n <= cap,
                cap == self.data@.len(),
                self.data@.len() == old(self).data@.len(),
                self.data@.take(self.len as int) == old(self)@,
                forall|j: int|
                    0 <= j < i ==> self.data@[self.len + j] == #[trigger] chunk@[j],
            decreases n - i,
        {
            let b = chunk[i];
            self.data[self.len + i] = b;
            proof {
                assert(self.data@.take(self.len as int) =~= old(self)@);
            }
            i = i + 1;
        }
        self.len = self.len + n;
        proof {
            assert(self@ =~= old(self)@ + chunk@);
        }
    }

    /// One full drain pass: decodes and removes every complete frame from
    /// the front, compacts the leftover bytes to the start, and says how
    /// the pass ended. The frames come out in wire order; `BufferFull`
    /// replaces `NeedMore` exactly when the compacted leftover fills the
    /// whole buffer, so a caller that only reads on `NeedMore` can never
    /// spin forever on an over-long frame.
    pub fn drain(&mut self) -> (out: (Vec<Message>, DrainStatus))
        requires
            old(self).wf(),
        ensures
            final(self).wf(),
            final(self).cap() == old(self).cap(),
            final(self)@ == spec_drain(old(self)@).1,
            out.0@.len() == spec_drain(old(self)@).0.len(),
            forall|i: int|
                0 <= i < out.0@.len() ==> out.0@[i]@ == msg_chars(
                    #[trigger] spec_drain(old(self)@).0[i],
                ),
            out.1 is Malformed <==> spec_drain(old(self)@).2,
            !spec_drain(old(self)@).2 ==> (out.1 is BufferFull <==> final(self)@.len()
                == final(self).cap()),
            out.1 is NeedMore ==> final(self)@.len() < final(self).cap(),
    {
        let ghost orig = self@;
        let mut frames: Vec<Message> = Vec::new();
        let ghost mut gframes: Seq<SpecMsg> = Seq::empty();
        let mut start: usize = 0;
        let mut malformed = false;
        proof {
            assert(self@.skip(0) =~= self@);
            assert(Seq::<SpecMsg>::empty() + spec_drain(orig).0 =~= spec_drain(orig).0);
        }
        loop
            invariant_except_break
                spec_drain(orig).0 == gframes + spec_drain(self@.skip(start as int)).0,
                spec_drain(orig).1 == spec_drain(self@.skip(start as int)).1,
                spec_drain(orig).2 == spec_drain(self@.skip(start as int)).2,
                !malformed,
            invariant
                self == old(self),
                self.wf(),
                start <= self.len,
                frames@.len() == gframes.len(),
                forall|i: int|
                    0 <= i < gframes.len() ==> frames@[i]@ == msg_chars(#[trigger] gframes[i]),
                orig == self@,
            ensures
                self == old(self),
                start <= self.len,
                frames@.len() == gframes.len(),
                forall|i: int|
                    0 <= i < gframes.len() ==> frames@[i]@ == msg_chars(#[trigger] gframes[i]),
                spec_drain(orig).0 == gframes,
                spec_drain(orig).1 == self@.skip(start as int),
                spec_drain(orig).2 == malformed,
            decreases self.len - start,
        {
            let ghost cur = self@.skip(start as int);
            let sl = slice_subrange(self.data.as_slice(), start, self.len);
            proof {
                assert(sl@ =~= cur);
            }
            match decode(sl) {
                Outcome::Incomplete => {
                    proof {
                        assert(spec_drain(cur) == (Seq::<SpecMsg>::empty(), cur, false));
                        assert(gframes + Seq::<SpecMsg>::empty() =~= gframes);
                    }
                    break;
                },
                Outcome::Malformed => {
                    malformed = true;
                    proof {
                        assert(spec_drain(cur) == (Seq::<SpecMsg>::empty(), cur, true));
                        assert(gframes + Seq::<SpecMsg>::empty() =~= gframes);
                    }
                    break;
                },
                Outcome::Decoded(msg, n) => {
                    proof {
                        lemma_decode_consumed(cur);
                        let sm = spec_decode(cur)->Decoded_0;
                        assert(spec_drain(cur).0 == seq![sm] + spec_drain(cur.skip(n as int)).0);
                        assert(gframes + (seq![sm] + spec_drain(cur.skip(n as int)).0) =~= (gframes
                            + seq![sm]) + spec_drain(cur.skip(n as int)).0);
                        assert(cur.skip(n as int) =~= self@.skip(start as int + n as int));
                        gframes = gframes + seq![sm];
                    }
                    frames.push(msg);
                    start = start + n;
                },
            }
        }
        // Compact: move the unconsumed tail down to the front.
        let tail = self.len - start;
        let cap = self.data.len();
        proof {
            assert(forall|j: int|
                0 <= j < tail ==> orig.skip(start as int)[j] == self.data@[start + j]);
        }
        let mut i: usize = 0;
        while i < tail
            invariant
                i <= tail,
                start + tail == self.len,
                self.len == old(self).len,
                self.len <= cap,
                cap == self.data@.len(),
                self.data@.len() == old(self).data@.len(),
                start <= self.len,
                forall|j: int|
                    i <= j < tail ==> self.data@[start + j] == #[trigger] orig.skip(start as int)[j],
                forall|j: int| 0 <= j < i ==> self.data@[j] == #[trigger] orig.skip(start as int)[j],
            decreases tail - i,
        {
            let b = self.data[start + i];
            self.data[i] = b;
            proof {
                assert forall|j: int|
                    i + 1 <= j < tail implies self.data@[start + j] == #[trigger] orig.skip(
                    start as int,
                )[j] by {
                    // Writing at i never touches positions start + j for j > i.
                    assert(start + j > i);
                }
            }
            i = i + 1;
        }
        self.len = tail;
        proof {
            assert(self@ =~= orig.skip(start as int));
        }
        let status = if malformed {
            DrainStatus::Malformed
        } else if tail == self.data.len() {
            DrainStatus::BufferFull
        } else {
            DrainStatus::NeedMore
        };
        (frames, status)
    }
}

} // verus!
