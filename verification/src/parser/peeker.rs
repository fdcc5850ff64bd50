//! A buffered reader that can reliably peek up to [`PEEK_READER_CAP`] bytes
//! ahead, regardless of where the bytes fall relative to a refill boundary.
//!
//! The reader owns its buffer and, on [`peek`](PeekReader::peek), compacts
//! the unconsumed bytes to the front and pulls more from its source until
//! `n` bytes (or the end of input) are available — so two-byte lookahead
//! (`,@`, the dotted-list `.`, `;;`) never mis-lexes at a boundary, however
//! small the pieces the source hands out.
//!
//! The source is the input's bytes; each pull from it yields at most
//! `read_size` bytes, the way a short `read` of a file or socket would.

use vstd::math::min;
use vstd::prelude::*;

verus! {

/// Capacity of [`PeekReader`]'s internal buffer, and thus the largest peek it
/// can satisfy.
pub const PEEK_READER_CAP: usize = 8 * 1024;

/// A buffered reader that can reliably peek up to [`PEEK_READER_CAP`] bytes
/// ahead, regardless of where the bytes fall relative to a refill boundary.
///
/// Its view is the sequence of bytes not consumed yet: the buffered ones
/// followed by those the source has not handed out.
pub struct PeekReader {
    inner: Vec<u8>,
    /// How many bytes of `inner` have been pulled into `buf` so far.
    next: usize,
    /// The most bytes a single pull from `inner` yields.
    read_size: usize,
    buf: Vec<u8>,
    /// Start of the unconsumed region in `buf`.
    pos: usize,
    /// End of valid (read-but-maybe-unconsumed) data in `buf`.
    cap: usize,
}

impl View for PeekReader {
    type V = Seq<u8>;

    closed spec fn view(&self) -> Seq<u8> {
        self.buf@.subrange(self.pos as int, self.cap as int) + self.inner@.skip(self.next as int)
    }
}

impl PeekReader {
    /// The reader's internal consistency.
    pub closed spec fn wf(&self) -> bool {
        &&& self.buf@.len() == PEEK_READER_CAP
        &&& self.pos <= self.cap <= PEEK_READER_CAP
        &&& self.next <= self.inner@.len()
        &&& self.read_size > 0
    }

    /// How many unconsumed bytes sit in the buffer right now: what
    /// [`fill_buf`](Self::fill_buf) hands out and [`consume`](Self::consume)
    /// may take.
    pub closed spec fn buffered(&self) -> nat {
        (self.cap - self.pos) as nat
    }

    /// The most bytes one pull from the source hands out into an empty
    /// buffer.
    pub closed spec fn piece(&self) -> nat {
        if self.read_size < PEEK_READER_CAP {
            self.read_size as nat
        } else {
            PEEK_READER_CAP as nat
        }
    }

    /// A reader over `inner` whose source hands out as much as the buffer
    /// can take at each pull.
    pub fn new(inner: Vec<u8>) -> (r: Self)
        ensures
            r.wf(),
            r@ == inner@,
            r.buffered() == 0,
    {
        Self::with_read_size(inner, PEEK_READER_CAP)
    }

    /// A reader over `inner` whose source hands out at most `read_size`
    /// bytes per pull.
    pub fn with_read_size(inner: Vec<u8>, read_size: usize) -> (r: Self)
        requires
            read_size > 0,
        ensures
            r.wf(),
            r@ == inner@,
            r.buffered() == 0,
    {
        let mut buf: Vec<u8> = Vec::with_capacity(PEEK_READER_CAP);
        while buf.len() < PEEK_READER_CAP
            invariant
                buf@.len() <= PEEK_READER_CAP,
            decreases PEEK_READER_CAP - buf@.len(),
        {
            buf.push(0u8);
        }
        let r = PeekReader { inner, next: 0, read_size, buf, pos: 0, cap: 0 };
        proof {
            assert(r.buf@.subrange(0, 0) =~= Seq::<u8>::empty());
            assert(r.inner@.skip(0) =~= r.inner@);
            assert(r@ =~= r.inner@);
        }
        r
    }

    /// Pulls one piece from the source into the free tail of the buffer and
    /// returns how many bytes arrived: zero only when the buffer is full or
    /// the source is exhausted.
    fn pull(&mut self) -> (n: usize)
        requires
            old(self).wf(),
        ensures
            final(self).wf(),
            final(self)@ == old(self)@,
            final(self).pos == old(self).pos,
            final(self).cap == old(self).cap + n,
            final(self).read_size == old(self).read_size,
            n == 0 <==> (old(self).cap == PEEK_READER_CAP || old(self).next == old(self).inner@.len()),
            n == min(
                min(old(self).read_size as int, PEEK_READER_CAP - old(self).cap),
                old(self).inner@.len() - old(self).next,
            ),
    {
        let room = PEEK_READER_CAP - self.cap;
        let left = self.inner.len() - self.next;
        let mut n = self.read_size;
        if room < n {
            n = room;
        }
        if left < n {
            n = left;
        }
        let ghost old_buf = self.buf@;
        let ghost v0 = self@;
        let mut k: usize = 0;
        assert(self.inner@.len() <= usize::MAX) by {
            assert(self.inner.len() == self.inner@.len());
        }
        while k < n
            invariant
                self.wf(),
                k <= n,
                n <= PEEK_READER_CAP - self.cap,
                n <= self.inner@.len() - self.next,
                self.next + n <= self.inner@.len(),
                self.inner@.len() <= usize::MAX,
                self.cap + n <= PEEK_READER_CAP,
                self.pos == old(self).pos,
                self.cap == old(self).cap,
                self.next == old(self).next,
                self.read_size == old(self).read_size,
                self.inner@ == old(self).inner@,
                self.buf@.len() == old_buf.len(),
                forall|j: int| 0 <= j < self.cap + k ==> #[trigger] self.buf@[j] == if j < self.cap {
                    old_buf[j]
                } else {
                    self.inner@[self.next + j - self.cap]
                },
            decreases n - k,
        {
            let b = self.inner[self.next + k];
            self.buf[self.cap + k] = b;
            k = k + 1;
        }
        let ghost old_cap = self.cap as int;
        let ghost old_next = self.next as int;
        self.cap = self.cap + n;
        self.next = self.next + n;
        proof {
            let a = self.buf@.subrange(self.pos as int, self.cap as int);
            let b = self.inner@.skip(self.next as int);
            let a0 = old_buf.subrange(self.pos as int, old_cap);
            let b0 = self.inner@.skip(old_next);
            assert(a =~= a0 + b0.take(n as int));
            assert(b0 =~= b0.take(n as int) + b);
            assert(self@ =~= v0);
        }
        n
    }

    /// Slides the unconsumed bytes to the front of the buffer.
    fn compact(&mut self)
        requires
            old(self).wf(),
        ensures
            final(self).wf(),
            final(self)@ == old(self)@,
            final(self).pos == 0,
            final(self).buffered() == old(self).buffered(),
            final(self).read_size == old(self).read_size,
    {
        if self.pos > 0 {
            let ghost old_buf = self.buf@;
            let ghost v0 = self@;
            let len = self.cap - self.pos;
            let mut k: usize = 0;
            while k < len
                invariant
                    self.wf(),
                    k <= len,
                    len == self.cap - self.pos,
                    self.pos > 0,
                    self.pos == old(self).pos,
                    self.cap == old(self).cap,
                    self.next == old(self).next,
                    self.read_size == old(self).read_size,
                    self.inner@ == old(self).inner@,
                    forall|j: int| 0 <= j < k ==> #[trigger] self.buf@[j] == old_buf[self.pos + j],
                    forall|j: int| k <= j < PEEK_READER_CAP ==> #[trigger] self.buf@[j] == old_buf[j],
                decreases len - k,
            {
                let b = self.buf[self.pos + k];
                self.buf[k] = b;
                k = k + 1;
            }
            self.cap = len;
            self.pos = 0;
            proof {
                assert(self.buf@.subrange(0, len as int) =~= old_buf.subrange(
                    old(self).pos as int,
                    old(self).cap as int,
                ));
                assert(self@ =~= v0);
            }
        }
    }

    /// Returns up to `n` unconsumed bytes without consuming them, reading
    /// ahead from the source as needed. The returned bytes are the start of
    /// what is left, and they are fewer than `n` only at end-of-input.
    /// `n` must not exceed [`PEEK_READER_CAP`]. Once `n` bytes (or all that
    /// is left) are buffered, peeking again changes nothing.
    pub fn peek(&mut self, n: usize) -> (r: &[u8])
        requires
            old(self).wf(),
            n <= PEEK_READER_CAP,
        ensures
            final(self).wf(),
            final(self)@ == old(self)@,
            r@ == final(self)@.take(r@.len() as int),
            r@.len() == min(n as int, final(self)@.len() as int),
            final(self).buffered() >= r@.len(),
            final(self).piece() == old(self).piece(),
            old(self).buffered() >= n || old(self).buffered() == old(self)@.len()
                ==> final(self).buffered() == old(self).buffered(),
    {
        if self.cap - self.pos < n {
            self.compact();
            while self.cap < n
                invariant
                    self.wf(),
                    self@ == old(self)@,
                    self.pos == 0,
                    n <= PEEK_READER_CAP,
                    self.read_size == old(self).read_size,
                    old(self).buffered() == old(self)@.len() ==> self.cap == old(self).buffered(),
                ensures
                    self.wf(),
                    self@ == old(self)@,
                    self.pos == 0,
                    self.read_size == old(self).read_size,
                    self.cap >= n || self.next == self.inner@.len(),
                    old(self).buffered() == old(self)@.len() ==> self.cap == old(self).buffered(),
                decreases PEEK_READER_CAP - self.cap,
            {
                let got = self.pull();
                if got == 0 {
                    break;
                }
            }
        }
        let mut end = self.cap;
        if n < self.cap - self.pos {
            end = self.pos + n;
        }
        proof {
            assert(self.buf@.subrange(self.pos as int, end as int) =~= self@.take(
                (end - self.pos) as int,
            ));
        }
        &self.buf[self.pos..end]
    }

    /// The buffered unconsumed bytes, refilling from the source first when
    /// none are buffered. Empty only at end-of-input.
    pub fn fill_buf(&mut self) -> (r: &[u8])
        requires
            old(self).wf(),
        ensures
            final(self).wf(),
            final(self)@ == old(self)@,
            r@.len() <= final(self)@.len(),
            r@ == final(self)@.take(r@.len() as int),
            r@.len() == final(self).buffered(),
            r@.len() == 0 <==> final(self)@.len() == 0,
            final(self).piece() == old(self).piece(),
            old(self).buffered() > 0 ==> final(self).buffered() == old(self).buffered(),
            old(self).buffered() == 0 ==> final(self).buffered() == min(
                old(self).piece() as int,
                old(self)@.len() as int,
            ),
    {
        if self.pos >= self.cap {
            self.pos = 0;
            self.cap = 0;
            proof {
                assert(self.buf@.subrange(0, 0) =~= old(self).buf@.subrange(
                    old(self).pos as int,
                    old(self).cap as int,
                ));
            }
            self.pull();
        }
        proof {
            assert(self.buf@.subrange(self.pos as int, self.cap as int) =~= self@.take(
                (self.cap - self.pos) as int,
            ));
        }
        &self.buf[self.pos..self.cap]
    }

    /// Marks `amt` buffered bytes as consumed.
    pub fn consume(&mut self, amt: usize)
        requires
            old(self).wf(),
            amt <= old(self).buffered(),
        ensures
            final(self).wf(),
            final(self)@ == old(self)@.skip(amt as int),
            final(self).buffered() == old(self).buffered() - amt,
    {
        let ghost v0 = self@;
        self.pos = self.pos + amt;
        proof {
            assert(self@ =~= v0.skip(amt as int));
        }
    }

    /// Reads up to `len` bytes into the end of `out`, returning how many
    /// arrived: as many as are buffered (after a refill when none are), but
    /// no more than `len`.
    pub fn read(&mut self, out: &mut Vec<u8>, len: usize) -> (n: usize)
        requires
            old(self).wf(),
        ensures
            final(self).wf(),
            old(self).buffered() > 0 ==> n == min(len as int, old(self).buffered() as int),
            old(self).buffered() == 0 ==> n == min(
                len as int,
                min(old(self).piece() as int, old(self)@.len() as int),
            ),
            n <= len,
            n <= old(self)@.len(),
            n == 0 ==> len == 0 || old(self)@.len() == 0,
            final(out)@ == old(out)@ + old(self)@.take(n as int),
            final(self)@ == old(self)@.skip(n as int),
    {
        let avail = self.fill_buf();
        let mut n = avail.len();
        if len < n {
            n = len;
        }
        let mut k: usize = 0;
        let ghost out0 = out@;
        while k < n
            invariant
                k <= n,
                n <= avail@.len(),
                out@ == out0 + avail@.take(k as int),
            decreases n - k,
        {
            out.push(avail[k]);
            proof {
                assert(avail@.take(k as int + 1) =~= avail@.take(k as int).push(avail@[k as int]));
            }
            k = k + 1;
        }
        proof {
            assert(avail@.take(n as int) =~= self@.take(n as int));
        }
        self.consume(n);
        n
    }
}

} // verus!
