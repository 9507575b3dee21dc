use vstd::prelude::*;
use crate::checksum::{crc32_of, crc32_bytes};
use crate::Error;

verus! {

/// The number of bytes the sliding window retains.
pub const HISTORY_SIZE: usize = 32768;

/// The last `k` bytes of `s`, or all of `s` when it is shorter.
pub open spec fn tail_bytes(s: Seq<u8>, k: nat) -> Seq<u8> {
    if s.len() <= k {
        s
    } else {
        s.skip(s.len() - k)
    }
}

/// `len` bytes drawn cyclically from the start of `window`.
pub open spec fn back_ref_bytes(window: Seq<u8>, len: nat) -> Seq<u8> {
    Seq::new(len, |i: int| window[i % (window.len() as int)])
}

/// Appending one byte to a capped tail and capping again is the same
/// as capping after the append.
proof fn lemma_tail_bytes_snoc(w: Seq<u8>, b: u8, k: nat)
    requires
        k >= 1,
    ensures
        tail_bytes(tail_bytes(w, k).push(b), k) == tail_bytes(w.push(b), k),
{
    let h = tail_bytes(w, k);
    if w.len() < k {
        assert(tail_bytes(h.push(b), k) =~= tail_bytes(w.push(b), k));
    } else {
        assert(h.len() == k);
        let lhs = tail_bytes(h.push(b), k);
        let rhs = tail_bytes(w.push(b), k);
        assert(lhs =~= rhs) by {
            assert(lhs.len() == k);
            assert(rhs.len() == k);
            assert forall|i: int| 0 <= i < k implies lhs[i] == rhs[i] by {
                assert(lhs[i] == h.push(b)[i + 1]);
                assert(rhs[i] == w.push(b)[w.len() + 1 - k + i]);
            }
        }
    }
}

/// Appending a chunk to a capped tail and capping again is the same
/// as capping after the append.
proof fn lemma_tail_bytes_app(w: Seq<u8>, s: Seq<u8>, k: nat)
    requires
        k >= 1,
    ensures
        tail_bytes(tail_bytes(w, k) + s, k) == tail_bytes(w + s, k),
    decreases s.len(),
{
    if s.len() == 0 {
        assert(tail_bytes(w, k) + s =~= tail_bytes(w, k));
        assert(w + s =~= w);
        assert(tail_bytes(tail_bytes(w, k), k) == tail_bytes(w, k));
    } else {
        let s0 = s.drop_last();
        let b = s.last();
        lemma_tail_bytes_app(w, s0, k);
        lemma_tail_bytes_snoc(tail_bytes(w, k) + s0, b, k);
        lemma_tail_bytes_snoc(w + s0, b, k);
        assert(tail_bytes(w, k) + s =~= (tail_bytes(w, k) + s0).push(b));
        assert((w + s0).push(b) =~= w + s);
        assert(tail_bytes(tail_bytes(tail_bytes(w, k) + s0, k).push(b), k)
            == tail_bytes((tail_bytes(w, k) + s0).push(b), k));
    }
}

/// The most recent output bytes, capped at `HISTORY_SIZE`; the source
/// back-references copy from.
pub(crate) struct History {
    data: Vec<u8>,
}

impl History {
    /// The retained bytes, oldest first.
    pub closed spec fn spec_bytes(self) -> Seq<u8> {
        self.data@
    }

    /// An empty window.
    pub(crate) fn new() -> (r: Self)
        ensures
            r.spec_bytes() == Seq::<u8>::empty(),
    {
        History { data: Vec::new() }
    }

    /// Drops the oldest bytes until at most `HISTORY_SIZE` remain.
    fn normalize(&mut self)
        ensures
            final(self).spec_bytes() == tail_bytes(old(self).spec_bytes(), HISTORY_SIZE as nat),
    {
        if self.data.len() > HISTORY_SIZE {
            let start = self.data.len() - HISTORY_SIZE;
            let mut kept: Vec<u8> = Vec::new();
            let mut i: usize = 0;
            while i < HISTORY_SIZE
                invariant
                    i <= HISTORY_SIZE,
                    start + HISTORY_SIZE == self.data.len(),
                    kept@ == self.data@.subrange(start as int, start + i),
                decreases HISTORY_SIZE - i,
            {
                kept.push(self.data[start + i]);
                i = i + 1;
            }
            proof {
                assert(kept@ =~= tail_bytes(self.data@, HISTORY_SIZE as nat));
            }
            self.data = kept;
        }
    }

    /// Appends one byte, trimming the oldest byte when full.
    pub(crate) fn write_byte(&mut self, b: u8)
        ensures
            final(self).spec_bytes() == tail_bytes(
                old(self).spec_bytes().push(b),
                HISTORY_SIZE as nat,
            ),
    {
        self.data.push(b);
        self.normalize();
    }

    /// Appends a chunk of bytes, trimming the oldest bytes when full.
    pub(crate) fn write(&mut self, buf: &[u8])
        requires
            old(self).spec_bytes().len() <= HISTORY_SIZE as nat,
        ensures
            final(self).spec_bytes() == tail_bytes(
                old(self).spec_bytes() + buf@,
                HISTORY_SIZE as nat,
            ),
    {
        let ghost w0 = self.data@;
        let mut i: usize = 0;
        proof {
            assert(w0 + buf@.take(0) =~= w0);
        }
        while i < buf.len()
            invariant
                i <= buf@.len(),
                self.spec_bytes() == tail_bytes(w0 + buf@.take(i as int), HISTORY_SIZE as nat),
            decreases buf@.len() - i,
        {
            let b = buf[i];
            self.write_byte(b);
            proof {
                lemma_tail_bytes_snoc(w0 + buf@.take(i as int), b, HISTORY_SIZE as nat);
                assert((w0 + buf@.take(i as int)).push(b) =~= w0 + buf@.take(i + 1));
            }
            i = i + 1;
        }
        proof {
            assert(w0 + buf@.take(buf@.len() as int) =~= w0 + buf@);
        }
    }

    /// Copies `len` bytes that start `dist` bytes before the end of
    /// the window.
    pub(crate) fn get(&self, dist: usize, len: usize) -> (r: Result<Vec<u8>, Error>)
        requires
            1 <= dist,
            len <= dist,
        ensures
            match r {
                Ok(v) => {
                    &&& dist <= HISTORY_SIZE as nat
                    &&& dist <= self.spec_bytes().len()
                    &&& v@ == self.spec_bytes().subrange(
                        self.spec_bytes().len() - dist,
                        self.spec_bytes().len() - dist + len,
                    )
                },
                Err(e) => {
                    ||| (e == Error::BadDistance && dist > HISTORY_SIZE as nat)
                    ||| (e == Error::DistanceExceedsWritten && dist <= HISTORY_SIZE as nat
                        && dist > self.spec_bytes().len())
                },
            },
    {
        if dist > HISTORY_SIZE {
            return Err(Error::BadDistance);
        }
        if dist > self.data.len() {
            return Err(Error::DistanceExceedsWritten);
        }
        let start = self.data.len() - dist;
        let mut out: Vec<u8> = Vec::new();
        let mut i: usize = 0;
        while i < len
            invariant
                i <= len,
                len <= dist,
                start + dist == self.data.len(),
                out@ == self.data@.subrange(start as int, start + i),
            decreases len - i,
        {
            out.push(self.data[start + i]);
            i = i + 1;
        }
        Ok(out)
    }
}

/// Collects decompressed bytes, keeps the sliding window of the most
/// recent ones, and resolves back-references against it.
pub struct TrackingWriter {
    inner: Vec<u8>,
    history: History,
}

impl TrackingWriter {
    /// Every byte written so far, oldest first.
    pub closed spec fn spec_written(self) -> Seq<u8> {
        self.inner@
    }

    /// The window holds exactly the most recent written bytes.
    pub closed spec fn wf(self) -> bool {
        self.history.spec_bytes() == tail_bytes(self.inner@, HISTORY_SIZE as nat)
    }

    /// A writer with nothing written.
    pub fn new() -> (r: Self)
        ensures
            r.wf(),
            r.spec_written() == Seq::<u8>::empty(),
    {
        TrackingWriter { inner: Vec::new(), history: History::new() }
    }

    /// Appends one byte.
    pub fn write_u8(&mut self, b: u8)
        requires
            old(self).wf(),
        ensures
            final(self).wf(),
            final(self).spec_written() == old(self).spec_written().push(b),
    {
        self.inner.push(b);
        self.history.write_byte(b);
        proof {
            lemma_tail_bytes_snoc(old(self).inner@, b, HISTORY_SIZE as nat);
        }
    }

    /// Appends a chunk of bytes; every byte is accepted.
    pub fn write(&mut self, buf: &[u8]) -> (r: usize)
        requires
            old(self).wf(),
        ensures
            final(self).wf(),
            r == buf@.len(),
            final(self).spec_written() == old(self).spec_written() + buf@,
    {
        let ghost w0 = old(self).spec_written();
        self.history.write(buf);
        let ghost h1 = self.history.spec_bytes();
        let mut i: usize = 0;
        proof {
            assert(w0 + buf@.take(0) =~= w0);
        }
        while i < buf.len()
            invariant
                i <= buf@.len(),
                self.inner@ == w0 + buf@.take(i as int),
                self.history.spec_bytes() == h1,
                h1 == tail_bytes(tail_bytes(w0, HISTORY_SIZE as nat) + buf@, HISTORY_SIZE as nat),
            decreases buf@.len() - i,
        {
            self.inner.push(buf[i]);
            proof {
                assert(w0 + buf@.take(i as int).push(buf@[i as int])
                    =~= w0 + buf@.take(i + 1));
            }
            i = i + 1;
        }
        proof {
            assert(w0 + buf@.take(buf@.len() as int) =~= w0 + buf@);
            lemma_tail_bytes_app(w0, buf@, HISTORY_SIZE as nat);
        }
        i
    }

    /// Writes `len` bytes drawn cyclically from the `dist` most recent
    /// bytes; a length beyond the distance repeats the window, which
    /// re-reads bytes this call itself has just written.
    pub fn write_previous(&mut self, dist: usize, len: usize) -> (r: Result<(), Error>)
        requires
            old(self).wf(),
        ensures
            final(self).wf(),
            match r {
                Ok(()) => {
                    &&& 1 <= dist <= HISTORY_SIZE as nat
                    &&& dist <= old(self).spec_written().len()
                    &&& final(self).spec_written() == old(self).spec_written() + back_ref_bytes(
                        old(self).spec_written().skip(old(self).spec_written().len() - dist),
                        len as nat,
                    )
                },
                Err(e) => {
                    &&& final(self).spec_written() == old(self).spec_written()
                    &&& {
                        ||| (e == Error::BadDistance && (dist == 0 || dist > HISTORY_SIZE as nat))
                        ||| (e == Error::DistanceExceedsWritten && 1 <= dist <= HISTORY_SIZE as nat
                            && dist > old(self).spec_written().len())
                    }
                },
            },
    {
        if dist == 0 || dist > HISTORY_SIZE {
            return Err(Error::BadDistance);
        }
        if dist > self.inner.len() {
            return Err(Error::DistanceExceedsWritten);
        }
        let m = if len < dist {
            len
        } else {
            dist
        };
        let ghost w0 = self.spec_written();
        let ghost window = w0.skip(w0.len() - dist);
        let chunk = match self.history.get(dist, m) {
            Ok(v) => v,
            Err(_) => {
                return Err(Error::DistanceExceedsWritten);
            },
        };
        proof {
            assert(chunk@ =~= window.take(m as int));
        }
        if m == 0 {
            // a zero-length copy writes nothing
            proof {
                assert(back_ref_bytes(window, len as nat) =~= Seq::<u8>::empty());
                assert(w0 + back_ref_bytes(window, len as nat) =~= w0);
            }
            return Ok(());
        }
        let mut i: usize = 0;
        while i < len
            invariant
                self.wf(),
                i <= len,
                1 <= m <= dist,
                m == if len < dist { len as int } else { dist as int },
                chunk@.len() == m,
                window.len() == dist,
                chunk@ == window.take(m as int),
                self.spec_written() == w0 + back_ref_bytes(window, i as nat),
            decreases len - i,
        {
            let b = chunk[i % m];
            proof {
                assert(0 <= i % m < m) by (nonlinear_arith)
                    requires m >= 1,
                ;
                assert(b == window[(i % m) as int]);
                assert((i % m) as int == (i as int) % (dist as int)) by {
                    if (len as int) < dist {
                        assert(m == len);
                        assert((i as int) % (m as int) == i) by (nonlinear_arith)
                            requires 0 <= (i as int) < m,
                        ;
                        assert((i as int) % (dist as int) == i) by (nonlinear_arith)
                            requires 0 <= (i as int) < dist,
                        ;
                    } else {
                        assert(m == dist);
                    }
                }
                assert(b == back_ref_bytes(window, (i + 1) as nat)[i as int]);
            }
            self.write_u8(b);
            proof {
                assert(w0 + back_ref_bytes(window, i as nat).push(b)
                    =~= w0 + back_ref_bytes(window, (i + 1) as nat));
            }
            i = i + 1;
        }
        Ok(())
    }

    /// The number of bytes written so far.
    pub fn byte_count(&self) -> (r: usize)
        ensures
            r == self.spec_written().len(),
    {
        self.inner.len()
    }

    /// The CRC-32 digest of every byte written.
    pub fn crc32(self) -> (r: u32)
        ensures
            r == crc32_of(self.spec_written()),
    {
        crc32_bytes(&self.inner)
    }

    /// The digest and count of the written bytes, and the bytes
    /// themselves.
    pub fn finalize(self) -> (r: (u32, usize, Vec<u8>))
        ensures
            r.0 == crc32_of(self.spec_written()),
            r.1 == self.spec_written().len(),
            r.2@ == self.spec_written(),
    {
        let crc = crc32_bytes(&self.inner);
        let count = self.inner.len();
        (crc, count, self.inner)
    }
}

} // verus!
