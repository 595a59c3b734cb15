//! Where the bytes come from: an in-memory byte source, and the filler that
//! reads from it until a buffer is full or the source has run dry.

use vstd::prelude::*;

verus! {

/// A byte source held in memory. Each read hands out the next bytes in order,
/// at most `step` of them at a time, the way a pipe delivers a stream in pieces;
/// a read that delivers nothing means the end of the stream.
pub struct ByteReader {
    data: Vec<u8>,
    pos: usize,
    step: usize,
}

impl ByteReader {
    #[verifier::type_invariant]
    spec fn wf(&self) -> bool {
        self.pos <= self.data@.len() && self.step > 0
    }

    /// The bytes that the source has yet to deliver.
    pub closed spec fn pending(&self) -> Seq<u8> {
        self.data@.subrange(self.pos as int, self.data@.len() as int)
    }

    /// The most that a single read delivers.
    pub closed spec fn step(&self) -> int {
        self.step as int
    }

    /// A source that delivers `data`, each read as much of it as the caller's
    /// buffer takes.
    pub fn new(data: Vec<u8>) -> (r: Self)
        ensures
            r.pending() == data@,
            r.step() == usize::MAX,
    {
        ByteReader { data, pos: 0, step: usize::MAX }
    }

    /// A source that delivers `data` in pieces of at most `step` bytes.
    pub fn with_step(data: Vec<u8>, step: usize) -> (r: Self)
        requires
            step > 0,
        ensures
            r.pending() == data@,
            r.step() == step,
    {
        ByteReader { data, pos: 0, step }
    }

    /// The number of bytes that one read delivers into a buffer of `room`
    /// bytes when `left` bytes are pending and reads are capped at `step`.
    pub open spec fn delivered(room: int, left: int, step: int) -> int {
        if room <= left && room <= step {
            room
        } else if left <= step {
            left
        } else {
            step
        }
    }

    /// Reads the next bytes into the front of `buf` and returns how many were
    /// read. Zero means that `buf` is empty or that the source has run dry.
    pub fn read(&mut self, buf: &mut [u8]) -> (n: usize)
        ensures
            n == Self::delivered(
                old(buf)@.len() as int,
                old(self).pending().len() as int,
                old(self).step(),
            ),
            final(buf)@ == old(self).pending().take(n as int) + old(buf)@.skip(n as int),
            final(self).pending() == old(self).pending().skip(n as int),
            final(self).step() == old(self).step(),
    {
        proof {
            use_type_invariant(&*self);
        }
        let left: usize = self.data.len() - self.pos;
        let room: usize = buf.len();
        let n: usize = if room <= left && room <= self.step {
            room
        } else if left <= self.step {
            left
        } else {
            self.step
        };
        let mut k: usize = 0;
        while k < n
            invariant
                k <= n,
                n <= buf@.len(),
                buf@.len() == old(buf)@.len(),
                self.pos + n <= self.data@.len() <= usize::MAX,
                self.pos == old(self).pos,
                self.data == old(self).data,
                self.step == old(self).step,
                forall|t: int| 0 <= t < k ==> buf@[t] == self.data@[self.pos + t],
                forall|t: int| k <= t < buf@.len() ==> buf@[t] == old(buf)@[t],
            decreases n - k,
        {
            buf[k] = self.data[self.pos + k];
            k += 1;
        }
        self.pos = self.pos + n;
        n
    }
}

/// Fills `buf` from `r` by repeated reads. Returns `Ok(())` when `buf` is
/// filled. Returns `Err(n)` when the source ran dry first, with `n` the number
/// of bytes read in; the rest of `buf` is left as it was. A read that delivers
/// nothing ends the attempt: the source is not asked again.
pub fn fill_buf(buf: &mut [u8], r: &mut ByteReader) -> (res: Result<(), usize>)
    ensures
        final(buf)@.len() == old(buf)@.len(),
        old(r).pending().len() >= old(buf)@.len() ==> {
            &&& res == Ok::<(), usize>(())
            &&& final(buf)@ == old(r).pending().take(old(buf)@.len() as int)
            &&& final(r).pending() == old(r).pending().skip(old(buf)@.len() as int)
        },
        old(r).pending().len() < old(buf)@.len() ==> {
            &&& res == Err::<(), usize>(old(r).pending().len() as usize)
            &&& final(buf)@ == old(r).pending() + old(buf)@.skip(old(r).pending().len() as int)
            &&& final(r).pending() == Seq::<u8>::empty()
        },
        final(r).step() == old(r).step(),
{
    let byte: usize = buf.len();
    let mut in_bytes_total: usize = 0;
    while in_bytes_total < byte
        invariant
            in_bytes_total <= byte,
            byte == old(buf)@.len(),
            buf@.len() == byte,
            in_bytes_total <= old(r).pending().len(),
            buf@ == old(r).pending().take(in_bytes_total as int) + old(buf)@.skip(
                in_bytes_total as int,
            ),
            r.pending() == old(r).pending().skip(in_bytes_total as int),
            r.step() == old(r).step(),
        decreases byte - in_bytes_total,
    {
        proof {
            use_type_invariant(&*r);
        }
        let (_, tail) = buf.split_at_mut(in_bytes_total);
        let in_bytes: usize = r.read(tail);
        if in_bytes == 0 {
            return Err(in_bytes_total);
        }
        in_bytes_total += in_bytes;
    }
    Ok(())
}

} // verus!
