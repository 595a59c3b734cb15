//! The pipeline as a machine that is driven from outside. Whoever owns the
//! byte stream asks the machine how many bytes it wants, reads that many or
//! fewer, and feeds them in; the machine keeps the working buffer, decides when
//! a round is due, and writes the text it finds to the sink it is given.

use vstd::prelude::*;
use crate::pipeline::{drain_round, drain_text, fill_count, limit_after_fill, stream_text};
use crate::scan::{lemma_scan_end_bounds, scan_end, scan_text};
use crate::sink::TextSink;

verus! {

/// True when feeding a chunk of `chunk_len` bytes brings on a round: the
/// buffer got full, or the chunk was empty, which means that the stream has
/// ended, and bytes are still held.
pub open spec fn round_due(joined_len: nat, chunk_len: nat, size: nat) -> bool {
    joined_len > 0 && (chunk_len == 0 || joined_len == size)
}

/// The limit that applies once a chunk is fed: everything that is held when
/// the chunk was empty, the limit as it was otherwise.
pub open spec fn limit_when_fed(joined_len: nat, chunk_len: nat, limit: nat) -> nat {
    if chunk_len == 0 {
        joined_len
    } else {
        limit
    }
}

/// The state of a pipeline between two reads.
pub struct Pipeline {
    buf: Vec<u8>,
    m: usize,
    taken_limit: usize,
    finished: bool,
}

impl Pipeline {
    /// The invariant of a pipeline: what is held fits in the buffer, with room
    /// to spare while the pipeline is not finished, and nothing is held once it
    /// is.
    pub closed spec fn wf(&self) -> bool {
        &&& self.m <= self.buf@.len()
        &&& !self.finished ==> self.m < self.buf@.len()
        &&& self.finished ==> self.m == 0
    }

    /// The bytes that wait in the working buffer.
    pub closed spec fn held(&self) -> Seq<u8> {
        self.buf@.subrange(0, self.m as int)
    }

    /// The size of the working buffer.
    pub closed spec fn size(&self) -> nat {
        self.buf@.len()
    }

    /// The limit that the next round works with.
    pub closed spec fn limit(&self) -> nat {
        self.taken_limit as nat
    }

    /// True once the stream has ended and the buffer is empty.
    pub closed spec fn finished(&self) -> bool {
        self.finished
    }

    /// The number of bytes that the machine asks for next.
    pub open spec fn room(&self) -> nat {
        if self.finished() {
            0
        } else {
            (self.size() - self.held().len()) as nat
        }
    }

    /// A pipeline with an empty working buffer of `buf_size` bytes, whose full
    /// rounds start no unit beyond `taken_limit`. With no buffer at all there
    /// is nothing to do, and the pipeline is finished from the start.
    pub fn new(buf_size: usize, taken_limit: usize) -> (p: Self)
        ensures
            p.wf(),
            p.size() == buf_size,
            p.limit() == taken_limit,
            p.held() == Seq::<u8>::empty(),
            p.finished() == (buf_size == 0),
    {
        let p = Pipeline { buf: vec![0u8; buf_size], m: 0, taken_limit, finished: buf_size == 0 };
        p
    }

    /// Tells whether the pipeline is finished.
    pub fn is_finished(&self) -> (done: bool)
        ensures
            done == self.finished(),
    {
        self.finished
    }

    /// The number of bytes to read next: the free room in the working buffer,
    /// which is never zero while the pipeline is not finished.
    pub fn wanted(&self) -> (n: usize)
        requires
            self.wf(),
        ensures
            n == self.room(),
            !self.finished() ==> n > 0,
    {
        if self.finished {
            0
        } else {
            self.buf.len() - self.m
        }
    }

    /// Takes the outcome of one read: `chunk` holds the bytes that were read,
    /// and an empty chunk says that the stream has ended. The bytes join those
    /// that are held. When that fills the buffer, a round follows with the limit
    /// as it is; when the stream has ended, the limit moves to the end of what is
    /// held, and a round consumes all of it, or, with nothing held, the pipeline
    /// is finished. Otherwise the machine waits for more.
    pub fn feed<W: TextSink>(&mut self, chunk: &[u8], w: &mut W)
        requires
            old(self).wf(),
            !old(self).finished(),
            chunk@.len() <= old(self).room(),
        ensures
            final(self).wf(),
            final(self).size() == old(self).size(),
            final(self).limit() == limit_when_fed(
                (old(self).held() + chunk@).len(),
                chunk@.len(),
                old(self).limit(),
            ),
            final(self).finished() == (chunk@.len() == 0 && old(self).held().len() == 0),
            round_due((old(self).held() + chunk@).len(), chunk@.len(), old(self).size()) ==> {
                &&& final(self).held() == (old(self).held() + chunk@).skip(
                    scan_end(old(self).held() + chunk@, 0, final(self).limit() as int),
                )
                &&& final(w).received() == old(w).received() + old(w).passes(
                    scan_text(old(self).held() + chunk@, 0, final(self).limit() as int),
                )
            },
            !round_due((old(self).held() + chunk@).len(), chunk@.len(), old(self).size()) ==> {
                &&& final(self).held() == old(self).held() + chunk@
                &&& final(w).received() == old(w).received()
            },
            final(w).flushed() >= old(w).flushed(),
            forall|t: Seq<u8>| #[trigger] final(w).passes(t) == old(w).passes(t),
    {
        let len: usize = chunk.len();
        let size: usize = self.buf.len();
        let mut k: usize = 0;
        while k < len
            invariant
                k <= len,
                len == chunk@.len(),
                self.m == old(self).m,
                self.taken_limit == old(self).taken_limit,
                self.finished == old(self).finished,
                self.m + len <= size == self.buf@.len(),
                self.buf@.len() == old(self).buf@.len(),
                forall|t: int| 0 <= t < self.m ==> self.buf@[t] == old(self).buf@[t],
                forall|t: int| 0 <= t < k ==> self.buf@[self.m + t] == chunk@[t],
            decreases len - k,
        {
            self.buf[self.m + k] = chunk[k];
            k += 1;
        }
        let ghost joined: Seq<u8> = old(self).held() + chunk@;
        self.m = self.m + len;
        proof {
            assert(self.buf@.subrange(0, self.m as int) =~= joined);
        }
        if len == 0 {
            self.taken_limit = self.m;
            if self.m == 0 {
                self.finished = true;
            }
        }
        if self.m > 0 && (len == 0 || self.m == size) {
            proof {
                lemma_scan_end_bounds(joined, 0, self.taken_limit as int);
            }
            self.m = drain_round(&mut self.buf, self.m, self.taken_limit, w);
        }
    }
}

/// The text that a machine writes while it is fed `chunks` one after the
/// other, from a state in which it holds `held` and works with `limit`. It
/// stops at the chunk that finishes it.
pub open spec fn run_text(held: Seq<u8>, limit: nat, size: nat, chunks: Seq<Seq<u8>>) -> Seq<u8>
    decreases chunks.len(),
{
    if chunks.len() == 0 {
        Seq::empty()
    } else {
        let chunk: Seq<u8> = chunks[0];
        let joined: Seq<u8> = held + chunk;
        let next_limit: nat = limit_when_fed(joined.len(), chunk.len(), limit);
        if chunk.len() == 0 && held.len() == 0 {
            Seq::empty()
        } else if round_due(joined.len(), chunk.len(), size) {
            scan_text(joined, 0, next_limit as int) + run_text(
                joined.skip(scan_end(joined, 0, next_limit as int)),
                next_limit,
                size,
                chunks.drop_first(),
            )
        } else {
            run_text(joined, next_limit, size, chunks.drop_first())
        }
    }
}

/// True when `chunks` is a way in which reads can deliver a stream to a
/// machine that holds `held`: no chunk is empty, and each one fits in the room
/// that the machine has when the chunk arrives.
pub open spec fn delivers(held: Seq<u8>, limit: nat, size: nat, chunks: Seq<Seq<u8>>) -> bool
    decreases chunks.len(),
{
    if chunks.len() == 0 {
        true
    } else {
        let chunk: Seq<u8> = chunks[0];
        let joined: Seq<u8> = held + chunk;
        &&& 0 < chunk.len()
        &&& joined.len() <= size
        &&& delivers(
            if joined.len() == size {
                joined.skip(scan_end(joined, 0, limit as int))
            } else {
                joined
            },
            limit,
            size,
            chunks.drop_first(),
        )
    }
}

/// The text that the rounds keep when the buffer holds `held` and a fill
/// attempt comes first.
pub open spec fn refill_text(held: Seq<u8>, rest: Seq<u8>, size: nat, limit: nat) -> Seq<u8> {
    let fed: nat = fill_count(held.len(), rest.len(), size);
    drain_text(
        held + rest.take(fed as int),
        rest.skip(fed as int),
        size,
        limit_after_fill(held.len(), rest.len(), size, limit),
    )
}

/// Two empty chunks after the last bytes of a stream finish the machine: the
/// first brings on the round that consumes what is held, the second finds
/// nothing left.
proof fn lemma_run_text_at_end(held: Seq<u8>, limit: nat, size: nat)
    requires
        held.len() < size,
    ensures
        run_text(held, limit, size, seq![Seq::<u8>::empty(), Seq::<u8>::empty()]) == refill_text(
            held,
            Seq::<u8>::empty(),
            size,
            limit,
        ),
{
    reveal_with_fuel(run_text, 3);
    reveal_with_fuel(drain_text, 2);
    if held.len() > 0 {
        lemma_scan_end_bounds(held, 0, held.len() as int);
    }
}

/// However the reads cut a stream into chunks, the machine writes what the
/// pipeline keeps of the stream as a whole: fed the chunks and then told twice
/// that the stream has ended, it writes `stream_text` of the joined chunks.
pub proof fn lemma_run_text_is_refill_text(
    held: Seq<u8>,
    limit: nat,
    size: nat,
    chunks: Seq<Seq<u8>>,
)
    requires
        held.len() < size,
        delivers(held, limit, size, chunks),
    ensures
        run_text(held, limit, size, chunks + seq![Seq::<u8>::empty(), Seq::<u8>::empty()])
            == refill_text(held, chunks.flatten(), size, limit),
    decreases chunks.len(),
{
    let e: Seq<u8> = Seq::<u8>::empty();
    let tail: Seq<Seq<u8>> = seq![e, e];
    if chunks.len() == 0 {
        lemma_run_text_at_end(held, limit, size);
    } else {
        let chunk: Seq<u8> = chunks[0];
        let later: Seq<Seq<u8>> = chunks.drop_first();
        let rest: Seq<u8> = later.flatten();
        let joined: Seq<u8> = held + chunk;
        let all: Seq<u8> = chunks.flatten();
        assert((chunks + tail).drop_first() =~= later + tail);
        let fed: nat = fill_count(held.len(), all.len(), size);
        if joined.len() == size {
            lemma_scan_end_bounds(joined, 0, limit as int);
            let keep: Seq<u8> = joined.skip(scan_end(joined, 0, limit as int));
            lemma_run_text_is_refill_text(keep, limit, size, later);
            assert(held + all.take(fed as int) =~= joined);
            assert(all.skip(fed as int) =~= rest);
        } else {
            lemma_run_text_is_refill_text(joined, limit, size, later);
            let fed_later: nat = fill_count(joined.len(), rest.len(), size);
            assert(held + all.take(fed as int) =~= joined + rest.take(fed_later as int));
            assert(all.skip(fed as int) =~= rest.skip(fed_later as int));
        }
    }
}

/// A machine that starts empty and is fed a stream in chunks writes what
/// `buffer_filter` writes for the stream.
pub proof fn lemma_run_text_is_stream_text(limit: nat, size: nat, chunks: Seq<Seq<u8>>)
    requires
        0 < size,
        delivers(Seq::empty(), limit, size, chunks),
    ensures
        run_text(
            Seq::empty(),
            limit,
            size,
            chunks + seq![Seq::<u8>::empty(), Seq::<u8>::empty()],
        ) == stream_text(chunks.flatten(), size, limit),
{
    lemma_run_text_is_refill_text(Seq::empty(), limit, size, chunks);
}

} // verus!
