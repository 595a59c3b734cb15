//! The stream pipeline: fill the working buffer, let the resolver consume a
//! prefix of it, move what is left to the front, refill, and repeat until the
//! source has run dry and the buffer is empty.

use vstd::prelude::*;
use crate::resolver::take_from_buffer;
use crate::scan::{lemma_scan_end_bounds, scan_end, scan_text};
use crate::sink::{lemma_passes_nothing, plain_ascii_of, FilterWriter, TextSink};
use crate::source::{fill_buf, ByteReader};

verus! {

/// The number of bytes that a fill attempt moves from the source into a buffer
/// of `size` bytes that holds `held` bytes already, when `left` bytes are left
/// in the source.
pub open spec fn fill_count(held: nat, left: nat, size: nat) -> nat {
    if held >= size {
        0
    } else if left >= size - held {
        (size - held) as nat
    } else {
        left
    }
}

/// True when a fill attempt ends short: the source runs dry before the buffer
/// is full.
pub open spec fn fill_is_short(held: nat, left: nat, size: nat) -> bool {
    held < size && left < size - held
}

/// The limit that the next round works with: unchanged after a full fill, and
/// everything that is held once the source has run dry.
pub open spec fn limit_after_fill(held: nat, left: nat, size: nat, limit: nat) -> nat {
    if fill_is_short(held, left, size) {
        held + left
    } else {
        limit
    }
}

/// The text that the rounds keep from here on: the buffer holds `pend`, and
/// `rest` is still to come from the source. Each round scans the buffer up to
/// the limit, carries the unconsumed tail over, and refills behind it.
pub open spec fn drain_text(pend: Seq<u8>, rest: Seq<u8>, size: nat, limit: nat) -> Seq<u8>
    decreases pend.len() + rest.len(),
    via drain_text_decreases
{
    if pend.len() == 0 {
        Seq::empty()
    } else {
        let taken: int = scan_end(pend, 0, limit as int);
        let keep: Seq<u8> = pend.subrange(taken, pend.len() as int);
        let fed: nat = fill_count(keep.len(), rest.len(), size);
        scan_text(pend, 0, limit as int) + drain_text(
            keep + rest.take(fed as int),
            rest.skip(fed as int),
            size,
            limit_after_fill(keep.len(), rest.len(), size, limit),
        )
    }
}

#[via_fn]
proof fn drain_text_decreases(pend: Seq<u8>, rest: Seq<u8>, size: nat, limit: nat) {
    if pend.len() != 0 {
        lemma_scan_end_bounds(pend, 0, limit as int);
    }
}

/// The text that the pipeline keeps of a whole stream, with a working buffer
/// of `size` bytes and the given limit for full rounds.
pub open spec fn stream_text(stream: Seq<u8>, size: nat, limit: nat) -> Seq<u8> {
    let fed: nat = fill_count(0, stream.len(), size);
    drain_text(
        stream.take(fed as int),
        stream.skip(fed as int),
        size,
        limit_after_fill(0, stream.len(), size, limit),
    )
}

/// Moves the bytes `buf[taken..m]` to the front of `buf`, in order; the bytes
/// behind them stay as they are.
pub fn shift_front(buf: &mut [u8], taken: usize, m: usize)
    requires
        taken <= m <= old(buf)@.len(),
    ensures
        final(buf)@ == old(buf)@.subrange(taken as int, m as int) + old(buf)@.skip(m - taken),
{
    let kept: usize = m - taken;
    let mut k: usize = 0;
    while k < kept
        invariant
            k <= kept,
            kept == m - taken,
            taken <= m <= buf@.len(),
            buf@.len() == old(buf)@.len(),
            forall|t: int| 0 <= t < k ==> buf@[t] == old(buf)@[t + taken],
            forall|t: int| k <= t < buf@.len() ==> buf@[t] == old(buf)@[t],
        decreases kept - k,
    {
        buf[k] = buf[k + taken];
        k += 1;
    }
}

/// One round on a buffer that holds `m` bytes: the resolver consumes a prefix
/// and writes its text to `w`, and what it left is moved to the front. Returns
/// the number of bytes that are still held.
pub fn drain_round<W: TextSink>(
    buf: &mut Vec<u8>,
    m: usize,
    limit: usize,
    w: &mut W,
) -> (kept: usize)
    requires
        0 < m <= old(buf)@.len(),
    ensures
        final(buf)@.len() == old(buf)@.len(),
        kept == m - scan_end(old(buf)@.subrange(0, m as int), 0, limit as int),
        kept < m,
        final(buf)@.subrange(0, kept as int) == old(buf)@.subrange(0, m as int).skip(
            scan_end(old(buf)@.subrange(0, m as int), 0, limit as int),
        ),
        final(w).received() == old(w).received() + old(w).passes(
            scan_text(old(buf)@.subrange(0, m as int), 0, limit as int),
        ),
        final(w).flushed() >= old(w).flushed(),
        forall|t: Seq<u8>| #[trigger] final(w).passes(t) == old(w).passes(t),
{
    let taken: usize = take_from_buffer(buf.as_slice(), m, limit, w);
    proof {
        lemma_scan_end_bounds(buf@.subrange(0, m as int), 0, limit as int);
    }
    shift_front(buf.as_mut_slice(), taken, m);
    m - taken
}

/// Runs the whole pipeline: reads `r` to its end through a working buffer of
/// `buf_size` bytes and writes the text found to `w`. While more data may
/// follow, a round starts no unit beyond `taken_limit`, so that a character
/// whose bytes have not all arrived yet waits in the buffer for the next round;
/// once the source has run dry, everything that is left is consumed.
///
/// The buffer size is the caller's to choose. With `taken_limit + 4 <= buf_size`
/// there is room for a whole character behind the limit, and nothing
/// well-formed is lost. With less room, a character that starts at or before
/// the limit and does not fit in the buffer is dropped byte by byte; it is never
/// written in part.
pub fn buffer_filter<W: TextSink>(
    buf_size: usize,
    taken_limit: usize,
    r: &mut ByteReader,
    w: &mut W,
)
    ensures
        final(w).received() == old(w).received() + old(w).passes(
            stream_text(old(r).pending(), buf_size as nat, taken_limit as nat),
        ),
        final(w).flushed() >= old(w).flushed(),
        forall|t: Seq<u8>| #[trigger] final(w).passes(t) == old(w).passes(t),
        buf_size > 0 ==> final(r).pending() == Seq::<u8>::empty(),
        buf_size == 0 ==> final(r).pending() == old(r).pending(),
        final(r).step() == old(r).step(),
{
    let mut limit: usize = taken_limit;
    let mut buf: Vec<u8> = vec![0u8; buf_size];
    let mut m: usize = match fill_buf(buf.as_mut_slice(), r) {
        Ok(()) => buf_size,
        Err(n) => {
            limit = n;
            n
        },
    };
    proof {
        let stream: Seq<u8> = old(r).pending();
        assert(buf@.subrange(0, m as int) =~= stream.take(
            fill_count(0, stream.len(), buf_size as nat) as int,
        ));
        assert(r.pending() =~= stream.skip(fill_count(0, stream.len(), buf_size as nat) as int));
    }
    while m > 0
        invariant
            m <= buf_size,
            buf@.len() == buf_size,
            w.received() + w.passes(
                drain_text(
                    buf@.subrange(0, m as int),
                    r.pending(),
                    buf_size as nat,
                    limit as nat,
                ),
            ) == old(w).received() + old(w).passes(
                stream_text(old(r).pending(), buf_size as nat, taken_limit as nat),
            ),
            w.flushed() >= old(w).flushed(),
            forall|t: Seq<u8>| #[trigger] w.passes(t) == old(w).passes(t),
            m == 0 && buf_size > 0 ==> r.pending() == Seq::<u8>::empty(),
            buf_size == 0 ==> r.pending() == old(r).pending(),
            r.step() == old(r).step(),
        decreases m + r.pending().len(),
    {
        let ghost pend: Seq<u8> = buf@.subrange(0, m as int);
        let ghost rest: Seq<u8> = r.pending();
        let ghost text: Seq<u8> = scan_text(pend, 0, limit as int);
        let ghost keep: Seq<u8> = pend.skip(scan_end(pend, 0, limit as int));
        let kept: usize = drain_round(&mut buf, m, limit, w);
        let (_, tail) = buf.as_mut_slice().split_at_mut(kept);
        m = match fill_buf(tail, r) {
            Ok(()) => buf_size,
            Err(n) => {
                limit = kept + n;
                limit
            },
        };
        proof {
            let fed: nat = fill_count(keep.len(), rest.len(), buf_size as nat);
            assert(buf@.subrange(0, m as int) =~= keep + rest.take(fed as int));
            assert(r.pending() =~= rest.skip(fed as int));
            let later: Seq<u8> = drain_text(
                buf@.subrange(0, m as int),
                r.pending(),
                buf_size as nat,
                limit as nat,
            );
            w.lemma_passes_concat(text, later);
        }
    }
    proof {
        lemma_passes_nothing(&*w);
    }
}

/// What the whole tool writes for a stream: the text that the pipeline keeps,
/// narrowed to plain ASCII in ASCII-only mode.
pub open spec fn tool_text(ascii_only: bool, stream: Seq<u8>, size: nat, limit: nat) -> Seq<u8> {
    if ascii_only {
        plain_ascii_of(stream_text(stream, size, limit))
    } else {
        stream_text(stream, size, limit)
    }
}

/// Filters a stream that is held in memory: the pipeline runs over `input`
/// with a working buffer of `buf_size` bytes and the limit at half of it, and
/// what it writes, through the ASCII filter where `ascii_only` is set, is
/// returned.
pub fn filter_bytes(input: Vec<u8>, buf_size: usize, ascii_only: bool) -> (out: Vec<u8>)
    ensures
        out@ == tool_text(ascii_only, input@, buf_size as nat, (buf_size / 2) as nat),
{
    let mut r = ByteReader::new(input);
    let mut fw = FilterWriter::new(Vec::new(), ascii_only);
    buffer_filter(buf_size, buf_size / 2, &mut r, &mut fw);
    fw.into_inner()
}

} // verus!
