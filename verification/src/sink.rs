//! Where the sanitized text goes: the sink interface, the in-memory sink, and
//! the filter that narrows text to plain ASCII on its way to another sink.

use vstd::prelude::*;
use vstd::utf8::*;

verus! {

/// True for the bytes that ASCII-only output may hold: tab, line feed, and the
/// printable range from space to tilde.
pub open spec fn is_plain_ascii(b: u8) -> bool {
    b == 0x09 || b == 0x0A || (0x20 <= b && b <= 0x7E)
}

/// The predicate of `is_plain_ascii`, as a value to filter with.
pub open spec fn plain_ascii_pred() -> spec_fn(u8) -> bool {
    |b: u8| is_plain_ascii(b)
}

/// What is left of `bytes` when only plain ASCII is kept.
pub open spec fn plain_ascii_of(bytes: Seq<u8>) -> Seq<u8> {
    bytes.filter(plain_ascii_pred())
}

/// Nothing is kept of nothing.
pub proof fn lemma_plain_ascii_empty()
    ensures
        plain_ascii_of(Seq::empty()) == Seq::<u8>::empty(),
{
    reveal(Seq::filter);
}

/// Keeping plain ASCII works piece by piece.
pub proof fn lemma_plain_ascii_concat(a: Seq<u8>, b: Seq<u8>)
    ensures
        plain_ascii_of(a + b) == plain_ascii_of(a) + plain_ascii_of(b),
{
    Seq::filter_distributes_over_add(a, b, plain_ascii_pred());
}

/// One plain ASCII byte is well-formed text on its own.
pub proof fn lemma_plain_byte_is_text(b: u8)
    requires
        is_plain_ascii(b),
    ensures
        valid_utf8(seq![b]),
{
    reveal_with_fuel(valid_utf8, 2);
    assert(codepoint_width_1(b) <= 0x7F) by (bit_vector);
}

/// A destination for well-formed text. A sink takes spans of valid UTF-8 and
/// hands on to its destination what it lets pass of them; it never takes a span
/// that is not well-formed.
pub trait TextSink {
    /// Everything that has reached the destination so far.
    spec fn received(&self) -> Seq<u8>;

    /// What reaches the destination when `text` is written.
    spec fn passes(&self, text: Seq<u8>) -> Seq<u8>;

    /// How many of the received bytes are flushed: handed on for good, with
    /// none of them waiting in a buffer on the way.
    spec fn flushed(&self) -> nat;

    /// A sink treats a text as the concatenation of its parts.
    proof fn lemma_passes_concat(&self, a: Seq<u8>, b: Seq<u8>)
        ensures
            self.passes(a + b) == self.passes(a) + self.passes(b),
    ;

    /// Writes the whole of `buf` and returns the number of bytes consumed.
    /// What was flushed before stays flushed.
    fn write(&mut self, buf: &[u8]) -> (n: usize)
        requires
            valid_utf8(buf@),
        ensures
            n == buf@.len(),
            final(self).received() == old(self).received() + old(self).passes(buf@),
            final(self).flushed() >= old(self).flushed(),
            forall|t: Seq<u8>| #[trigger] final(self).passes(t) == old(self).passes(t),
    ;

    /// Flushes the sink: everything that the destination received is handed
    /// on for good. Nothing is added to what the destination received.
    fn flush(&mut self)
        ensures
            final(self).received() == old(self).received(),
            final(self).flushed() == final(self).received().len(),
            forall|t: Seq<u8>| #[trigger] final(self).passes(t) == old(self).passes(t),
    ;
}

/// A sink hands on nothing when nothing is written.
pub proof fn lemma_passes_nothing<W: TextSink>(w: &W)
    ensures
        w.passes(Seq::empty()) == Seq::<u8>::empty(),
{
    // What passes of nothing is as long as twice itself.
    w.lemma_passes_concat(Seq::empty(), Seq::empty());
}

impl TextSink for Vec<u8> {
    open spec fn received(&self) -> Seq<u8> {
        self@
    }

    open spec fn passes(&self, text: Seq<u8>) -> Seq<u8> {
        text
    }

    /// A vector holds what it received in memory: nothing waits on the way.
    open spec fn flushed(&self) -> nat {
        self@.len()
    }

    proof fn lemma_passes_concat(&self, a: Seq<u8>, b: Seq<u8>) {
    }

    fn write(&mut self, buf: &[u8]) -> (n: usize) {
        self.extend_from_slice(buf);
        buf.len()
    }

    fn flush(&mut self) {
    }
}

/// A sink in front of another sink. In ASCII-only mode it lets through the
/// plain ASCII bytes of what is written to it and drops every other character;
/// otherwise it hands the text on unchanged. The filter owns the sink behind it
/// and gives it back with `into_inner`.
pub struct FilterWriter<W: TextSink> {
    /// If true, only tab, line feed and printable ASCII pass.
    pub ascii_only: bool,
    /// The sink that takes what passes.
    pub backend: W,
}

impl<W: TextSink> FilterWriter<W> {
    /// What this filter itself lets through of `text`, before the backend has
    /// its say.
    pub open spec fn filtered(&self, text: Seq<u8>) -> Seq<u8> {
        if self.ascii_only {
            plain_ascii_of(text)
        } else {
            text
        }
    }

    /// Puts a filter in front of `backend`.
    pub fn new(backend: W, ascii_only: bool) -> (fw: Self)
        ensures
            fw.ascii_only == ascii_only,
            fw.backend == backend,
    {
        Self { ascii_only, backend }
    }

    /// Takes the filter away and gives the sink behind it back.
    pub fn into_inner(self) -> (backend: W)
        ensures
            backend == self.backend,
    {
        self.backend
    }
}

impl<W: TextSink> TextSink for FilterWriter<W> {
    open spec fn received(&self) -> Seq<u8> {
        self.backend.received()
    }

    open spec fn passes(&self, text: Seq<u8>) -> Seq<u8> {
        self.backend.passes(self.filtered(text))
    }

    /// The filter holds nothing back itself: what is flushed is what the sink
    /// behind it has flushed.
    open spec fn flushed(&self) -> nat {
        self.backend.flushed()
    }

    proof fn lemma_passes_concat(&self, a: Seq<u8>, b: Seq<u8>) {
        lemma_plain_ascii_concat(a, b);
        self.backend.lemma_passes_concat(self.filtered(a), self.filtered(b));
    }

    fn write(&mut self, buf: &[u8]) -> (n: usize)
        ensures
            final(self).ascii_only == old(self).ascii_only,
    {
        if self.ascii_only {
            proof {
                lemma_passes_nothing(&self.backend);
                lemma_plain_ascii_empty();
                assert(buf@.subrange(0, 0) =~= Seq::<u8>::empty());
            }
            let mut j: usize = 0;
            while j < buf.len()
                invariant
                    j <= buf@.len(),
                    self.ascii_only,
                    self.backend.flushed() >= old(self).backend.flushed(),
                    self.backend.received() == old(self).backend.received() + old(
                        self,
                    ).backend.passes(plain_ascii_of(buf@.subrange(0, j as int))),
                    forall|t: Seq<u8>| #[trigger]
                        self.backend.passes(t) == old(self).backend.passes(t),
                decreases buf@.len() - j,
            {
                let c_byte: u8 = buf[j];
                proof {
                    let head = buf@.subrange(0, j as int);
                    assert(buf@.subrange(0, j as int + 1) =~= head.push(c_byte));
                    head.lemma_filter_push(c_byte, plain_ascii_pred());
                }
                if (c_byte < 11 && c_byte >= 9) || (c_byte < 127 && c_byte >= 32) {
                    let piece = vstd::slice::slice_subrange(buf, j, j + 1);
                    proof {
                        assert(piece@ =~= seq![c_byte]);
                        lemma_plain_byte_is_text(c_byte);
                        let head = buf@.subrange(0, j as int);
                        old(self).backend.lemma_passes_concat(plain_ascii_of(head), seq![c_byte]);
                        assert(plain_ascii_of(head).push(c_byte) =~= plain_ascii_of(head)
                            + seq![c_byte]);
                    }
                    self.backend.write(piece);
                }
                j += 1;
            }
            assert(buf@.subrange(0, buf@.len() as int) =~= buf@);
            buf.len()
        } else {
            self.backend.write(buf)
        }
    }

    fn flush(&mut self)
        ensures
            final(self).ascii_only == old(self).ascii_only,
    {
        self.backend.flush()
    }
}

} // verus!
