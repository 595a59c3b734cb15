//! What holds of the pipeline as a whole: its output is well-formed text, a
//! buffer with room behind the limit loses nothing to buffer boundaries, and
//! sanitized text passes through unchanged.

use vstd::prelude::*;
use vstd::utf8::*;
use crate::pipeline::{drain_text, fill_count, limit_after_fill, stream_text, tool_text};
use crate::sink::{
    is_plain_ascii, lemma_plain_ascii_concat, lemma_plain_ascii_empty, lemma_plain_byte_is_text,
    plain_ascii_of, plain_ascii_pred,
};
use crate::scan::{
    clean_text, lemma_scan_end_bounds, lemma_scan_in_prefix, lemma_scan_keeps_valid_tail,
    lemma_scan_resume, lemma_scan_shift, lemma_scan_text_valid, lemma_unit_bounds,
    lemma_unit_in_prefix, lemma_unit_shift, scalar_at, scan_end, scan_text, unit_end, unit_text,
};

verus! {

/// Whatever the rounds keep is well-formed UTF-8.
pub proof fn lemma_drain_text_valid(pend: Seq<u8>, rest: Seq<u8>, size: nat, limit: nat)
    ensures
        valid_utf8(drain_text(pend, rest, size, limit)),
    decreases pend.len() + rest.len(),
{
    if pend.len() != 0 {
        lemma_scan_end_bounds(pend, 0, limit as int);
        lemma_scan_text_valid(pend, 0, limit as int);
        let taken: int = scan_end(pend, 0, limit as int);
        let keep: Seq<u8> = pend.subrange(taken, pend.len() as int);
        let fed: nat = fill_count(keep.len(), rest.len(), size);
        let next: Seq<u8> = keep + rest.take(fed as int);
        let later: Seq<u8> = rest.skip(fed as int);
        let next_limit: nat = limit_after_fill(keep.len(), rest.len(), size, limit);
        lemma_drain_text_valid(next, later, size, next_limit);
        valid_utf8_concat(
            scan_text(pend, 0, limit as int),
            drain_text(next, later, size, next_limit),
        );
    }
}

/// The output of the pipeline is well-formed UTF-8, for every stream, every
/// buffer size and every limit: whatever is dropped, no character is ever
/// written in part.
pub proof fn lemma_stream_text_valid(stream: Seq<u8>, size: nat, limit: nat)
    ensures
        valid_utf8(stream_text(stream, size, limit)),
{
    let fed: nat = fill_count(0, stream.len(), size);
    lemma_drain_text_valid(
        stream.take(fed as int),
        stream.skip(fed as int),
        size,
        limit_after_fill(0, stream.len(), size, limit),
    );
}

/// The buffer as a fill attempt leaves it: full, with the limit for full
/// rounds, or holding the last of the stream, with the limit at its end.
pub open spec fn settled(
    pend: Seq<u8>,
    rest: Seq<u8>,
    size: nat,
    limit: nat,
    full_limit: nat,
) -> bool {
    ||| (pend.len() == size && limit == full_limit)
    ||| (rest.len() == 0 && limit == pend.len())
}

/// With room for a whole character behind the limit, the rounds keep of the
/// bytes they hold and those still to come exactly what one scan over all of
/// them keeps.
pub proof fn lemma_drain_text_is_clean(
    pend: Seq<u8>,
    rest: Seq<u8>,
    size: nat,
    limit: nat,
    full_limit: nat,
)
    requires
        full_limit + 4 <= size,
        settled(pend, rest, size, limit, full_limit),
    ensures
        drain_text(pend, rest, size, limit) == clean_text(pend + rest),
    decreases pend.len() + rest.len(),
{
    let t: Seq<u8> = pend + rest;
    if pend.len() != 0 {
        let taken: int = scan_end(pend, 0, limit as int);
        lemma_scan_end_bounds(pend, 0, limit as int);
        let keep: Seq<u8> = pend.subrange(taken, pend.len() as int);
        let fed: nat = fill_count(keep.len(), rest.len(), size);
        let next: Seq<u8> = keep + rest.take(fed as int);
        let later: Seq<u8> = rest.skip(fed as int);
        let next_limit: nat = limit_after_fill(keep.len(), rest.len(), size, limit);
        if pend.len() == size && limit == full_limit {
            assert(t.take(size as int) =~= pend);
            lemma_scan_in_prefix(t, size as int, 0, limit as int);
            assert(next + later =~= t.skip(taken));
            lemma_drain_text_is_clean(next, later, size, next_limit, full_limit);
            lemma_scan_resume(t, 0, limit as int, t.len() as int);
            lemma_scan_shift(t, taken, 0, t.len() - taken);
        } else {
            assert(drain_text(next, later, size, next_limit) == Seq::<u8>::empty());
        }
    }
}

/// A buffer with room for a whole character behind the limit loses nothing to
/// its boundaries: the pipeline keeps exactly the well-formed text of the
/// stream, however the stream falls into rounds. A character that begins near
/// the end of a full buffer is carried over and written whole in a later round.
pub proof fn lemma_stream_text_is_clean(stream: Seq<u8>, size: nat, limit: nat)
    requires
        limit + 4 <= size,
    ensures
        stream_text(stream, size, limit) == clean_text(stream),
{
    let fed: nat = fill_count(0, stream.len(), size);
    let pend: Seq<u8> = stream.take(fed as int);
    let rest: Seq<u8> = stream.skip(fed as int);
    assert(pend + rest =~= stream);
    lemma_drain_text_is_clean(
        pend,
        rest,
        size,
        limit_after_fill(0, stream.len(), size, limit),
        limit,
    );
}

/// Well-formed text is a fixed point of scanning: all of it is kept.
pub proof fn lemma_clean_text_of_valid(s: Seq<u8>)
    requires
        valid_utf8(s),
    ensures
        clean_text(s) == s,
{
    assert(s.subrange(0, s.len() as int) =~= s);
    lemma_scan_keeps_valid_tail(s, 0);
}

/// ASCII-only output holds nothing but tab, line feed and printable ASCII.
pub proof fn lemma_plain_ascii_only(bytes: Seq<u8>, i: int)
    requires
        0 <= i < plain_ascii_of(bytes).len(),
    ensures
        is_plain_ascii(plain_ascii_of(bytes)[i]),
{
    bytes.lemma_filter_pred(plain_ascii_pred(), i);
}

/// Bytes that are all plain ASCII are kept as they are.
pub proof fn lemma_plain_ascii_keeps_plain(bytes: Seq<u8>)
    requires
        forall|i: int| 0 <= i < bytes.len() ==> is_plain_ascii(#[trigger] bytes[i]),
    ensures
        plain_ascii_of(bytes) == bytes,
    decreases bytes.len(),
{
    if bytes.len() == 0 {
        lemma_plain_ascii_empty();
    } else {
        let front: Seq<u8> = bytes.drop_last();
        lemma_plain_ascii_keeps_plain(front);
        front.lemma_filter_push(bytes.last(), plain_ascii_pred());
        assert(front.push(bytes.last()) =~= bytes);
    }
}

/// Of bytes none of which is plain ASCII, nothing is kept.
pub proof fn lemma_plain_ascii_drops_others(bytes: Seq<u8>)
    requires
        forall|i: int| 0 <= i < bytes.len() ==> !is_plain_ascii(#[trigger] bytes[i]),
    ensures
        plain_ascii_of(bytes) == Seq::<u8>::empty(),
    decreases bytes.len(),
{
    if bytes.len() == 0 {
        lemma_plain_ascii_empty();
    } else {
        let front: Seq<u8> = bytes.drop_last();
        lemma_plain_ascii_drops_others(front);
        front.lemma_filter_push(bytes.last(), plain_ascii_pred());
        assert(front.push(bytes.last()) =~= bytes);
    }
}

/// Plain ASCII bytes are well-formed text.
pub proof fn lemma_plain_bytes_are_text(bytes: Seq<u8>)
    requires
        forall|i: int| 0 <= i < bytes.len() ==> is_plain_ascii(#[trigger] bytes[i]),
    ensures
        valid_utf8(bytes),
    decreases bytes.len(),
{
    if bytes.len() != 0 {
        let front: Seq<u8> = bytes.drop_last();
        lemma_plain_bytes_are_text(front);
        lemma_plain_byte_is_text(bytes.last());
        valid_utf8_concat(front, seq![bytes.last()]);
        assert(front + seq![bytes.last()] =~= bytes);
    }
}

/// What ASCII-only output keeps of one character: its single byte when the
/// character is encoded in one byte and that byte is plain ASCII, nothing
/// otherwise. A character of two or more bytes contributes nothing.
pub open spec fn plain_char_bytes(c: char) -> Seq<u8> {
    if has_width_1_encoding(c as u32) && is_plain_ascii(c as u8) {
        seq![c as u8]
    } else {
        Seq::empty()
    }
}

/// What ASCII-only output keeps of a sequence of characters.
pub open spec fn plain_chars(chars: Seq<char>) -> Seq<u8>
    decreases chars.len(),
{
    if chars.len() == 0 {
        Seq::empty()
    } else {
        plain_char_bytes(chars[0]) + plain_chars(chars.drop_first())
    }
}

/// The filter seen character by character: of well-formed text, ASCII-only
/// output keeps the plain ASCII characters and drops every other character
/// whole, so a character of two or more bytes leaves no byte behind.
pub proof fn lemma_plain_ascii_by_chars(text: Seq<u8>)
    requires
        valid_utf8(text),
    ensures
        plain_ascii_of(text) == plain_chars(decode_utf8(text)),
    decreases text.len(),
{
    if text.len() == 0 {
        lemma_plain_ascii_empty();
    } else {
        let head: Seq<u8> = take_first_scalar(text);
        let tail: Seq<u8> = pop_first_scalar(text);
        let code: u32 = decode_first_scalar(text);
        let c: char = code as char;
        let chars: Seq<char> = decode_utf8(text);
        assert(head + tail =~= text);
        lemma_plain_ascii_concat(head, tail);
        lemma_plain_ascii_by_chars(tail);
        assert(chars.drop_first() =~= decode_utf8(tail));
        decode_utf8_first_scalar(text);
        assert(plain_ascii_of(head) == plain_char_bytes(c)) by {
            let b: u8 = text[0];
            if is_leading_byte_width_1(b) {
                assert(code == b as u32) by (bit_vector)
                    requires
                        b <= 0x7f,
                        code == (b & 0x7F) as u32,
                ;
                lemma_plain_ascii_empty();
                Seq::<u8>::empty().lemma_filter_push(b, plain_ascii_pred());
            } else {
                lemma_plain_ascii_drops_others(head);
            }
        }
    }
}

/// Whatever the tool writes is well-formed UTF-8, in either mode.
pub proof fn lemma_tool_text_valid(ascii_only: bool, stream: Seq<u8>, size: nat, limit: nat)
    ensures
        valid_utf8(tool_text(ascii_only, stream, size, limit)),
{
    if ascii_only {
        let kept: Seq<u8> = plain_ascii_of(stream_text(stream, size, limit));
        assert forall|i: int| 0 <= i < kept.len() implies is_plain_ascii(#[trigger] kept[i]) by {
            lemma_plain_ascii_only(stream_text(stream, size, limit), i);
        }
        lemma_plain_bytes_are_text(kept);
    } else {
        lemma_stream_text_valid(stream, size, limit);
    }
}

/// True when `text` is well-formed and none of its characters is encoded in
/// more than `width` bytes.
pub open spec fn narrow_text(text: Seq<u8>, width: int) -> bool
    decreases text.len(),
{
    text.len() != 0 ==> {
        &&& scalar_at(text, 0)
        &&& unit_end(text, 0) <= width
        &&& narrow_text(text.skip(unit_end(text, 0)), width)
    }
}

/// Narrow text is well-formed, and all of it is kept by a scan.
pub proof fn lemma_narrow_text_valid(text: Seq<u8>, width: int)
    requires
        narrow_text(text, width),
    ensures
        valid_utf8(text),
        clean_text(text) == text,
    decreases text.len(),
{
    if text.len() != 0 {
        lemma_unit_bounds(text, 0);
        lemma_narrow_text_valid(text.skip(unit_end(text, 0)), width);
    }
    lemma_clean_text_of_valid(text);
}

/// Text that is narrow for a width is narrow for every greater width.
pub proof fn lemma_narrow_text_wider(text: Seq<u8>, width: int, wider: int)
    requires
        narrow_text(text, width),
        width <= wider,
    ensures
        narrow_text(text, wider),
    decreases text.len(),
{
    if text.len() != 0 {
        lemma_unit_bounds(text, 0);
        lemma_narrow_text_wider(text.skip(unit_end(text, 0)), width, wider);
    }
}

/// Narrow texts, one after the other, make a narrow text.
pub proof fn lemma_narrow_text_concat(a: Seq<u8>, b: Seq<u8>, width: int)
    requires
        narrow_text(a, width),
        narrow_text(b, width),
    ensures
        narrow_text(a + b, width),
    decreases a.len(),
{
    if a.len() != 0 {
        let e: int = unit_end(a, 0);
        lemma_unit_bounds(a, 0);
        lemma_scalar_before_more(a, b);
        lemma_narrow_text_concat(a.skip(e), b, width);
        assert((a + b).skip(e) =~= a.skip(e) + b);
    }
}

/// Plain ASCII bytes are narrow text of width one.
pub proof fn lemma_plain_bytes_are_narrow(bytes: Seq<u8>)
    requires
        forall|i: int| 0 <= i < bytes.len() ==> is_plain_ascii(#[trigger] bytes[i]),
    ensures
        narrow_text(bytes, 1),
    decreases bytes.len(),
{
    if bytes.len() != 0 {
        let b: u8 = bytes[0];
        assert(codepoint_width_1(b) <= 0x7F) by (bit_vector);
        lemma_plain_bytes_are_narrow(bytes.skip(1));
    }
}

/// The widest character that a buffer of `size` bytes can hold.
pub open spec fn widest_held(size: nat) -> int {
    if size < 4 {
        size as int
    } else {
        4
    }
}

/// What a scan keeps holds no character wider than the bytes that were
/// scanned.
pub proof fn lemma_scan_text_narrow(s: Seq<u8>, i: int, limit: int)
    requires
        0 <= i <= s.len(),
    ensures
        narrow_text(scan_text(s, i, limit), widest_held(s.len())),
    decreases s.len() - i,
{
    if i <= limit && i < s.len() {
        lemma_unit_bounds(s, i);
        let e: int = unit_end(s, i);
        let width: int = widest_held(s.len());
        lemma_scan_text_narrow(s, e, limit);
        if scalar_at(s, i) {
            let head: Seq<u8> = unit_text(s, i);
            lemma_unit_shift(s, i, 0);
            lemma_unit_in_prefix(s.skip(i), e - i, 0);
            assert(narrow_text(head, width)) by {
                reveal_with_fuel(narrow_text, 2);
            }
            lemma_narrow_text_concat(head, scan_text(s, e, limit), width);
        }
    }
}

/// What the rounds keep holds no character wider than the buffer.
pub proof fn lemma_drain_text_narrow(pend: Seq<u8>, rest: Seq<u8>, size: nat, limit: nat)
    requires
        pend.len() <= size,
    ensures
        narrow_text(drain_text(pend, rest, size, limit), widest_held(size)),
    decreases pend.len() + rest.len(),
{
    if pend.len() != 0 {
        let taken: int = scan_end(pend, 0, limit as int);
        lemma_scan_end_bounds(pend, 0, limit as int);
        let keep: Seq<u8> = pend.subrange(taken, pend.len() as int);
        let fed: nat = fill_count(keep.len(), rest.len(), size);
        let next: Seq<u8> = keep + rest.take(fed as int);
        let later: Seq<u8> = rest.skip(fed as int);
        let next_limit: nat = limit_after_fill(keep.len(), rest.len(), size, limit);
        lemma_scan_text_narrow(pend, 0, limit as int);
        lemma_narrow_text_wider(
            scan_text(pend, 0, limit as int),
            widest_held(pend.len()),
            widest_held(size),
        );
        lemma_drain_text_narrow(next, later, size, next_limit);
        lemma_narrow_text_concat(
            scan_text(pend, 0, limit as int),
            drain_text(next, later, size, next_limit),
            widest_held(size),
        );
    }
}

/// True when a buffer of `size` bytes has room behind the limit for the
/// widest character that it can hold: the last place at which a round starts a
/// unit leaves that many bytes to the end of the buffer.
pub open spec fn room_behind_limit(size: nat, limit: nat, width: int) -> bool {
    0 < size && (if limit < size {
        limit as int
    } else {
        size - 1
    }) + width <= size
}

/// The scan of a full buffer takes narrow text as it stands: where the buffer
/// holds the first `n` bytes of a narrow text and has room behind the limit for
/// its characters, the scan keeps every byte up to where it stops, and what
/// follows is narrow text again.
pub proof fn lemma_scan_narrow_prefix(text: Seq<u8>, n: int, i: int, limit: nat, width: int)
    requires
        0 <= i <= n <= text.len(),
        narrow_text(text.skip(i), width),
        room_behind_limit(n as nat, limit, width),
    ensures
        scan_text(text.take(n), i, limit as int) == text.subrange(
            i,
            scan_end(text.take(n), i, limit as int),
        ),
        narrow_text(text.skip(scan_end(text.take(n), i, limit as int)), width),
    decreases n - i,
{
    let p: Seq<u8> = text.take(n);
    if i <= limit && i < n {
        lemma_unit_shift(text, i, 0);
        lemma_unit_bounds(text, i);
        let e: int = unit_end(text, i);
        lemma_unit_in_prefix(text, n, i);
        assert(text.skip(i).skip(e - i) =~= text.skip(e));
        lemma_scan_narrow_prefix(text, n, e, limit, width);
        lemma_scan_end_bounds(p, e, limit as int);
    }
}

/// With room behind the limit for its characters, narrow text passes through
/// the rounds unchanged.
pub proof fn lemma_drain_text_of_narrow(
    pend: Seq<u8>,
    rest: Seq<u8>,
    size: nat,
    limit: nat,
    full_limit: nat,
    width: int,
)
    requires
        narrow_text(pend + rest, width),
        room_behind_limit(size, full_limit, width),
        settled(pend, rest, size, limit, full_limit),
    ensures
        drain_text(pend, rest, size, limit) == pend + rest,
    decreases pend.len() + rest.len(),
{
    let t: Seq<u8> = pend + rest;
    if pend.len() != 0 {
        let taken: int = scan_end(pend, 0, limit as int);
        lemma_scan_end_bounds(pend, 0, limit as int);
        let keep: Seq<u8> = pend.subrange(taken, pend.len() as int);
        let fed: nat = fill_count(keep.len(), rest.len(), size);
        let next: Seq<u8> = keep + rest.take(fed as int);
        let later: Seq<u8> = rest.skip(fed as int);
        let next_limit: nat = limit_after_fill(keep.len(), rest.len(), size, limit);
        if pend.len() == size && limit == full_limit {
            assert(t.take(size as int) =~= pend);
            assert(t.skip(0) =~= t);
            lemma_scan_narrow_prefix(t, size as int, 0, limit, width);
            assert(next + later =~= t.skip(taken));
            lemma_drain_text_of_narrow(next, later, size, next_limit, full_limit, width);
        } else {
            lemma_narrow_text_valid(pend, width);
            assert(drain_text(next, later, size, next_limit) == Seq::<u8>::empty());
        }
    }
}

/// True when the pipeline keeps its own output: no buffer at all, or room
/// behind the limit for the widest character that the buffer can hold.
pub open spec fn keeps_own_text(size: nat, limit: nat) -> bool {
    size == 0 || room_behind_limit(size, limit, widest_held(size))
}

/// Running the tool on its own output changes nothing, in either mode, where
/// the buffer has room behind the limit for the widest character that it can
/// hold: sanitized text is a fixed point. With the limit at half the buffer
/// that is so for a buffer of seven bytes or more, and for one of a single byte.
pub proof fn lemma_rerun_changes_nothing(ascii_only: bool, stream: Seq<u8>, size: nat, limit: nat)
    requires
        keeps_own_text(size, limit),
    ensures
        tool_text(ascii_only, tool_text(ascii_only, stream, size, limit), size, limit)
            == tool_text(ascii_only, stream, size, limit),
{
    let once: Seq<u8> = tool_text(ascii_only, stream, size, limit);
    let width: int = widest_held(size);
    if size == 0 {
        lemma_plain_ascii_empty();
    } else {
        let fed: nat = fill_count(0, stream.len(), size);
        lemma_drain_text_narrow(
            stream.take(fed as int),
            stream.skip(fed as int),
            size,
            limit_after_fill(0, stream.len(), size, limit),
        );
        if ascii_only {
            assert forall|i: int| 0 <= i < once.len() implies is_plain_ascii(
                #[trigger] once[i],
            ) by {
                lemma_plain_ascii_only(stream_text(stream, size, limit), i);
            }
            lemma_plain_bytes_are_narrow(once);
            lemma_narrow_text_wider(once, 1, width);
            lemma_plain_ascii_keeps_plain(once);
        }
        let again: nat = fill_count(0, once.len(), size);
        assert(once.take(again as int) + once.skip(again as int) =~= once);
        lemma_drain_text_of_narrow(
            once.take(again as int),
            once.skip(again as int),
            size,
            limit_after_fill(0, once.len(), size, limit),
            limit,
            width,
        );
    }
}

/// True when `out` is drawn from `s`: it is what is left of `s` when, from
/// left to right, each byte is either dropped or kept as part of a whole scalar
/// that stands at that place in `s`. Every byte of `out` then lies in a
/// well-formed stretch of `s`, and the bytes keep their order.
pub open spec fn drawn_from(out: Seq<u8>, s: Seq<u8>) -> bool
    decreases s.len(),
{
    if s.len() == 0 {
        out.len() == 0
    } else {
        ||| drawn_from(out, s.skip(1))
        ||| {
            &&& scalar_at(s, 0)
            &&& out.len() >= unit_end(s, 0)
            &&& out.take(unit_end(s, 0)) == s.take(unit_end(s, 0))
            &&& drawn_from(out.skip(unit_end(s, 0)), s.skip(unit_end(s, 0)))
        }
    }
}

/// Nothing can be drawn from anything.
pub proof fn lemma_drawn_nothing(s: Seq<u8>)
    ensures
        drawn_from(Seq::empty(), s),
    decreases s.len(),
{
    if s.len() != 0 {
        lemma_drawn_nothing(s.skip(1));
    }
}

/// What is drawn from a sequence without its first `k` bytes is drawn from
/// the sequence.
pub proof fn lemma_drawn_after_skip(out: Seq<u8>, s: Seq<u8>, k: int)
    requires
        0 <= k <= s.len(),
        drawn_from(out, s.skip(k)),
    ensures
        drawn_from(out, s),
    decreases k,
{
    if k == 0 {
        assert(s.skip(0) =~= s);
    } else {
        assert(s.skip(k - 1).skip(1) =~= s.skip(k));
        lemma_drawn_after_skip(out, s, k - 1);
    }
}

/// A scalar at the front of a sequence is still there when more bytes follow.
pub proof fn lemma_scalar_before_more(x: Seq<u8>, y: Seq<u8>)
    requires
        scalar_at(x, 0),
    ensures
        scalar_at(x + y, 0),
        unit_end(x + y, 0) == unit_end(x, 0),
{
}

/// Drawing works piece by piece: what is drawn from two sequences, one after
/// the other, is drawn from the two joined.
pub proof fn lemma_drawn_concat(a: Seq<u8>, x: Seq<u8>, b: Seq<u8>, y: Seq<u8>)
    requires
        drawn_from(a, x),
        drawn_from(b, y),
    ensures
        drawn_from(a + b, x + y),
    decreases x.len(),
{
    if x.len() != 0 {
        if drawn_from(a, x.skip(1)) {
            lemma_drawn_concat(a, x.skip(1), b, y);
            assert((x + y).skip(1) =~= x.skip(1) + y);
        } else {
            let e: int = unit_end(x, 0);
            lemma_unit_bounds(x, 0);
            lemma_scalar_before_more(x, y);
            lemma_drawn_concat(a.skip(e), x.skip(e), b, y);
            assert((x + y).skip(e) =~= x.skip(e) + y);
            assert((a + b).skip(e) =~= a.skip(e) + b);
            assert((a + b).take(e) =~= a.take(e));
            assert((x + y).take(e) =~= x.take(e));
        }
    }
}

/// What a scan keeps is drawn from the bytes that it passes.
pub proof fn lemma_scan_text_drawn(s: Seq<u8>, i: int, limit: int)
    requires
        0 <= i <= s.len(),
    ensures
        drawn_from(scan_text(s, i, limit), s.subrange(i, scan_end(s, i, limit))),
    decreases s.len() - i,
{
    let end: int = scan_end(s, i, limit);
    lemma_scan_end_bounds(s, i, limit);
    let x: Seq<u8> = s.subrange(i, end);
    if i <= limit && i < s.len() {
        lemma_unit_bounds(s, i);
        let e: int = unit_end(s, i);
        lemma_scan_end_bounds(s, e, limit);
        lemma_scan_text_drawn(s, e, limit);
        let later: Seq<u8> = scan_text(s, e, limit);
        if scalar_at(s, i) {
            let head: Seq<u8> = unit_text(s, i);
            assert((head + later).take(e - i) =~= x.take(e - i));
            assert((head + later).skip(e - i) =~= later);
            assert(x.skip(e - i) =~= s.subrange(e, end));
        } else {
            assert(x.skip(1) =~= s.subrange(e, end));
        }
    }
}

/// What the rounds keep is drawn from the bytes that they hold and those
/// still to come.
pub proof fn lemma_drain_text_drawn(pend: Seq<u8>, rest: Seq<u8>, size: nat, limit: nat)
    ensures
        drawn_from(drain_text(pend, rest, size, limit), pend + rest),
    decreases pend.len() + rest.len(),
{
    if pend.len() == 0 {
        lemma_drawn_nothing(pend + rest);
    } else {
        let taken: int = scan_end(pend, 0, limit as int);
        lemma_scan_end_bounds(pend, 0, limit as int);
        let keep: Seq<u8> = pend.subrange(taken, pend.len() as int);
        let fed: nat = fill_count(keep.len(), rest.len(), size);
        let next: Seq<u8> = keep + rest.take(fed as int);
        let later: Seq<u8> = rest.skip(fed as int);
        let next_limit: nat = limit_after_fill(keep.len(), rest.len(), size, limit);
        lemma_scan_text_drawn(pend, 0, limit as int);
        lemma_drain_text_drawn(next, later, size, next_limit);
        lemma_drawn_concat(
            scan_text(pend, 0, limit as int),
            pend.subrange(0, taken),
            drain_text(next, later, size, next_limit),
            next + later,
        );
        assert(pend.subrange(0, taken) + (next + later) =~= pend + rest);
    }
}

/// Keeping only plain ASCII of what is drawn from a sequence leaves something
/// that is drawn from it too: the bytes that stay are scalars of one byte.
pub proof fn lemma_plain_ascii_drawn(out: Seq<u8>, s: Seq<u8>)
    requires
        drawn_from(out, s),
    ensures
        drawn_from(plain_ascii_of(out), s),
    decreases s.len(),
{
    if s.len() == 0 {
        lemma_plain_ascii_empty();
    } else {
        if drawn_from(out, s.skip(1)) {
            lemma_plain_ascii_drawn(out, s.skip(1));
        } else {
            let e: int = unit_end(s, 0);
            lemma_unit_bounds(s, 0);
            let head: Seq<u8> = out.take(e);
            let tail: Seq<u8> = out.skip(e);
            assert(head + tail =~= out);
            lemma_plain_ascii_concat(head, tail);
            lemma_plain_ascii_drawn(tail, s.skip(e));
            if e == 1 && is_plain_ascii(s[0]) {
                lemma_plain_ascii_keeps_plain(head);
                let kept: Seq<u8> = plain_ascii_of(out);
                assert(kept.take(e) =~= s.take(e));
                assert(kept.skip(e) =~= plain_ascii_of(tail));
            } else {
                lemma_plain_ascii_drops_others(head);
                lemma_drawn_after_skip(plain_ascii_of(out), s, e);
            }
        }
    }
}

/// Every byte that the tool writes comes from a well-formed stretch of the
/// stream: the output is drawn from the stream, whatever the stream, the buffer
/// size, the limit and the mode.
pub proof fn lemma_tool_text_drawn(ascii_only: bool, stream: Seq<u8>, size: nat, limit: nat)
    ensures
        drawn_from(tool_text(ascii_only, stream, size, limit), stream),
{
    let fed: nat = fill_count(0, stream.len(), size);
    let pend: Seq<u8> = stream.take(fed as int);
    let rest: Seq<u8> = stream.skip(fed as int);
    assert(pend + rest =~= stream);
    lemma_drain_text_drawn(pend, rest, size, limit_after_fill(0, stream.len(), size, limit));
    if ascii_only {
        lemma_plain_ascii_drawn(stream_text(stream, size, limit), stream);
    }
}

} // verus!
