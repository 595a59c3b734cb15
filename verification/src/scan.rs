//! The mathematical model of sanitizing: which bytes of a sequence belong to
//! well-formed UTF-8 scalars, and what a left-to-right scan keeps of them.

use vstd::prelude::*;
use vstd::utf8::*;

verus! {

/// True when a complete, well-formed encoding of one scalar starts at index
/// `i` of `s`.
pub open spec fn scalar_at(s: Seq<u8>, i: int) -> bool {
    0 <= i < s.len() && valid_first_scalar(s.subrange(i, s.len() as int))
}

/// The end of the unit that starts at `i`: the whole scalar where one starts
/// there, a single stray byte otherwise.
pub open spec fn unit_end(s: Seq<u8>, i: int) -> int {
    if scalar_at(s, i) {
        i + length_of_first_scalar(s.subrange(i, s.len() as int))
    } else {
        i + 1
    }
}

/// The bytes that the unit starting at `i` contributes to the output: the
/// scalar itself, or nothing for a stray byte.
pub open spec fn unit_text(s: Seq<u8>, i: int) -> Seq<u8> {
    if scalar_at(s, i) {
        s.subrange(i, unit_end(s, i))
    } else {
        Seq::empty()
    }
}

/// Where a scan that starts at `i` stops: it moves unit by unit and starts no
/// unit beyond `limit` or at the end of `s`.
pub open spec fn scan_end(s: Seq<u8>, i: int, limit: int) -> int
    decreases s.len() - i,
{
    if 0 <= i <= limit && i < s.len() {
        scan_end(s, unit_end(s, i), limit)
    } else {
        i
    }
}

/// The text that a scan starting at `i` keeps: the scalars among the units it
/// passes, in order.
pub open spec fn scan_text(s: Seq<u8>, i: int, limit: int) -> Seq<u8>
    decreases s.len() - i,
{
    if 0 <= i <= limit && i < s.len() {
        unit_text(s, i) + scan_text(s, unit_end(s, i), limit)
    } else {
        Seq::empty()
    }
}

/// All the well-formed text in `s`: what a scan over the whole of it keeps.
pub open spec fn clean_text(s: Seq<u8>) -> Seq<u8> {
    scan_text(s, 0, s.len() as int)
}

/// The price of treating `s[i..j]` as one span: nothing when it is well-formed
/// UTF-8, one per byte when it has to be discarded.
pub open spec fn span_cost(s: Seq<u8>, i: int, j: int) -> int {
    if valid_utf8(s.subrange(i, j)) {
        0
    } else {
        j - i
    }
}

/// The least number of bytes that must be discarded from `s[i..]` when it is
/// cut into well-formed spans and discarded spans: the stray bytes from `i` on.
pub open spec fn min_cost(s: Seq<u8>, i: int) -> int
    decreases s.len() - i,
{
    if 0 <= i < s.len() {
        (if scalar_at(s, i) { 0int } else { 1int }) + min_cost(s, unit_end(s, i))
    } else {
        0
    }
}

/// A unit is never empty, and a scalar lies inside the sequence.
pub proof fn lemma_unit_bounds(s: Seq<u8>, i: int)
    requires
        0 <= i < s.len(),
    ensures
        i < unit_end(s, i) <= s.len(),
        unit_end(s, i) <= i + 4,
{
}

/// A well-formed span that is not empty begins with a scalar, and what follows
/// that scalar inside the span is well-formed too.
pub proof fn lemma_valid_span_head(s: Seq<u8>, i: int, j: int)
    requires
        0 <= i < j <= s.len(),
        valid_utf8(s.subrange(i, j)),
    ensures
        scalar_at(s, i),
        unit_end(s, i) <= j,
        valid_utf8(s.subrange(unit_end(s, i), j)),
{
    assert(pop_first_scalar(s.subrange(i, j)) =~= s.subrange(unit_end(s, i), j));
}

/// The bytes of one scalar, taken alone, are well-formed.
pub proof fn lemma_scalar_is_valid(s: Seq<u8>, i: int)
    requires
        scalar_at(s, i),
    ensures
        valid_utf8(s.subrange(i, unit_end(s, i))),
{
    reveal_with_fuel(valid_utf8, 2);
}

/// No scalar starts inside another one: the bytes behind the first are
/// continuation bytes.
pub proof fn lemma_no_scalar_inside(s: Seq<u8>, i: int, k: int)
    requires
        scalar_at(s, i),
        i < k < unit_end(s, i),
    ensures
        is_continuation_byte(s[k]),
        !scalar_at(s, k),
{
}

/// The cost from `i` on is never negative and never more than the bytes left.
pub proof fn lemma_min_cost_bounds(s: Seq<u8>, i: int)
    requires
        0 <= i <= s.len(),
    ensures
        0 <= min_cost(s, i) <= s.len() - i,
    decreases s.len() - i,
{
    if i < s.len() {
        lemma_unit_bounds(s, i);
        lemma_min_cost_bounds(s, unit_end(s, i));
    }
}

/// From a position inside a scalar, every byte up to the scalar's end is a
/// stray one.
pub proof fn lemma_min_cost_inside(s: Seq<u8>, i: int, k: int)
    requires
        scalar_at(s, i),
        i < k <= unit_end(s, i),
    ensures
        min_cost(s, k) == (unit_end(s, i) - k) + min_cost(s, unit_end(s, i)),
    decreases unit_end(s, i) - k,
{
    if k < unit_end(s, i) {
        lemma_no_scalar_inside(s, i, k);
        lemma_min_cost_inside(s, i, k + 1);
    }
}

/// Discarding the bytes between `i` and `j` outright is never cheaper than the
/// best cut from `i`.
pub proof fn lemma_min_cost_skip(s: Seq<u8>, i: int, j: int)
    requires
        0 <= i <= j <= s.len(),
    ensures
        min_cost(s, i) <= (j - i) + min_cost(s, j),
    decreases s.len() - i,
{
    if i < j {
        lemma_unit_bounds(s, i);
        let e: int = unit_end(s, i);
        if scalar_at(s, i) {
            if e <= j {
                lemma_min_cost_skip(s, e, j);
            } else {
                lemma_min_cost_inside(s, i, j);
                lemma_min_cost_bounds(s, e);
            }
        } else {
            lemma_min_cost_skip(s, e, j);
        }
    }
}

/// A well-formed span costs nothing: the cost at its start is the cost at its
/// end.
pub proof fn lemma_min_cost_across_valid(s: Seq<u8>, i: int, j: int)
    requires
        0 <= i <= j <= s.len(),
        valid_utf8(s.subrange(i, j)),
    ensures
        min_cost(s, i) == min_cost(s, j),
    decreases j - i,
{
    if i < j {
        lemma_valid_span_head(s, i, j);
        lemma_unit_bounds(s, i);
        lemma_min_cost_across_valid(s, unit_end(s, i), j);
    }
}

/// The optimality equation behind the cost table. Among all ends `j` of a span
/// that starts at `i`, the end of the unit at `i` is the first one that reaches
/// the least total of the span's price and the cost from `j` on, and that least
/// total is the cost at `i`. The span up to the unit's end is well-formed exactly
/// when a scalar starts at `i`.
pub proof fn lemma_unit_is_first_best(s: Seq<u8>, i: int)
    requires
        0 <= i < s.len(),
    ensures
        span_cost(s, i, unit_end(s, i)) + min_cost(s, unit_end(s, i)) == min_cost(s, i),
        valid_utf8(s.subrange(i, unit_end(s, i))) == scalar_at(s, i),
        forall|j: int|
            i < j <= s.len() ==> #[trigger] span_cost(s, i, j) + min_cost(s, j) >= min_cost(s, i),
        forall|j: int|
            i < j < unit_end(s, i) ==> #[trigger] span_cost(s, i, j) + min_cost(s, j) > min_cost(
                s,
                i,
            ),
{
    lemma_unit_bounds(s, i);
    let e: int = unit_end(s, i);
    if scalar_at(s, i) {
        lemma_scalar_is_valid(s, i);
    } else {
        if valid_utf8(s.subrange(i, e)) {
            lemma_valid_span_head(s, i, e);
        }
    }
    assert forall|j: int| i < j <= s.len() implies #[trigger] span_cost(s, i, j) + min_cost(s, j)
        >= min_cost(s, i) by {
        if valid_utf8(s.subrange(i, j)) {
            lemma_min_cost_across_valid(s, i, j);
        } else {
            lemma_min_cost_skip(s, i, j);
        }
    }
    assert forall|j: int| i < j < e implies #[trigger] span_cost(s, i, j) + min_cost(s, j)
        > min_cost(s, i) by {
        if valid_utf8(s.subrange(i, j)) {
            lemma_valid_span_head(s, i, j);
        }
        lemma_min_cost_inside(s, i, j);
        lemma_min_cost_bounds(s, e);
    }
}

/// A scan only moves forward and stays inside the sequence; where it may start
/// a unit at all, it consumes at least one byte. It stops beyond the limit, by
/// less than the length of a scalar, unless the sequence ends first.
pub proof fn lemma_scan_end_bounds(s: Seq<u8>, i: int, limit: int)
    requires
        0 <= i <= s.len(),
    ensures
        i <= scan_end(s, i, limit) <= s.len(),
        i <= limit && i < s.len() ==> i < scan_end(s, i, limit),
        limit < scan_end(s, i, limit) || scan_end(s, i, limit) == s.len(),
        i <= limit ==> scan_end(s, i, limit) <= limit + 4,
    decreases s.len() - i,
{
    if i <= limit && i < s.len() {
        lemma_unit_bounds(s, i);
        lemma_scan_end_bounds(s, unit_end(s, i), limit);
    }
}

/// The cost counts what a scan to the end drops: the bytes kept and the cost
/// add up to the bytes that were there. With `lemma_unit_is_first_best` this
/// says that no way of cutting the bytes into spans keeps more of them.
pub proof fn lemma_scan_drops_least(s: Seq<u8>, i: int)
    requires
        0 <= i <= s.len(),
    ensures
        scan_text(s, i, s.len() as int).len() + min_cost(s, i) == s.len() - i,
    decreases s.len() - i,
{
    if i < s.len() {
        lemma_unit_bounds(s, i);
        lemma_scan_drops_least(s, unit_end(s, i));
    }
}

/// What a scan keeps is well-formed UTF-8, wherever it starts and stops.
pub proof fn lemma_scan_text_valid(s: Seq<u8>, i: int, limit: int)
    requires
        0 <= i <= s.len(),
    ensures
        valid_utf8(scan_text(s, i, limit)),
    decreases s.len() - i,
{
    if i <= limit && i < s.len() {
        lemma_unit_bounds(s, i);
        if scalar_at(s, i) {
            lemma_scalar_is_valid(s, i);
        }
        lemma_scan_text_valid(s, unit_end(s, i), limit);
        valid_utf8_concat(unit_text(s, i), scan_text(s, unit_end(s, i), limit));
    }
}

/// A scan passes a well-formed stretch whole: from the start of the stretch it
/// keeps every byte up to the end of the sequence when all of that is
/// well-formed.
pub proof fn lemma_scan_keeps_valid_tail(s: Seq<u8>, i: int)
    requires
        0 <= i <= s.len(),
        valid_utf8(s.subrange(i, s.len() as int)),
    ensures
        scan_text(s, i, s.len() as int) == s.subrange(i, s.len() as int),
    decreases s.len() - i,
{
    if i < s.len() {
        lemma_valid_span_head(s, i, s.len() as int);
        lemma_unit_bounds(s, i);
        lemma_scan_keeps_valid_tail(s, unit_end(s, i));
    }
}

/// A scan with a later limit is the scan with the earlier limit, continued
/// from where that one stopped.
pub proof fn lemma_scan_resume(s: Seq<u8>, i: int, limit: int, later: int)
    requires
        0 <= i <= s.len(),
        limit <= later,
    ensures
        scan_end(s, i, later) == scan_end(s, scan_end(s, i, limit), later),
        scan_text(s, i, later) == scan_text(s, i, limit) + scan_text(
            s,
            scan_end(s, i, limit),
            later,
        ),
    decreases s.len() - i,
{
    if i <= limit && i < s.len() {
        lemma_unit_bounds(s, i);
        lemma_scan_resume(s, unit_end(s, i), limit, later);
    }
}

/// The unit at `k + i` of `s` is the unit at `i` of `s` without its first `k`
/// bytes.
pub proof fn lemma_unit_shift(s: Seq<u8>, k: int, i: int)
    requires
        0 <= k <= s.len(),
        0 <= i,
    ensures
        scalar_at(s.skip(k), i) == scalar_at(s, k + i),
        unit_end(s.skip(k), i) + k == unit_end(s, k + i),
        unit_text(s.skip(k), i) == unit_text(s, k + i),
{
}

/// Scanning `s` from `k + i` is scanning `s` without its first `k` bytes from
/// `i`.
pub proof fn lemma_scan_shift(s: Seq<u8>, k: int, i: int, limit: int)
    requires
        0 <= k <= s.len(),
        0 <= i <= s.len() - k,
    ensures
        scan_end(s.skip(k), i, limit) + k == scan_end(s, k + i, limit + k),
        scan_text(s.skip(k), i, limit) == scan_text(s, k + i, limit + k),
    decreases s.len() - k - i,
{
    let t = s.skip(k);
    if i <= limit && i < t.len() {
        lemma_unit_shift(s, k, i);
        lemma_unit_bounds(t, i);
        lemma_scan_shift(s, k, unit_end(t, i), limit);
    }
}

/// A unit of `s` that lies inside a prefix of `s` is the same unit in the
/// prefix: a scalar whose bytes are all there is a scalar there too, and a byte
/// that is stray in `s` is stray in every prefix that holds it.
pub proof fn lemma_unit_in_prefix(s: Seq<u8>, n: int, i: int)
    requires
        0 <= i < n <= s.len(),
        unit_end(s, i) <= n,
    ensures
        scalar_at(s.take(n), i) == scalar_at(s, i),
        unit_end(s.take(n), i) == unit_end(s, i),
        unit_text(s.take(n), i) == unit_text(s, i),
{
}

/// A scan of a prefix of `s` whose limit leaves room for a whole scalar
/// before the end of the prefix is the scan of `s` with that limit.
pub proof fn lemma_scan_in_prefix(s: Seq<u8>, n: int, i: int, limit: int)
    requires
        0 <= i <= n <= s.len(),
        limit + 4 <= n,
    ensures
        scan_end(s.take(n), i, limit) == scan_end(s, i, limit),
        scan_text(s.take(n), i, limit) == scan_text(s, i, limit),
    decreases n - i,
{
    let p = s.take(n);
    if i <= limit && i < p.len() {
        lemma_unit_bounds(s, i);
        lemma_unit_in_prefix(s, n, i);
        lemma_scan_in_prefix(s, n, unit_end(p, i), limit);
    }
}

/// A scan leaves whole every character that begins beyond its limit: it
/// stops at or before the first byte of such a character, so none of the
/// character's bytes is consumed before all of them have arrived.
pub proof fn lemma_scan_spares_later_character(s: Seq<u8>, i: int, limit: int, q: int)
    requires
        0 <= i <= q < s.len(),
        limit < q,
        !is_continuation_byte(s[q]),
    ensures
        scan_end(s, i, limit) <= q,
    decreases s.len() - i,
{
    if i <= limit && i < s.len() {
        lemma_unit_bounds(s, i);
        let e: int = unit_end(s, i);
        if q < e {
            lemma_no_scalar_inside(s, i, q);
        }
        lemma_scan_spares_later_character(s, e, limit, q);
    }
}

} // verus!
