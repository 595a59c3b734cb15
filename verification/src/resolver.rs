//! The boundary resolver: how much of a working buffer can be consumed in one
//! round, and which of the consumed bytes are text.

use vstd::prelude::*;
use vstd::utf8::*;
use vstd::slice::slice_subrange;
use crate::scan::{
    lemma_min_cost_bounds, lemma_scan_end_bounds, lemma_unit_bounds, lemma_unit_is_first_best,
    min_cost, scan_end, scan_text, span_cost, unit_end, unit_text,
};
use crate::sink::{lemma_passes_nothing, TextSink};

verus! {

/// Calls `std::str::from_utf8` and reports whether it accepted `bytes`. The
/// contract takes the standard library at its word that it accepts exactly the
/// byte sequences that are well-formed UTF-8; nothing here proves that.
#[verifier::external_body]
fn is_utf8(bytes: &[u8]) -> (ok: bool)
    ensures
        ok == valid_utf8(bytes@),
{
    std::str::from_utf8(bytes).is_ok()
}

/// The state of the tables once every start index from `i` on has been
/// resolved: the cost table holds the least cost from each of them, the
/// backtrack table the end of the unit that starts there, and the validity
/// table says of every span from there whether it is well-formed.
spec fn tables_resolved(
    s: Seq<u8>,
    i: int,
    cost: Seq<usize>,
    backtrack: Seq<usize>,
    valid: Seq<Vec<bool>>,
) -> bool {
    &&& cost.len() == s.len()
    &&& backtrack.len() == s.len()
    &&& valid.len() == s.len()
    &&& forall|k: int| i <= k < s.len() ==> #[trigger] cost[k] == min_cost(s, k)
    &&& forall|k: int| i <= k < s.len() ==> #[trigger] backtrack[k] == unit_end(s, k)
    &&& forall|k: int| i <= k < s.len() ==> (#[trigger] valid[k])@.len() == s.len() - k
    &&& forall|k: int, j: int|
        i <= k < j <= s.len() ==> (#[trigger] valid[k])@[j - k - 1] == #[trigger] valid_utf8(
            s.subrange(k, j),
        )
}

/// Groups the first `m` bytes of `cbuf` into well-formed scalars and stray
/// bytes, writes the scalars to `w` in order, and returns the number of bytes
/// consumed. No new unit is started beyond `taken_limit`, but a unit that starts
/// at or before it is taken whole, so the result may lie beyond the limit.
///
/// The grouping is found by dynamic programming over all ways to cut the bytes
/// into spans: a well-formed span is free, a discarded span costs one per byte,
/// and of several ends with the same least total the first one is chosen.
pub fn take_from_buffer<W: TextSink>(
    cbuf: &[u8],
    m: usize,
    taken_limit: usize,
    w: &mut W,
) -> (taken: usize)
    requires
        m <= cbuf@.len(),
    ensures
        taken == scan_end(cbuf@.subrange(0, m as int), 0, taken_limit as int),
        taken <= m,
        taken > taken_limit || taken == m,
        final(w).received() == old(w).received() + old(w).passes(
            scan_text(cbuf@.subrange(0, m as int), 0, taken_limit as int),
        ),
        final(w).flushed() >= old(w).flushed(),
        forall|t: Seq<u8>| #[trigger] final(w).passes(t) == old(w).passes(t),
{
    let ghost s: Seq<u8> = cbuf@.subrange(0, m as int);
    proof {
        lemma_scan_end_bounds(s, 0, taken_limit as int);
    }
    let mut cost: Vec<usize> = vec![0; m];
    let mut backtrack: Vec<usize> = vec![0; m];
    let mut valid_utf8_table: Vec<Vec<bool>> = Vec::new();
    let mut n: usize = 0;
    while n < m
        invariant
            n <= m,
            valid_utf8_table@.len() == n,
        decreases m - n,
    {
        valid_utf8_table.push(Vec::new());
        n += 1;
    }
    let mut i: usize = m;
    while i > 0
        invariant
            i <= m,
            m <= cbuf@.len(),
            s == cbuf@.subrange(0, m as int),
            tables_resolved(s, i as int, cost@, backtrack@, valid_utf8_table@),
        decreases i,
    {
        i -= 1;
        let mut row: Vec<bool> = Vec::new();
        let mut min_cost_i: usize = 0;
        let mut best_j: usize = i;
        let mut k: usize = i;
        while k < m
            invariant
                i <= k <= m,
                i < m,
                m <= cbuf@.len(),
                s == cbuf@.subrange(0, m as int),
                tables_resolved(s, i as int + 1, cost@, backtrack@, valid_utf8_table@),
                row@.len() == k - i,
                forall|j: int| i < j <= k ==> row@[j - i - 1] == #[trigger] valid_utf8(
                    s.subrange(i as int, j),
                ),
                k == i ==> best_j == i,
                k > i ==> i < best_j <= k,
                k > i ==> min_cost_i == span_cost(s, i as int, best_j as int) + min_cost(
                    s,
                    best_j as int,
                ),
                forall|j: int|
                    i < j <= k ==> #[trigger] span_cost(s, i as int, j) + min_cost(s, j)
                        >= min_cost_i,
                forall|j: int|
                    i < j < best_j ==> #[trigger] span_cost(s, i as int, j) + min_cost(s, j)
                        > min_cost_i,
            decreases m - k,
        {
            let j: usize = k + 1;
            // is cbuf[i..j] well-formed?
            let valid_utf8_ij: bool = is_utf8(slice_subrange(cbuf, i, j));
            proof {
                assert(cbuf@.subrange(i as int, j as int) =~= s.subrange(i as int, j as int));
                lemma_min_cost_bounds(s, j as int);
            }
            row.push(valid_utf8_ij);
            // keep the first end that reaches the least total
            let cost_ij: usize = if valid_utf8_ij {
                0
            } else {
                j - i
            };
            let cost_j: usize = if j < m {
                cost[j]
            } else {
                0
            };
            if k == i || cost_ij + cost_j < min_cost_i {
                min_cost_i = cost_ij + cost_j;
                best_j = j;
            }
            k += 1;
        }
        proof {
            // Both `best_j` and the end of the unit at `i` are the first end
            // that reaches the least total, so they are the same end.
            lemma_unit_is_first_best(s, i as int);
            lemma_unit_bounds(s, i as int);
            assert(best_j as int == unit_end(s, i as int));
        }
        cost[i] = min_cost_i;
        backtrack[i] = best_j;
        valid_utf8_table[i] = row;
    }

    let mut i: usize = 0;
    proof {
        lemma_passes_nothing(&*w);
    }
    while i <= taken_limit && i < m
        invariant
            i <= m,
            m <= cbuf@.len(),
            s == cbuf@.subrange(0, m as int),
            tables_resolved(s, 0, cost@, backtrack@, valid_utf8_table@),
            scan_end(s, i as int, taken_limit as int) == scan_end(s, 0, taken_limit as int),
            w.received() + w.passes(scan_text(s, i as int, taken_limit as int)) == old(
                w,
            ).received() + old(w).passes(scan_text(s, 0, taken_limit as int)),
            w.flushed() >= old(w).flushed(),
            forall|t: Seq<u8>| #[trigger] w.passes(t) == old(w).passes(t),
        decreases m - i,
    {
        let j: usize = backtrack[i];
        proof {
            lemma_unit_bounds(s, i as int);
            lemma_unit_is_first_best(s, i as int);
            w.lemma_passes_concat(
                unit_text(s, i as int),
                scan_text(s, j as int, taken_limit as int),
            );
        }
        let valid_utf8_ij: bool = valid_utf8_table[i][j - i - 1];
        if valid_utf8_ij {
            let span = slice_subrange(cbuf, i, j);
            proof {
                assert(span@ =~= s.subrange(i as int, j as int));
            }
            w.write(span);
        }
        i = j;
    }
    i
}

} // verus!
