//! Laws that relate the operations on bit vectors and boards.
use vstd::prelude::*;
use crate::bitmap::{
    concat_rows, lemma_flat_index, overlaps, rows_of, spec_extract, spec_pad, stacked_shape,
};

verus! {

/// Extracting the bits from `start` to `end` and embedding them at the same
/// offset in a clear vector as long as `v` gives a vector of that length that
/// holds the bits of `v` in that range and no others.
pub proof fn law_extract_then_embed(v: Seq<bool>, start: int, end: int)
    requires
        0 <= start <= end < v.len(),
    ensures
        spec_pad(spec_extract(v, start, end), start as nat, (v.len() - 1 - end) as nat).len()
            == v.len(),
        spec_pad(spec_extract(v, start, end), start as nat, (v.len() - 1 - end) as nat).subrange(
            start,
            end + 1,
        ) == v.subrange(start, end + 1),
        forall|i: int|
            0 <= i < v.len() && !(start <= i <= end) ==> !#[trigger] spec_pad(
                spec_extract(v, start, end),
                start as nat,
                (v.len() - 1 - end) as nat,
            )[i],
{
    let w = spec_pad(spec_extract(v, start, end), start as nat, (v.len() - 1 - end) as nat);
    assert(w.subrange(start, end + 1) =~= v.subrange(start, end + 1));
}

/// Padding a vector with `left` and `right` clear bits and extracting the
/// bits from `left` to `left + len - 1` gives the vector back.
pub proof fn law_pad_then_extract(v: Seq<bool>, left: nat, right: nat)
    ensures
        spec_extract(spec_pad(v, left, right), left as int, left + v.len() - 1) == v,
{
    assert(spec_extract(spec_pad(v, left, right), left as int, left + v.len() - 1) =~= v);
}

/// Stacking the rows of a board gives the board back: the same cells, and
/// the same shape unless the board has no rows.
pub proof fn law_rows_round_trip(v: Seq<bool>, rows: nat, cols: nat)
    requires
        v.len() == rows * cols,
    ensures
        concat_rows(rows_of(v, rows, cols), cols) == v,
        rows > 0 ==> stacked_shape(rows_of(v, rows, cols)) == (rows, cols),
{
    let rs = rows_of(v, rows, cols);
    assert forall|p: int| 0 <= p < v.len() implies #[trigger] concat_rows(rs, cols)[p] == v[p] by {
        lemma_flat_index(p, rows as int, cols as int);
        let i = p / (cols as int);
        assert((i + 1) * cols == i * cols + cols) by (nonlinear_arith);
        assert((i + 1) * cols <= rows * cols) by (nonlinear_arith)
            requires
                i < rows,
        ;
    }
    assert(concat_rows(rs, cols) =~= v);
    if rows > 0 {
        assert(1 * cols <= rows * cols) by (nonlinear_arith)
            requires
                rows >= 1,
        ;
        assert(rs[0].len() == cols);
    }
}

/// Overlap is symmetric, a board never overlaps a clear board, and a board
/// with a set cell overlaps itself.
pub proof fn law_overlaps(a: Seq<bool>, b: Seq<bool>)
    ensures
        overlaps(a, b) == overlaps(b, a),
        !overlaps(a, Seq::new(a.len(), |i: int| false)),
        (exists|i: int| 0 <= i < a.len() && #[trigger] a[i]) ==> overlaps(a, a),
{
    if overlaps(a, b) {
        let i = choose|i: int| 0 <= i < a.len() && i < b.len() && #[trigger] a[i] && b[i];
        assert(b[i] && a[i]);
    }
    if overlaps(b, a) {
        let i = choose|i: int| 0 <= i < b.len() && i < a.len() && #[trigger] b[i] && a[i];
        assert(a[i] && b[i]);
    }
}

} // verus!
