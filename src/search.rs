//! Backtracking search for tilings, cell by cell in row-major order.
use vstd::prelude::*;
use crate::bitmap::{Bitmap2D, lemma_cell_index, lemma_flat_index, overlaps, spec_union};
use crate::piece::{index_fits, placement_views};

verus! {

/// The placements of piece `p` anchored at cell `pos` in an index.
pub open spec fn candidates(index: Seq<Vec<Vec<Bitmap2D>>>, p: int, pos: int) -> Seq<Seq<bool>> {
    if 0 <= pos < index[p]@.len() {
        placement_views(index[p]@[pos]@)
    } else {
        Seq::empty()
    }
}

/// Every tiling that the search finds from cell `pos` on, with `board`
/// already covered and `counts[p]` pieces of type `p` left, in search order.
/// A tiling lists its placements from the last one placed to the first.
pub open spec fn solve(
    index: Seq<Vec<Vec<Bitmap2D>>>,
    board: Seq<bool>,
    counts: Seq<u32>,
    pos: int,
) -> Seq<Seq<Seq<bool>>>
    decreases board.len() - pos, index.len() + 1, 0int,
{
    if pos >= board.len() || pos < 0 {
        seq![Seq::empty()]
    } else if board[pos] {
        solve(index, board, counts, pos + 1)
    } else {
        solve_from(index, board, counts, pos, 0, 0)
    }
}

/// The tilings that the search finds at the empty cell `pos` from placement
/// `k` of piece `p` on, in search order.
pub open spec fn solve_from(
    index: Seq<Vec<Vec<Bitmap2D>>>,
    board: Seq<bool>,
    counts: Seq<u32>,
    pos: int,
    p: int,
    k: int,
) -> Seq<Seq<Seq<bool>>>
    decreases board.len() - pos, index.len() - p, candidates(index, p, pos).len() - k,
{
    if pos >= board.len() || pos < 0 || p >= index.len() || p >= counts.len() || p < 0 || k < 0 {
        Seq::empty()
    } else if counts[p] == 0 || k >= candidates(index, p, pos).len() {
        solve_from(index, board, counts, pos, p + 1, 0)
    } else {
        let placement = candidates(index, p, pos)[k];
        let here = if overlaps(board, placement) {
            Seq::empty()
        } else {
            solve(
                index,
                spec_union(board, placement),
                counts.update(p, (counts[p] - 1) as u32),
                pos + 1,
            ).map_values(|s: Seq<Seq<bool>>| s.push(placement))
        };
        here + solve_from(index, board, counts, pos, p, k + 1)
    }
}

/// The views of the placements of a tiling.
pub open spec fn solution_view(s: Seq<&Bitmap2D>) -> Seq<Seq<bool>> {
    s.map_values(|b: &Bitmap2D| b@)
}

/// The index of the cell at `position` on a board with `cols` columns.
pub open spec fn flat(position: (usize, usize), cols: usize) -> int {
    position.0 * cols + position.1
}

/// The cell after `index` in row-major order on a board of `shape`, or `None`
/// past the last cell.
pub fn increment(shape: (usize, usize), index: (usize, usize)) -> (r: Option<(usize, usize)>)
    requires
        index.0 * shape.1 + index.1 + 1 <= usize::MAX,
    ensures
        r == if shape.1 == 0 {
            None
        } else {
            let f = index.0 * shape.1 + index.1 + 1;
            if f / (shape.1 as int) >= shape.0 {
                None
            } else {
                Some(((f / (shape.1 as int)) as usize, (f % (shape.1 as int)) as usize))
            }
        },
{
    if shape.1 == 0 {
        return None;
    }
    let flat_index = index.0 * shape.1 + index.1 + 1;
    let new_index = (flat_index / shape.1, flat_index % shape.1);
    if new_index.0 >= shape.0 {
        None
    } else {
        Some(new_index)
    }
}

/// The position of the cell after `position`, `(rows, 0)` past the last one.
fn next_position(shape: (usize, usize), position: (usize, usize)) -> (r: (usize, usize))
    requires
        shape.0 * shape.1 <= usize::MAX,
        position.0 < shape.0,
        position.1 < shape.1,
    ensures
        flat(r, shape.1) == flat(position, shape.1) + 1,
        r.0 <= shape.0,
        r.0 < shape.0 ==> r.1 < shape.1,
{
    proof {
        lemma_cell_index(position.0 as int, position.1 as int, shape.0 as int, shape.1 as int);
    }
    match increment(shape, position) {
        Some(next) => {
            proof {
                let f = position.0 * shape.1 + position.1 + 1;
                assert((shape.0 + 1) * shape.1 == shape.0 * shape.1 + shape.1) by (nonlinear_arith);
                lemma_flat_index(f, shape.0 as int + 1, shape.1 as int);
            }
            next
        },
        None => {
            proof {
                let f = position.0 * shape.1 + position.1 + 1;
                lemma_flat_index(f - 1, shape.0 as int, shape.1 as int);
                assert(f <= shape.0 * shape.1);
                if f < shape.0 * shape.1 {
                    lemma_flat_index(f, shape.0 as int, shape.1 as int);
                }
            }
            (shape.0, 0)
        },
    }
}

/// The views of a list of tilings.
pub open spec fn solutions_view(r: Seq<Vec<&Bitmap2D>>) -> Seq<Seq<Seq<bool>>> {
    r.map_values(|s: Vec<&Bitmap2D>| solution_view(s@))
}

/// What the search asks of its arguments: a well-formed board, an index of
/// at most one entry per piece count whose placements are boards of the same
/// shape, and a position on the board or past its last row.
pub open spec fn search_ready(
    board: &Bitmap2D,
    position: (usize, usize),
    padded_pieces: Seq<Vec<Vec<Bitmap2D>>>,
) -> bool {
    &&& board.wf()
    &&& padded_pieces.len() <= 7
    &&& index_fits(padded_pieces, board.shape)
    &&& position.0 <= board.shape.0
    &&& position.0 < board.shape.0 && board.shape.1 > 0 ==> position.1 < board.shape.1
}

/// Appends to `solutions` each tiling of `subs` with `placement` added last.
fn extend_with<'a>(
    solutions: &mut Vec<Vec<&'a Bitmap2D>>,
    subs: &Vec<Vec<&'a Bitmap2D>>,
    placement: &'a Bitmap2D,
)
    ensures
        solutions_view(final(solutions)@) == solutions_view(old(solutions)@) + solutions_view(
            subs@,
        ).map_values(|s: Seq<Seq<bool>>| s.push(placement@)),
{
    let ghost start = solutions_view(solutions@);
    let ghost added = solutions_view(subs@).map_values(|s: Seq<Seq<bool>>| s.push(placement@));
    let mut j: usize = 0;
    while j < subs.len()
        invariant
            j <= subs@.len(),
            added == solutions_view(subs@).map_values(|s: Seq<Seq<bool>>| s.push(placement@)),
            solutions_view(solutions@) == start + added.subrange(0, j as int),
        decreases subs@.len() - j,
    {
        let sub = &subs[j];
        let mut copy: Vec<&'a Bitmap2D> = Vec::new();
        let mut m: usize = 0;
        while m < sub.len()
            invariant
                m <= sub@.len(),
                copy@ == sub@.subrange(0, m as int),
            decreases sub@.len() - m,
        {
            copy.push(sub[m]);
            m = m + 1;
            assert(copy@ =~= sub@.subrange(0, m as int));
        }
        assert(copy@ =~= sub@);
        copy.push(placement);
        let ghost before = solutions@;
        solutions.push(copy);
        proof {
            assert(solution_view(copy@) =~= solution_view(sub@).push(placement@));
            assert(solutions_view(solutions@) =~= solutions_view(before).push(solution_view(copy@)));
            assert(added.subrange(0, j + 1) =~= added.subrange(0, j as int).push(added[j as int]));
        }
        j = j + 1;
    }
    assert(added.subrange(0, j as int) =~= added);
}

/// The first tiling that the search finds from `position` on, with `board`
/// already covered and `remaining_pieces[p]` pieces of type `p` left; `None`
/// if there is none.
pub fn fill_board<'a>(
    board: &Bitmap2D,
    remaining_pieces: [u32; 7],
    position: (usize, usize),
    padded_pieces: &'a Vec<Vec<Vec<Bitmap2D>>>,
) -> (r: Option<Vec<&'a Bitmap2D>>)
    requires
        search_ready(board, position, padded_pieces@),
    ensures
        ({
            let all = solve(
                padded_pieces@,
                board@,
                remaining_pieces@,
                flat(position, board.shape.1),
            );
            match r {
                None => all.len() == 0,
                Some(s) => all.len() > 0 && solution_view(s@) == all[0],
            }
        }),
    decreases board.shape.0 * board.shape.1 - flat(position, board.shape.1),
{
    let ghost idx = padded_pieces@;
    let ghost pos = flat(position, board.shape.1);
    if position.0 >= board.shape.0 || board.shape.1 == 0 {
        assert(pos >= board@.len()) by (nonlinear_arith)
            requires
                position.0 >= board.shape.0 || board.shape.1 == 0,
                pos == position.0 * board.shape.1 + position.1,
                board@.len() == board.shape.0 * board.shape.1,
        ;
        return Some(Vec::new());
    }
    proof {
        lemma_cell_index(
            position.0 as int,
            position.1 as int,
            board.shape.0 as int,
            board.shape.1 as int,
        );
    }
    let next = next_position(board.shape, position);
    if board.get(position).unwrap_or(false) {
        return fill_board(board, remaining_pieces, next, padded_pieces);
    }
    let cell = position.0 * board.shape.1 + position.1;
    let mut p: usize = 0;
    while p < padded_pieces.len()
        invariant
            search_ready(board, position, padded_pieces@),
            idx == padded_pieces@,
            position.0 < board.shape.0,
            pos == flat(position, board.shape.1),
            0 <= pos < board@.len(),
            !board@[pos],
            cell == pos,
            flat(next, board.shape.1) == pos + 1,
            next.0 <= board.shape.0,
            next.0 < board.shape.0 ==> next.1 < board.shape.1,
            p <= padded_pieces@.len(),
            solve(idx, board@, remaining_pieces@, pos) == solve_from(
                idx,
                board@,
                remaining_pieces@,
                pos,
                p as int,
                0,
            ),
        decreases padded_pieces@.len() - p,
    {
        if remaining_pieces[p] != 0 && cell < padded_pieces[p].len() {
            let list: &'a Vec<Bitmap2D> = &padded_pieces[p][cell];
            let mut k: usize = 0;
            while k < list.len()
                invariant
                    search_ready(board, position, padded_pieces@),
                    idx == padded_pieces@,
                    position.0 < board.shape.0,
                    pos == flat(position, board.shape.1),
                    0 <= pos < board@.len(),
                    !board@[pos],
                    cell == pos,
                    flat(next, board.shape.1) == pos + 1,
                    next.0 <= board.shape.0,
                    next.0 < board.shape.0 ==> next.1 < board.shape.1,
                    p < padded_pieces@.len(),
                    remaining_pieces@[p as int] != 0,
                    cell < padded_pieces@[p as int]@.len(),
                    list@ == padded_pieces@[p as int]@[cell as int]@,
                    k <= list@.len(),
                    solve(idx, board@, remaining_pieces@, pos) == solve_from(
                        idx,
                        board@,
                        remaining_pieces@,
                        pos,
                        p as int,
                        k as int,
                    ),
                decreases list@.len() - k,
            {
                let v: &'a Bitmap2D = &list[k];
                assert(v.wf() && v.shape == board.shape);
                assert(candidates(idx, p as int, pos)[k as int] == v@);
                if !board.intersects(v) {
                    let new_board = board.or(v);
                    let mut rem = remaining_pieces;
                    rem[p] = remaining_pieces[p] - 1;
                    match fill_board(&new_board, rem, next, padded_pieces) {
                        Some(mut sol) => {
                            let ghost before = sol@;
                            sol.push(v);
                            assert(solution_view(sol@) =~= solution_view(before).push(v@));
                            return Some(sol);
                        },
                        None => {},
                    }
                }
                k = k + 1;
            }
        }
        p = p + 1;
    }
    None
}

/// Every tiling that the search finds from `position` on, with `board`
/// already covered and `remaining_pieces[p]` pieces of type `p` left, in
/// search order.
pub fn all_solutions<'a>(
    board: &Bitmap2D,
    remaining_pieces: [u32; 7],
    position: (usize, usize),
    padded_pieces: &'a Vec<Vec<Vec<Bitmap2D>>>,
) -> (r: Vec<Vec<&'a Bitmap2D>>)
    requires
        search_ready(board, position, padded_pieces@),
    ensures
        solutions_view(r@) == solve(
            padded_pieces@,
            board@,
            remaining_pieces@,
            flat(position, board.shape.1),
        ),
    decreases board.shape.0 * board.shape.1 - flat(position, board.shape.1),
{
    let ghost idx = padded_pieces@;
    let ghost pos = flat(position, board.shape.1);
    if position.0 >= board.shape.0 || board.shape.1 == 0 {
        assert(pos >= board@.len()) by (nonlinear_arith)
            requires
                position.0 >= board.shape.0 || board.shape.1 == 0,
                pos == position.0 * board.shape.1 + position.1,
                board@.len() == board.shape.0 * board.shape.1,
        ;
        let mut r: Vec<Vec<&'a Bitmap2D>> = Vec::new();
        r.push(Vec::new());
        assert(solution_view(r@[0]@) =~= Seq::<Seq<bool>>::empty());
        assert(solutions_view(r@) =~= seq![Seq::<Seq<bool>>::empty()]);
        return r;
    }
    proof {
        lemma_cell_index(
            position.0 as int,
            position.1 as int,
            board.shape.0 as int,
            board.shape.1 as int,
        );
    }
    let next = next_position(board.shape, position);
    if board.get(position).unwrap_or(false) {
        return all_solutions(board, remaining_pieces, next, padded_pieces);
    }
    let cell = position.0 * board.shape.1 + position.1;
    let mut solutions: Vec<Vec<&'a Bitmap2D>> = Vec::new();
    let mut p: usize = 0;
    while p < padded_pieces.len()
        invariant
            search_ready(board, position, padded_pieces@),
            idx == padded_pieces@,
            position.0 < board.shape.0,
            pos == flat(position, board.shape.1),
            0 <= pos < board@.len(),
            !board@[pos],
            cell == pos,
            flat(next, board.shape.1) == pos + 1,
            next.0 <= board.shape.0,
            next.0 < board.shape.0 ==> next.1 < board.shape.1,
            p <= padded_pieces@.len(),
            solve(idx, board@, remaining_pieces@, pos) == solutions_view(solutions@) + solve_from(
                idx,
                board@,
                remaining_pieces@,
                pos,
                p as int,
                0,
            ),
        decreases padded_pieces@.len() - p,
    {
        if remaining_pieces[p] != 0 && cell < padded_pieces[p].len() {
            let list: &'a Vec<Bitmap2D> = &padded_pieces[p][cell];
            let mut k: usize = 0;
            while k < list.len()
                invariant
                    search_ready(board, position, padded_pieces@),
                    idx == padded_pieces@,
                    position.0 < board.shape.0,
                    pos == flat(position, board.shape.1),
                    0 <= pos < board@.len(),
                    !board@[pos],
                    cell == pos,
                    flat(next, board.shape.1) == pos + 1,
                    next.0 <= board.shape.0,
                    next.0 < board.shape.0 ==> next.1 < board.shape.1,
                    p < padded_pieces@.len(),
                    remaining_pieces@[p as int] != 0,
                    cell < padded_pieces@[p as int]@.len(),
                    list@ == padded_pieces@[p as int]@[cell as int]@,
                    k <= list@.len(),
                    solve(idx, board@, remaining_pieces@, pos) == solutions_view(solutions@)
                        + solve_from(idx, board@, remaining_pieces@, pos, p as int, k as int),
                decreases list@.len() - k,
            {
                let v: &'a Bitmap2D = &list[k];
                assert(v.wf() && v.shape == board.shape);
                assert(candidates(idx, p as int, pos)[k as int] == v@);
                let ghost before = solutions_view(solutions@);
                if !board.intersects(v) {
                    let new_board = board.or(v);
                    let mut rem = remaining_pieces;
                    rem[p] = remaining_pieces[p] - 1;
                    let subs = all_solutions(&new_board, rem, next, padded_pieces);
                    extend_with(&mut solutions, &subs, v);
                }
                proof {
                    let rest = solve_from(idx, board@, remaining_pieces@, pos, p as int, k + 1);
                    let here = solve_from(idx, board@, remaining_pieces@, pos, p as int, k as int);
                    assert(solutions_view(solutions@) + rest =~= before + here);
                }
                k = k + 1;
            }
        }
        p = p + 1;
    }
    assert(solutions_view(solutions@) + Seq::empty() =~= solutions_view(solutions@));
    solutions
}

/// Every placement of the index is a board of `n` cells with its anchor cell
/// set.
pub open spec fn anchored(index: Seq<Vec<Vec<Bitmap2D>>>, n: int) -> bool {
    forall|p: int, c: int, k: int|
        0 <= p < index.len() && 0 <= c < n && 0 <= k < candidates(index, p, c).len() ==> (
        #[trigger] candidates(index, p, c)[k]).len() == n && candidates(index, p, c)[k][c]
}

/// `s` tiles what `board` leaves free from cell `pos` on: its placements
/// overlap neither `board` nor each other, and each cell from `pos` on is
/// covered by `board` or by one of them.
pub open spec fn is_tiling(board: Seq<bool>, pos: int, s: Seq<Seq<bool>>) -> bool {
    &&& forall|i: int|
        0 <= i < s.len() ==> (#[trigger] s[i]).len() == board.len() && !overlaps(board, s[i])
    &&& forall|i: int, j: int| 0 <= i < j < s.len() ==> !overlaps(#[trigger] s[i], #[trigger] s[j])
    &&& forall|c: int|
        pos <= c < board.len() ==> #[trigger] board[c] || exists|i: int|
            0 <= i < s.len() && #[trigger] s[i][c]
}

proof fn lemma_union_disjoint(b: Seq<bool>, q: Seq<bool>, t: Seq<bool>)
    requires
        q.len() == b.len(),
        t.len() == b.len(),
        !overlaps(spec_union(b, q), t),
    ensures
        !overlaps(b, t),
        !overlaps(t, q),
{
    if overlaps(b, t) {
        let x = choose|x: int| 0 <= x < b.len() && x < t.len() && #[trigger] b[x] && t[x];
        assert(spec_union(b, q)[x] && t[x]);
    }
    if overlaps(t, q) {
        let x = choose|x: int| 0 <= x < t.len() && x < q.len() && #[trigger] t[x] && q[x];
        assert(spec_union(b, q)[x] && t[x]);
    }
}

/// Each tiling that the search finds with `placement` put at the empty
/// cell `pos` tiles the board from `pos` on.
proof fn lemma_extend_tiling(
    board: Seq<bool>,
    placement: Seq<bool>,
    pos: int,
    t: Seq<Seq<bool>>,
)
    requires
        0 <= pos < board.len(),
        placement.len() == board.len(),
        placement[pos],
        !overlaps(board, placement),
        is_tiling(spec_union(board, placement), pos + 1, t),
    ensures
        is_tiling(board, pos, t.push(placement)),
{
    let u = spec_union(board, placement);
    let s = t.push(placement);
    assert forall|i: int| 0 <= i < s.len() implies (#[trigger] s[i]).len() == board.len()
        && !overlaps(board, s[i]) by {
        if i < t.len() {
            assert(s[i] == t[i]);
            lemma_union_disjoint(board, placement, t[i]);
        }
    }
    assert forall|i: int, j: int| 0 <= i < j < s.len() implies !overlaps(
        #[trigger] s[i],
        #[trigger] s[j],
    ) by {
        if j < t.len() {
            assert(s[i] == t[i] && s[j] == t[j]);
        } else {
            assert(s[i] == t[i] && s[j] == placement);
            lemma_union_disjoint(board, placement, t[i]);
        }
    }
    assert forall|c: int| pos <= c < board.len() implies #[trigger] board[c] || exists|i: int|
        0 <= i < s.len() && #[trigger] s[i][c] by {
        if c == pos {
            assert(s[t.len() as int][c]);
        } else if !board[c] {
            assert(u[c] || exists|i: int| 0 <= i < t.len() && #[trigger] t[i][c]);
            if placement[c] {
                assert(s[t.len() as int][c]);
            } else {
                let i = choose|i: int| 0 <= i < t.len() && #[trigger] t[i][c];
                assert(s[i] == t[i]);
            }
        }
    }
}

/// Every tiling that the search finds from a position on a board tiles
/// what the board leaves free from that position on, when each placement of
/// the index covers its anchor cell.
pub proof fn law_search_finds_tilings(
    index: Seq<Vec<Vec<Bitmap2D>>>,
    board: Seq<bool>,
    counts: Seq<u32>,
    pos: int,
)
    requires
        anchored(index, board.len() as int),
        0 <= pos,
    ensures
        forall|i: int|
            0 <= i < solve(index, board, counts, pos).len() ==> is_tiling(
                board,
                pos,
                #[trigger] solve(index, board, counts, pos)[i],
            ),
    decreases board.len() - pos, index.len() + 1, 0int,
{
    if pos >= board.len() {
        assert(solve(index, board, counts, pos) == seq![Seq::<Seq<bool>>::empty()]);
    } else if board[pos] {
        law_search_finds_tilings(index, board, counts, pos + 1);
        assert forall|i: int| 0 <= i < solve(index, board, counts, pos).len() implies is_tiling(
            board,
            pos,
            #[trigger] solve(index, board, counts, pos)[i],
        ) by {
            let s = solve(index, board, counts, pos)[i];
            assert(s == solve(index, board, counts, pos + 1)[i]);
            assert(is_tiling(board, pos + 1, s));
        }
    } else {
        assert(solve(index, board, counts, pos) == solve_from(index, board, counts, pos, 0, 0));
        lemma_search_from_finds_tilings(index, board, counts, pos, 0, 0);
    }
}

proof fn lemma_search_from_finds_tilings(
    index: Seq<Vec<Vec<Bitmap2D>>>,
    board: Seq<bool>,
    counts: Seq<u32>,
    pos: int,
    p: int,
    k: int,
)
    requires
        anchored(index, board.len() as int),
        0 <= pos < board.len(),
        !board[pos],
    ensures
        forall|i: int|
            0 <= i < solve_from(index, board, counts, pos, p, k).len() ==> is_tiling(
                board,
                pos,
                #[trigger] solve_from(index, board, counts, pos, p, k)[i],
            ),
    decreases board.len() - pos, index.len() - p, candidates(index, p, pos).len() - k,
{
    if p >= index.len() || p >= counts.len() || p < 0 || k < 0 {
        assert(solve_from(index, board, counts, pos, p, k).len() == 0);
    } else if counts[p] == 0 || k >= candidates(index, p, pos).len() {
        assert(solve_from(index, board, counts, pos, p, k) == solve_from(
            index,
            board,
            counts,
            pos,
            p + 1,
            0,
        ));
        lemma_search_from_finds_tilings(index, board, counts, pos, p + 1, 0);
    } else {
        let placement = candidates(index, p, pos)[k];
        let all = solve_from(index, board, counts, pos, p, k);
        let rest = solve_from(index, board, counts, pos, p, k + 1);
        lemma_search_from_finds_tilings(index, board, counts, pos, p, k + 1);
        if overlaps(board, placement) {
            assert(all =~= rest);
        } else {
            let u = spec_union(board, placement);
            let c2 = counts.update(p, (counts[p] - 1) as u32);
            let subs = solve(index, u, c2, pos + 1);
            let here = subs.map_values(|s: Seq<Seq<bool>>| s.push(placement));
            assert(all == here + rest);
            law_search_finds_tilings(index, u, c2, pos + 1);
            assert forall|i: int| 0 <= i < all.len() implies is_tiling(
                board,
                pos,
                #[trigger] all[i],
            ) by {
                if i < here.len() {
                    assert(here[i] == subs[i].push(placement));
                    assert(is_tiling(u, pos + 1, subs[i]));
                    lemma_extend_tiling(board, placement, pos, subs[i]);
                } else {
                    assert(all[i] == rest[i - here.len()]);
                }
            }
        }
    }
}

} // verus!
