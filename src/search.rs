//! The backtracking search as a state machine over mathematical values, its
//! invariant, and the measure that shows it terminates.
use vstd::prelude::*;

use crate::matrix::{cell_index, lemma_cell_index, on_board};
use crate::moves::{is_knight_offset, move_dx, move_dy};
use vstd::set_lib::{lemma_int_range, lemma_len_subset, lemma_subset_equality, set_int_range};

verus! {

/// A snapshot of the search: the visitation marks (row by row), the path of
/// visited cells from the start to the current cell, and the number of
/// backtracking steps taken so far (held at `u32::MAX` once it gets there).
pub struct SearchState {
    pub marks: Seq<Option<u8>>,
    pub path: Seq<(int, int)>,
    pub backtracks: u32,
}

/// The cell reached from `p` by the move with priority `i`.
pub open spec fn step_target(p: (int, int), i: int) -> (int, int) {
    (p.0 + move_dx(i), p.1 + move_dy(i))
}

/// The cell the knight currently stands on.
pub open spec fn head(s: SearchState) -> (int, int) {
    s.path.last()
}

/// The lowest move index still to be tried from the current cell: one past
/// the recorded exit move, or zero when none is recorded.
pub open spec fn search_floor(s: SearchState, w: int) -> int {
    match s.marks[cell_index(w, head(s))] {
        Some(k) => k + 1,
        None => 0,
    }
}

/// Whether move `i` from the current cell lands on an unvisited board cell.
pub open spec fn open_target(s: SearchState, w: int, h: int, i: int) -> bool {
    let t = step_target(head(s), i);
    on_board(w, h, t) && s.marks[cell_index(w, t)] is None
}

/// The lowest move index at or above `i` that leads to an open cell.
pub open spec fn first_open_move(s: SearchState, w: int, h: int, i: int) -> Option<int>
    decreases 8 - i,
{
    if i >= 8 {
        None
    } else if open_target(s, w, h, i) {
        Some(i)
    } else {
        first_open_move(s, w, h, i + 1)
    }
}

/// The move the search takes next from the current cell, if any.
pub open spec fn next_move(s: SearchState, w: int, h: int) -> Option<int> {
    first_open_move(s, w, h, search_floor(s, w))
}

/// Every cell of the board is on the path.
pub open spec fn is_complete(s: SearchState, w: int, h: int) -> bool {
    s.path.len() == w * h
}

/// The start cell has no move left to try: no tour exists from it.
pub open spec fn is_exhausted(s: SearchState, w: int, h: int) -> bool {
    !is_complete(s, w, h) && next_move(s, w, h) is None && s.path.len() <= 1
}

/// The search has stopped.
pub open spec fn is_final(s: SearchState, w: int, h: int) -> bool {
    is_complete(s, w, h) || is_exhausted(s, w, h)
}

/// The backtrack counter after one more backtracking step.
pub open spec fn count_up(b: u32) -> u32 {
    if b < u32::MAX {
        (b + 1) as u32
    } else {
        b
    }
}

/// One step of the search: take the next open move, recording it as the
/// exit of the current cell, or else clear the current cell and step back.
pub open spec fn advance(s: SearchState, w: int, h: int) -> SearchState {
    match next_move(s, w, h) {
        Some(k) => moved(s, w, k),
        None => stepped_back(s, w),
    }
}

/// Move `k` from the current cell: record it as the cell's exit and extend
/// the path by the cell it reaches.
pub open spec fn moved(s: SearchState, w: int, k: int) -> SearchState {
    SearchState {
        marks: s.marks.update(cell_index(w, head(s)), Some(k as u8)),
        path: s.path.push(step_target(head(s), k)),
        backtracks: s.backtracks,
    }
}

/// Step back: clear the current cell, drop it from the path, and count one
/// more backtrack.
pub open spec fn stepped_back(s: SearchState, w: int) -> SearchState {
    SearchState {
        marks: s.marks.update(cell_index(w, head(s)), None),
        path: s.path.drop_last(),
        backtracks: count_up(s.backtracks),
    }
}

/// The search before its first step: nothing marked, the path holds the start.
pub open spec fn initial_state(w: int, h: int, start: (int, int)) -> SearchState {
    SearchState {
        marks: Seq::new((w * h) as nat, |i: int| None),
        path: seq![start],
        backtracks: 0,
    }
}

/// The state after `n` steps from `s`; a final state stays as it is.
pub open spec fn run(s: SearchState, w: int, h: int, n: nat) -> SearchState
    decreases n,
{
    if n == 0 {
        s
    } else {
        let r = run(s, w, h, (n - 1) as nat);
        if is_final(r, w, h) {
            r
        } else {
            advance(r, w, h)
        }
    }
}

/// The state of the search on a `w` by `h` board from `start` after `n` steps.
pub open spec fn search_after(w: int, h: int, start: (int, int), n: nat) -> SearchState {
    run(initial_state(w, h, start), w, h, n)
}

/// Whether two cells are one knight move apart.
pub open spec fn is_knight_step(p: (int, int), q: (int, int)) -> bool {
    is_knight_offset(q.0 - p.0, q.1 - p.1)
}

/// An open knight's tour of the `w` by `h` board from `start`: one cell per
/// square, all on the board, none twice, each a knight move from the last.
pub open spec fn is_open_tour(w: int, h: int, start: (int, int), path: Seq<(int, int)>) -> bool {
    &&& path.len() == w * h
    &&& path.len() > 0
    &&& path[0] == start
    &&& forall|i: int| 0 <= i < path.len() ==> on_board(w, h, #[trigger] path[i])
    &&& path.no_duplicates()
    &&& forall|i: int| 0 <= i < path.len() - 1 ==> is_knight_step(#[trigger] path[i], path[i + 1])
}

/// The recorded exit of path cell `i` is a move, and leads to path cell `i + 1`.
pub open spec fn exit_recorded(s: SearchState, w: int, i: int) -> bool {
    match s.marks[cell_index(w, s.path[i])] {
        Some(k) => k < 8 && s.path[i + 1] == step_target(s.path[i], k as int),
        None => false,
    }
}

/// What holds of every state the search passes through.
pub open spec fn search_inv(s: SearchState, w: int, h: int, start: (int, int)) -> bool {
    &&& 0 < w
    &&& 0 < h
    &&& s.marks.len() == w * h
    &&& 1 <= s.path.len() <= w * h
    &&& s.path[0] == start
    &&& forall|i: int| 0 <= i < s.path.len() ==> on_board(w, h, #[trigger] s.path[i])
    &&& s.path.no_duplicates()
    &&& forall|i: int| 0 <= i < s.path.len() - 1 ==> #[trigger] exit_recorded(s, w, i)
    &&& match s.marks[cell_index(w, head(s))] {
        Some(k) => k < 8,
        None => true,
    }
}

/// The search's progress as digits: the exit move of each path cell but the
/// last, then the floor of the last.
pub open spec fn progress_digits(s: SearchState, w: int) -> Seq<int> {
    Seq::new(
        s.path.len(),
        |i: int|
            if i < s.path.len() - 1 {
                match s.marks[cell_index(w, s.path[i])] {
                    Some(k) => k as int,
                    None => 0,
                }
            } else {
                search_floor(s, w)
            },
    )
}

/// Ten to the power `n`.
pub open spec fn pow10(n: nat) -> int
    decreases n,
{
    if n == 0 {
        1
    } else {
        10 * pow10((n - 1) as nat)
    }
}

/// The digits, each raised by one, read as a number of `n` decimal places
/// from the most significant one; a longer word that extends a shorter one
/// weighs more.
pub open spec fn weight(d: Seq<int>, n: nat) -> int
    decreases d.len(),
{
    if d.len() == 0 {
        0
    } else {
        (d[0] + 1) * pow10((n - 1) as nat) + weight(d.drop_first(), (n - 1) as nat)
    }
}

/// What is left of the search: it shrinks with every step.
pub open spec fn remaining(s: SearchState, w: int, h: int) -> int {
    pow10((w * h) as nat) - weight(progress_digits(s, w), (w * h) as nat)
}

/// Every digit lies between zero and eight.
pub open spec fn small_digits(d: Seq<int>) -> bool {
    forall|i: int| 0 <= i < d.len() ==> 0 <= #[trigger] d[i] <= 8
}

proof fn lemma_pow10_positive(n: nat)
    ensures
        pow10(n) >= 1,
    decreases n,
{
    if n > 0 {
        lemma_pow10_positive((n - 1) as nat);
    }
}

proof fn lemma_weight_bound(d: Seq<int>, n: nat)
    requires
        d.len() <= n,
        small_digits(d),
    ensures
        0 <= weight(d, n) < pow10(n),
    decreases d.len(),
{
    lemma_pow10_positive(n);
    if d.len() > 0 {
        let p = pow10((n - 1) as nat);
        let rest = d.drop_first();
        assert(small_digits(rest)) by {
            assert forall|i: int| 0 <= i < rest.len() implies 0 <= #[trigger] rest[i] <= 8 by {
                assert(rest[i] == d[i + 1]);
            }
        }
        lemma_weight_bound(rest, (n - 1) as nat);
        lemma_pow10_positive((n - 1) as nat);
        assert(pow10(n) == 10 * p);
        let w = weight(rest, (n - 1) as nat);
        assert((d[0] + 1) * p + w < 10 * p) by (nonlinear_arith)
            requires
                0 <= d[0] <= 8,
                w < p,
                p >= 1,
        ;
        assert(0 <= (d[0] + 1) * p) by (nonlinear_arith)
            requires
                0 <= d[0],
                p >= 1,
        ;
        assert(weight(d, n) == (d[0] + 1) * p + w);
    }
}

/// A word that is lexicographically greater (larger at the first difference,
/// or a proper extension) weighs more.
proof fn lemma_weight_lex(d: Seq<int>, e: Seq<int>, n: nat, j: int)
    requires
        d.len() <= n,
        e.len() <= n,
        small_digits(d),
        small_digits(e),
        0 <= j <= d.len(),
        j <= e.len(),
        forall|i: int| 0 <= i < j ==> d[i] == e[i],
        (j == d.len() && j < e.len()) || (j < d.len() && j < e.len() && d[j] < e[j]),
    ensures
        weight(d, n) < weight(e, n),
    decreases j,
{
    let p = pow10((n - 1) as nat);
    lemma_pow10_positive((n - 1) as nat);
    let dr = if d.len() > 0 { d.drop_first() } else { d };
    let er = e.drop_first();
    assert(small_digits(er)) by {
        assert forall|i: int| 0 <= i < er.len() implies 0 <= #[trigger] er[i] <= 8 by {
            assert(er[i] == e[i + 1]);
        }
    }
    if d.len() > 0 {
        assert(small_digits(dr)) by {
            assert forall|i: int| 0 <= i < dr.len() implies 0 <= #[trigger] dr[i] <= 8 by {
                assert(dr[i] == d[i + 1]);
            }
        }
    }
    if j == 0 {
        lemma_weight_bound(er, (n - 1) as nat);
        let we = weight(er, (n - 1) as nat);
        if d.len() == 0 {
            assert(0 < (e[0] + 1) * p) by (nonlinear_arith)
                requires
                    0 <= e[0],
                    p >= 1,
            ;
        } else {
            lemma_weight_bound(dr, (n - 1) as nat);
            let wd = weight(dr, (n - 1) as nat);
            assert((d[0] + 1) * p + wd < (e[0] + 1) * p + we) by (nonlinear_arith)
                requires
                    d[0] + 1 <= e[0],
                    wd < p,
                    0 <= we,
                    p >= 1,
            ;
        }
    } else {
        assert forall|i: int| 0 <= i < j - 1 implies dr[i] == er[i] by {
            assert(dr[i] == d[i + 1]);
            assert(er[i] == e[i + 1]);
        }
        lemma_weight_lex(dr, er, (n - 1) as nat, j - 1);
    }
}

proof fn lemma_first_open_move(s: SearchState, w: int, h: int, i: int)
    ensures
        first_open_move(s, w, h, i) matches Some(k) ==> i <= k < 8 && open_target(s, w, h, k),
        first_open_move(s, w, h, i) is None ==> forall|j: int|
            i <= j < 8 ==> !#[trigger] open_target(s, w, h, j),
    decreases 8 - i,
{
    if i < 8 {
        lemma_first_open_move(s, w, h, i + 1);
    }
}

proof fn lemma_digits_small(s: SearchState, w: int, h: int, start: (int, int))
    requires
        search_inv(s, w, h, start),
    ensures
        small_digits(progress_digits(s, w)),
{
    let d = progress_digits(s, w);
    assert forall|i: int| 0 <= i < d.len() implies 0 <= #[trigger] d[i] <= 8 by {
        if i < s.path.len() - 1 {
            assert(exit_recorded(s, w, i));
        }
    }
}

/// Cells on the board that are pairwise distinct number at most as many as
/// the board has squares.
pub proof fn lemma_board_cells_bound(w: int, h: int, cells: Seq<(int, int)>)
    requires
        0 < w,
        0 < h,
        forall|i: int| 0 <= i < cells.len() ==> on_board(w, h, #[trigger] cells[i]),
        cells.no_duplicates(),
    ensures
        cells.len() <= w * h,
{
    let idx = cells.map_values(|q: (int, int)| cell_index(w, q));
    assert forall|i: int, j: int|
        0 <= i < idx.len() && 0 <= j < idx.len() && i != j implies idx[i] != idx[j] by {
        assert(on_board(w, h, cells[i]));
        assert(on_board(w, h, cells[j]));
        lemma_cell_index(w, h, cells[i], cells[j]);
    }
    idx.unique_seq_to_set();
    let range = set_int_range(0, w * h);
    lemma_int_range(0, w * h);
    assert forall|x: int| idx.to_set().contains(x) implies range.contains(x) by {
        let i = choose|i: int| 0 <= i < idx.len() && idx[i] == x;
        assert(on_board(w, h, cells[i]));
        lemma_cell_index(w, h, cells[i], cells[i]);
    }
    lemma_len_subset(idx.to_set(), range);
}

/// The head's storage offset is in range, and every other path cell sits at
/// an offset of its own, also in range.
proof fn lemma_path_offsets(s: SearchState, w: int, h: int, start: (int, int))
    requires
        search_inv(s, w, h, start),
    ensures
        0 <= cell_index(w, head(s)) < w * h,
        forall|i: int|
            0 <= i < s.path.len() - 1 ==> cell_index(w, #[trigger] s.path[i]) != cell_index(
                w,
                head(s),
            ) && 0 <= cell_index(w, s.path[i]) < w * h,
{
    let len = s.path.len() as int;
    let hd = head(s);
    assert(on_board(w, h, s.path[len - 1]));
    lemma_cell_index(w, h, hd, hd);
    assert forall|i: int| 0 <= i < len - 1 implies cell_index(w, #[trigger] s.path[i]) != cell_index(
        w,
        hd,
    ) && 0 <= cell_index(w, s.path[i]) < w * h by {
        assert(on_board(w, h, s.path[i]));
        assert(s.path[i] != s.path[len - 1]);
        lemma_cell_index(w, h, s.path[i], hd);
    }
}

/// Taking any open move `k` keeps the invariant.
pub proof fn lemma_moved_inv(s: SearchState, w: int, h: int, start: (int, int), k: int)
    requires
        search_inv(s, w, h, start),
        0 <= k < 8,
        open_target(s, w, h, k),
    ensures
        search_inv(moved(s, w, k), w, h, start),
{
    let t = moved(s, w, k);
    let len = s.path.len() as int;
    let hd = head(s);
    let hi = cell_index(w, hd);
    lemma_path_offsets(s, w, h, start);
    assert(on_board(w, h, s.path[len - 1]));
    let nt = step_target(hd, k);
    assert(nt != hd);
    lemma_cell_index(w, h, nt, hd);
    assert forall|i: int| 0 <= i < t.path.len() implies on_board(w, h, #[trigger] t.path[i]) by {
        if i < len {
            assert(t.path[i] == s.path[i]);
        }
    }
    assert forall|i: int, j: int|
        0 <= i < t.path.len() && 0 <= j < t.path.len() && i != j implies t.path[i] != t.path[j] by {
        if i < len - 1 {
            assert(exit_recorded(s, w, i));
        }
        if j < len - 1 {
            assert(exit_recorded(s, w, j));
        }
    }
    lemma_board_cells_bound(w, h, t.path);
    assert forall|i: int| 0 <= i < t.path.len() - 1 implies #[trigger] exit_recorded(t, w, i) by {
        if i < len - 1 {
            assert(exit_recorded(s, w, i));
            assert(t.path[i] == s.path[i]);
            assert(t.path[i + 1] == s.path[i + 1]);
            assert(t.marks[cell_index(w, t.path[i])] == s.marks[cell_index(w, s.path[i])]);
        } else {
            assert(t.path[i] == hd);
            assert(t.marks[hi] == Some(k as u8));
            assert(t.path[i + 1] == nt);
        }
    }
    assert(head(t) == nt);
}

/// Stepping back from a path of two or more cells keeps the invariant.
pub proof fn lemma_stepped_back_inv(s: SearchState, w: int, h: int, start: (int, int))
    requires
        search_inv(s, w, h, start),
        s.path.len() >= 2,
    ensures
        search_inv(stepped_back(s, w), w, h, start),
{
    let t = stepped_back(s, w);
    let len = s.path.len() as int;
    let hi = cell_index(w, head(s));
    lemma_path_offsets(s, w, h, start);
    let nh = s.path[len - 2];
    assert(exit_recorded(s, w, len - 2));
    assert(cell_index(w, nh) != hi);
    assert(head(t) == nh);
    assert forall|i: int| 0 <= i < t.path.len() - 1 implies #[trigger] exit_recorded(t, w, i) by {
        assert(exit_recorded(s, w, i));
        assert(t.path[i] == s.path[i]);
        assert(t.path[i + 1] == s.path[i + 1]);
        assert(t.marks[cell_index(w, t.path[i])] == s.marks[cell_index(w, s.path[i])]);
    }
}

/// One step keeps the invariant and shrinks what is left of the search.
pub proof fn lemma_advance(s: SearchState, w: int, h: int, start: (int, int))
    requires
        search_inv(s, w, h, start),
        !is_final(s, w, h),
    ensures
        search_inv(advance(s, w, h), w, h, start),
        0 <= remaining(advance(s, w, h), w, h) < remaining(s, w, h),
{
    let t = advance(s, w, h);
    let len = s.path.len() as int;
    let hi = cell_index(w, head(s));
    let n = (w * h) as nat;
    lemma_path_offsets(s, w, h, start);
    lemma_first_open_move(s, w, h, search_floor(s, w));
    lemma_digits_small(s, w, h, start);
    let d = progress_digits(s, w);
    match next_move(s, w, h) {
        Some(k) => {
            lemma_moved_inv(s, w, h, start, k);
            let nt = step_target(head(s), k);
            assert(nt != head(s));
            lemma_cell_index(w, h, nt, head(s));
            assert(head(t) == nt);
            let e = progress_digits(t, w);
            lemma_digits_small(t, w, h, start);
            assert forall|i: int| 0 <= i < len - 1 implies d[i] == e[i] by {
                assert(t.path[i] == s.path[i]);
            }
            assert(e[len - 1] == k);
            if k == search_floor(s, w) {
                lemma_weight_lex(d, e, n, len);
            } else {
                lemma_weight_lex(d, e, n, len - 1);
            }
            lemma_weight_bound(e, n);
        },
        None => {
            assert(len >= 2);
            lemma_stepped_back_inv(s, w, h, start);
            assert(exit_recorded(s, w, len - 2));
            assert(head(t) == s.path[len - 2]);
            let e = progress_digits(t, w);
            lemma_digits_small(t, w, h, start);
            assert forall|i: int| 0 <= i < len - 2 implies d[i] == e[i] by {
                assert(t.path[i] == s.path[i]);
            }
            lemma_weight_lex(d, e, n, len - 2);
            lemma_weight_bound(e, n);
        },
    }
}

/// Once final, the search stays where it is.
proof fn lemma_run_stays(s: SearchState, w: int, h: int, m: nat, n: nat)
    requires
        m <= n,
        is_final(run(s, w, h, m), w, h),
    ensures
        run(s, w, h, n) == run(s, w, h, m),
    decreases n - m,
{
    if m < n {
        lemma_run_stays(s, w, h, m, (n - 1) as nat);
    }
}

/// The search is deterministic: however many steps are taken to reach a
/// final state, it is the same state, with the same path and the same
/// backtrack count.
pub proof fn lemma_search_deterministic(w: int, h: int, start: (int, int), n1: nat, n2: nat)
    requires
        is_final(search_after(w, h, start, n1), w, h),
        is_final(search_after(w, h, start, n2), w, h),
    ensures
        search_after(w, h, start, n1) == search_after(w, h, start, n2),
{
    let s = initial_state(w, h, start);
    if n1 <= n2 {
        lemma_run_stays(s, w, h, n1, n2);
    } else {
        lemma_run_stays(s, w, h, n2, n1);
    }
}

/// The start state satisfies the invariant.
pub proof fn lemma_initial_inv(w: int, h: int, start: (int, int))
    requires
        0 < w,
        0 < h,
        on_board(w, h, start),
    ensures
        search_inv(initial_state(w, h, start), w, h, start),
{
    let s = initial_state(w, h, start);
    lemma_cell_index(w, h, start, start);
    assert(1 <= w * h) by (nonlinear_arith)
        requires
            0 < w,
            0 < h,
    ;
}

/// A complete state holds an open tour.
pub proof fn lemma_complete_is_tour(s: SearchState, w: int, h: int, start: (int, int))
    requires
        search_inv(s, w, h, start),
        is_complete(s, w, h),
    ensures
        is_open_tour(w, h, start, s.path),
{
    assert forall|i: int| 0 <= i < s.path.len() - 1 implies is_knight_step(#[trigger] s.path[i], s.path[i + 1]) by {
        assert(exit_recorded(s, w, i));
        let k = s.marks[cell_index(w, s.path[i])].unwrap() as int;
        assert(0 <= k < 8 && move_dx(k) == s.path[i + 1].0 - s.path[i].0 && move_dy(k) == s.path[i + 1].1 - s.path[i].1);
    }
}

/// An open tour covers the board: every cell of it stands in the path, and
/// (the path holding no cell twice) exactly once.
pub proof fn lemma_open_tour_covers_board(
    w: int,
    h: int,
    start: (int, int),
    path: Seq<(int, int)>,
    p: (int, int),
)
    requires
        is_open_tour(w, h, start, path),
        on_board(w, h, p),
    ensures
        path.contains(p),
{
    let idx = path.map_values(|q: (int, int)| cell_index(w, q));
    assert forall|i: int, j: int|
        0 <= i < idx.len() && 0 <= j < idx.len() && i != j implies idx[i] != idx[j] by {
        assert(on_board(w, h, path[i]));
        assert(on_board(w, h, path[j]));
        lemma_cell_index(w, h, path[i], path[j]);
    }
    idx.unique_seq_to_set();
    let range = set_int_range(0, w * h);
    lemma_int_range(0, w * h);
    assert forall|x: int| idx.to_set().contains(x) implies range.contains(x) by {
        let i = choose|i: int| 0 <= i < idx.len() && idx[i] == x;
        assert(on_board(w, h, path[i]));
        lemma_cell_index(w, h, path[i], path[i]);
    }
    lemma_subset_equality(idx.to_set(), range);
    lemma_cell_index(w, h, p, p);
    assert(range.contains(cell_index(w, p)));
    assert(idx.to_set().contains(cell_index(w, p)));
    let i = choose|i: int| 0 <= i < idx.len() && idx[i] == cell_index(w, p);
    assert(on_board(w, h, path[i]));
    lemma_cell_index(w, h, path[i], p);
    assert(path[i] == p);
}

} // verus!
