use vstd::prelude::*;

use crate::matrix::{cell_index, on_board, Matrix};
use crate::moves::{knight_move, MOVE_COUNT};
use crate::position::Position;
use crate::search::{
    advance, first_open_move, head, initial_state, is_complete, is_exhausted, is_final,
    is_open_tour, lemma_advance, lemma_complete_is_tour, lemma_initial_inv,
    lemma_moved_inv, lemma_search_deterministic, lemma_stepped_back_inv, moved, next_move,
    open_target, remaining, run, search_after, search_inv, stepped_back, step_target, count_up,
    SearchState,
};

verus! {

/// std::time::Instant, carried as an opaque value between the two clock
/// readings below.
#[verifier::external_type_specification]
#[verifier::external_body]
pub struct ExInstant(std::time::Instant);

/// Relies on std::time::Instant::now: reads the monotonic clock, used only
/// to report how long a search took.
#[verifier::external_body]
fn clock_now() -> (r: std::time::Instant) {
    std::time::Instant::now()
}

/// Relies on std::time::Instant::elapsed for the time since `start`, turned
/// into a count of nanoseconds by Duration::as_nanos. Nothing is assumed of
/// its value.
#[verifier::external_body]
fn nanos_since(start: &std::time::Instant) -> (r: u128) {
    start.elapsed().as_nanos()
}

/// What a search is asked: the board's size and the cell to start from.
pub struct TourInput {
    pub size_x: u8,
    pub size_y: u8,
    pub starting_position: (i16, i16),
}

/// The outcome of a search.
pub enum TourResult {
    NoSolution,
    Solution(Tour),
}

impl TourResult {
    /// Whether a tour was found.
    pub fn has_solution(&self) -> (r: bool)
        ensures
            r == (self is Solution),
    {
        match self {
            TourResult::NoSolution => false,
            TourResult::Solution(_) => true,
        }
    }
}

/// A tour that was found: the cells in the order visited, how often the
/// search backtracked (held at `u32::MAX` once it gets there), and how long
/// it took in nanoseconds.
pub struct Tour {
    pub position_history: Vec<(i16, i16)>,
    pub times_backtracked: u32,
    pub calculation_time: u128,
}

/// The cells of a path as pairs of mathematical integers.
pub open spec fn path_view(v: Seq<(i16, i16)>) -> Seq<(int, int)> {
    v.map_values(|t: (i16, i16)| (t.0 as int, t.1 as int))
}

/// The board, as mathematical integers, that `inp` asks about.
pub open spec fn input_width(inp: TourInput) -> int {
    inp.size_x as int
}

pub open spec fn input_height(inp: TourInput) -> int {
    inp.size_y as int
}

pub open spec fn input_start(inp: TourInput) -> (int, int) {
    (inp.starting_position.0 as int, inp.starting_position.1 as int)
}

/// Whether the board admits an open tour by the closed-form rules: no side
/// of zero; not both sides odd; the shorter side not 1, 2 or 4; and not a
/// 3 by 4, 3 by 6 or 3 by 8 board.
pub open spec fn feasible(w: int, h: int) -> bool {
    if w == 0 || h == 0 {
        false
    } else {
        let a = if w <= h { w } else { h };
        let b = if w <= h { h } else { w };
        !((a % 2 == 1 && b % 2 == 1) || a == 1 || a == 2 || a == 4 || (a == 3 && (b == 4 || b
            == 6 || b == 8)))
    }
}

/// `r` is what the search, run until it stops, gives on `inp`: a tour with
/// the final path and backtrack count if it covered the board, and no
/// solution if it ran out of moves at the start cell.
pub open spec fn reports_search(inp: TourInput, r: TourResult) -> bool {
    let w = input_width(inp);
    let h = input_height(inp);
    exists|n: nat|
        {
            let s = #[trigger] search_after(w, h, input_start(inp), n);
            &&& is_final(s, w, h)
            &&& match r {
                TourResult::NoSolution => !is_complete(s, w, h),
                TourResult::Solution(t) => is_complete(s, w, h) && path_view(t.position_history@)
                    == s.path && t.times_backtracked == s.backtracks,
            }
        }
}

/// The full contract of `find_solution` on `inp`.
pub open spec fn solves(inp: TourInput, r: TourResult) -> bool {
    let w = input_width(inp);
    let h = input_height(inp);
    &&& !feasible(w, h) ==> r is NoSolution
    &&& feasible(w, h) ==> reports_search(inp, r)
    &&& r matches TourResult::Solution(t) ==> is_open_tour(
        w,
        h,
        input_start(inp),
        path_view(t.position_history@),
    )
}

/// The search engine's working state.
pub struct TourGuide {
    visitation_history: Matrix,
    tour_size: usize,
    position_history: Vec<Position>,
    current_position: Position,
    times_backtracked: u32,
}

impl TourGuide {
    spec fn width(&self) -> int {
        self.visitation_history.width()
    }

    spec fn height(&self) -> int {
        self.visitation_history.height()
    }

    spec fn start(&self) -> (int, int) {
        self.position_history@[0].view_pair()
    }

    spec fn state(&self) -> SearchState {
        SearchState {
            marks: self.visitation_history.cells(),
            path: self.position_history@.map_values(|p: Position| p.view_pair()),
            backtracks: self.times_backtracked,
        }
    }

    spec fn wf(&self) -> bool {
        &&& self.visitation_history.wf()
        &&& feasible(self.width(), self.height())
        &&& self.width() <= 255
        &&& self.height() <= 255
        &&& self.tour_size == self.width() * self.height()
        &&& self.position_history@.len() >= 1
        &&& self.current_position == self.position_history@.last()
        &&& search_inv(self.state(), self.width(), self.height(), self.start())
    }

    fn new(inp: TourInput) -> (r: TourGuide)
        requires
            feasible(input_width(inp), input_height(inp)),
            on_board(input_width(inp), input_height(inp), input_start(inp)),
        ensures
            r.wf(),
            r.width() == input_width(inp),
            r.height() == input_height(inp),
            r.start() == input_start(inp),
            r.state() == initial_state(input_width(inp), input_height(inp), input_start(inp)),
    {
        let starting_position = Position(inp.starting_position.0, inp.starting_position.1);
        assert(inp.size_x as int * inp.size_y as int <= 255 * 255) by (nonlinear_arith)
            requires
                inp.size_x <= 255,
                inp.size_y <= 255,
        ;
        let tour_size = inp.size_x as usize * inp.size_y as usize;
        let visitation_history = Matrix::new(inp.size_x, inp.size_y);
        let mut position_history: Vec<Position> = Vec::with_capacity(tour_size);
        position_history.push(starting_position);
        let r = TourGuide {
            visitation_history,
            tour_size,
            position_history,
            current_position: starting_position,
            times_backtracked: 0,
        };
        proof {
            let w = input_width(inp);
            let h = input_height(inp);
            lemma_initial_inv(w, h, input_start(inp));
            assert(r.state().marks =~= initial_state(w, h, input_start(inp)).marks);
            assert(r.state().path =~= initial_state(w, h, input_start(inp)).path);
        }
        r
    }

    /// Runs the search on a board that passes the feasibility rules until the
    /// path covers the board, or, should the start cell run out of moves,
    /// stops there with the start alone on the path instead of stepping back
    /// past it.
    fn calc_tour(&mut self)
        requires
            old(self).wf(),
        ensures
            final(self).wf(),
            final(self).width() == old(self).width(),
            final(self).height() == old(self).height(),
            final(self).start() == old(self).start(),
            is_final(final(self).state(), final(self).width(), final(self).height()),
            exists|n: nat|
                run(old(self).state(), old(self).width(), old(self).height(), n)
                    == final(self).state(),
    {
        let ghost s0 = self.state();
        let ghost w = self.width();
        let ghost h = self.height();
        let ghost mut n: nat = 0;
        let mut stuck = false;
        while !stuck && !self.tour_is_finished()
            invariant
                self.wf(),
                self.width() == w,
                self.height() == h,
                s0.path.len() >= 1,
                self.start() == s0.path[0],
                run(s0, w, h, n) == self.state(),
                stuck ==> is_exhausted(self.state(), w, h),
            decreases remaining(self.state(), w, h), !stuck as int,
        {
            let ghost old_state = self.state();
            let next_move = self.next_lowest_indexed_valid_move();
            match next_move {
                None => {
                    if self.position_history.len() <= 1 {
                        stuck = true;
                    } else {
                        proof {
                            lemma_advance(self.state(), w, h, s0.path[0]);
                        }
                        self.backtrack();
                        proof {
                            assert(self.state() == advance(old_state, w, h));
                            n = n + 1;
                        }
                    }
                },
                Some(move_index) => {
                    proof {
                        lemma_advance(self.state(), w, h, s0.path[0]);
                    }
                    self.move_knight(move_index);
                    proof {
                        assert(self.state() == advance(old_state, w, h));
                        n = n + 1;
                    }
                },
            }
        }
        assert(run(s0, w, h, n) == self.state());
    }

    fn next_lowest_indexed_valid_move(&self) -> (r: Option<u8>)
        requires
            self.wf(),
        ensures
            r is None ==> next_move(self.state(), self.width(), self.height()) is None,
            r matches Some(k) ==> k < MOVE_COUNT && open_target(
                self.state(),
                self.width(),
                self.height(),
                k as int,
            ),
            r matches Some(k) ==> next_move(self.state(), self.width(), self.height()) == Some(
                k as int,
            ),
    {
        let ghost s = self.state();
        let ghost w = self.width();
        let ghost h = self.height();
        let ghost len = s.path.len() as int;
        proof {
            assert(on_board(w, h, s.path[len - 1]));
            assert(s.path[len - 1] == self.current_position.view_pair());
        }
        let mut i: usize = match self.visitation_history.get(self.current_position.to_tuple()) {
            Some(x) => x as usize + 1,
            None => 0,
        };
        while i < MOVE_COUNT
            invariant
                self.wf(),
                s == self.state(),
                w == self.width(),
                h == self.height(),
                head(s) == self.current_position.view_pair(),
                on_board(w, h, head(s)),
                i <= 8,
                first_open_move(s, w, h, i as int) == next_move(s, w, h),
            decreases MOVE_COUNT - i,
        {
            let movement = knight_move(i);
            let new_pos = self.current_position.calc_move(&movement);
            let t = new_pos.to_tuple();
            if self.visitation_history.is_in_bounds(t) && self.visitation_history.get(t).is_none() {
                return Some(i as u8);
            }
            i += 1;
        }
        None
    }

    /// Moves the knight by move `movement_index`: records it as the exit of
    /// the current cell and makes the cell it reaches the new head.
    fn move_knight(&mut self, movement_index: u8)
        requires
            old(self).wf(),
            movement_index < MOVE_COUNT,
            open_target(old(self).state(), old(self).width(), old(self).height(), movement_index as int),
        ensures
            final(self).wf(),
            final(self).width() == old(self).width(),
            final(self).height() == old(self).height(),
            final(self).start() == old(self).start(),
            final(self).state().marks == old(self).state().marks.update(
                cell_index(old(self).width(), head(old(self).state())),
                Some(movement_index),
            ),
            final(self).state().path == old(self).state().path.push(
                step_target(head(old(self).state()), movement_index as int),
            ),
            final(self).state().backtracks == old(self).state().backtracks,
    {
        let ghost s = self.state();
        let ghost w = self.width();
        let ghost h = self.height();
        let ghost len = s.path.len() as int;
        proof {
            assert(on_board(w, h, s.path[len - 1]));
            assert(s.path[len - 1] == self.current_position.view_pair());
            lemma_moved_inv(s, w, h, s.path[0], movement_index as int);
        }
        let movement = knight_move(movement_index as usize);
        let new_pos = self.current_position.calc_move(&movement);
        self.visitation_history.set(self.current_position.to_tuple(), movement_index);
        self.position_history.push(new_pos);
        self.current_position = new_pos;
        proof {
            assert(self.state().path =~= moved(s, w, movement_index as int).path);
            assert(self.start() == s.path[0]);
        }
    }

    /// Steps back: clears the current cell, drops it from the path, makes the
    /// cell before it the head, and counts one more backtrack.
    fn backtrack(&mut self)
        requires
            old(self).wf(),
            old(self).position_history@.len() >= 2,
        ensures
            final(self).wf(),
            final(self).width() == old(self).width(),
            final(self).height() == old(self).height(),
            final(self).start() == old(self).start(),
            final(self).state().marks == old(self).state().marks.update(
                cell_index(old(self).width(), head(old(self).state())),
                None,
            ),
            final(self).state().path == old(self).state().path.drop_last(),
            final(self).state().backtracks == count_up(old(self).state().backtracks),
    {
        let ghost s = self.state();
        let ghost w = self.width();
        let ghost h = self.height();
        let ghost len = s.path.len() as int;
        proof {
            assert(on_board(w, h, s.path[len - 1]));
            assert(s.path[len - 1] == self.current_position.view_pair());
            lemma_stepped_back_inv(s, w, h, s.path[0]);
        }
        self.visitation_history.reset(self.current_position.to_tuple());
        self.position_history.pop();
        let last = self.position_history.len() - 1;
        self.current_position = self.position_history[last];
        if self.times_backtracked < u32::MAX {
            self.times_backtracked += 1;
        }
        proof {
            assert(self.state().path =~= stepped_back(s, w).path);
            assert(self.start() == s.path[0]);
        }
    }

    fn tour_is_finished(&self) -> (r: bool)
        requires
            self.wf(),
        ensures
            r == is_complete(self.state(), self.width(), self.height()),
    {
        self.position_history.len() == self.tour_size
    }

    fn run_tour(inp: TourInput) -> (r: TourResult)
        requires
            feasible(input_width(inp), input_height(inp)),
            on_board(input_width(inp), input_height(inp), input_start(inp)),
        ensures
            reports_search(inp, r),
            r matches TourResult::Solution(t) ==> is_open_tour(
                input_width(inp),
                input_height(inp),
                input_start(inp),
                path_view(t.position_history@),
            ),
    {
        let start = clock_now();
        let mut guide = TourGuide::new(inp);
        guide.calc_tour();
        let duration = nanos_since(&start);
        let ghost w = input_width(inp);
        let ghost h = input_height(inp);
        let ghost s = guide.state();
        proof {
            let n = choose|n: nat| run(initial_state(w, h, input_start(inp)), w, h, n) == s;
            assert(search_after(w, h, input_start(inp), n) == s);
        }
        if !guide.tour_is_finished() {
            return TourResult::NoSolution;
        }
        let mut position_history: Vec<(i16, i16)> = Vec::with_capacity(guide.position_history.len());
        let mut i: usize = 0;
        while i < guide.position_history.len()
            invariant
                i <= guide.position_history@.len(),
                s == guide.state(),
                path_view(position_history@) == s.path.subrange(0, i as int),
            decreases guide.position_history@.len() - i,
        {
            assert(s.path[i as int] == guide.position_history@[i as int].view_pair());
            let ghost prev = position_history@;
            position_history.push(guide.position_history[i].to_tuple());
            proof {
                assert(path_view(position_history@) =~= path_view(prev).push(s.path[i as int]));
                assert(s.path.subrange(0, i + 1) =~= s.path.subrange(0, i as int).push(s.path[i as int]));
            }
            i += 1;
        }
        assert(s.path.subrange(0, i as int) =~= s.path);
        proof {
            lemma_complete_is_tour(s, w, h, input_start(inp));
        }
        TourResult::Solution(
            Tour {
                position_history,
                times_backtracked: guide.times_backtracked,
                calculation_time: duration,
            },
        )
    }
}

/// Whether a `size_x` by `size_y` board passes the closed-form feasibility
/// rules.
pub fn has_solution(size_x: u8, size_y: u8) -> (r: bool)
    ensures
        r == feasible(size_x as int, size_y as int),
    decreases (if size_x > size_y { 1int } else { 0int }),
{
    if size_x == 0 || size_y == 0 {
        return false;
    }
    if size_x > size_y {
        return has_solution(size_y, size_x);
    }
    let both_are_odd = size_x % 2 == 1 && size_y % 2 == 1;
    let forbidden_x_values = size_x == 1 || size_x == 2 || size_x == 4;
    let forbidden_y_value_for_x = (size_x == 3) && (size_y == 4 || size_y == 6 || size_y == 8);
    !(both_are_odd || forbidden_x_values || forbidden_y_value_for_x)
}

/// Searches for an open knight's tour of the board from the start cell.
/// Boards that fail the feasibility rules get no search and no solution;
/// otherwise the search runs to its end, and a solution is returned exactly
/// when it covered the board.
pub fn find_solution(tour: TourInput) -> (r: TourResult)
    requires
        feasible(input_width(tour), input_height(tour)) ==> on_board(
            input_width(tour),
            input_height(tour),
            input_start(tour),
        ),
    ensures
        solves(tour, r),
{
    if !has_solution(tour.size_x, tour.size_y) {
        return TourResult::NoSolution;
    }
    TourGuide::run_tour(tour)
}

/// Feasibility does not depend on which side is the width.
pub proof fn lemma_feasible_symmetric(w: int, h: int)
    requires
        w >= 1,
        h >= 1,
    ensures
        feasible(w, h) == feasible(h, w),
{
}

/// A board with both sides odd is infeasible.
pub proof fn lemma_both_odd_infeasible(w: int, h: int)
    requires
        w >= 1,
        h >= 1,
        w % 2 == 1,
        h % 2 == 1,
    ensures
        !feasible(w, h),
{
}

/// Boards one, two or four cells wide are infeasible, whatever their height.
pub proof fn lemma_narrow_infeasible(h: int)
    requires
        h >= 1,
    ensures
        !feasible(1, h),
        !feasible(2, h),
        !feasible(4, h),
{
}

/// A board with a side of zero is infeasible.
pub proof fn lemma_empty_board_infeasible(n: int)
    requires
        n >= 0,
    ensures
        !feasible(0, n),
        !feasible(n, 0),
{
}

/// Two results that both meet the contract of `find_solution` on the same
/// input agree: both are solutions or neither is, and solutions have the same
/// path and the same backtrack count.
pub proof fn lemma_find_solution_deterministic(inp: TourInput, r1: TourResult, r2: TourResult)
    requires
        solves(inp, r1),
        solves(inp, r2),
    ensures
        (r1 is Solution) == (r2 is Solution),
        r1 matches TourResult::Solution(t1) ==> (r2 matches TourResult::Solution(t2)
            ==> t1.position_history@ == t2.position_history@ && t1.times_backtracked
            == t2.times_backtracked),
{
    let w = input_width(inp);
    let h = input_height(inp);
    let st = input_start(inp);
    if feasible(w, h) {
        let n1 = choose|n: nat|
            {
                let s = #[trigger] search_after(w, h, st, n);
                &&& is_final(s, w, h)
                &&& match r1 {
                    TourResult::NoSolution => !is_complete(s, w, h),
                    TourResult::Solution(t) => is_complete(s, w, h) && path_view(
                        t.position_history@,
                    ) == s.path && t.times_backtracked == s.backtracks,
                }
            };
        let n2 = choose|n: nat|
            {
                let s = #[trigger] search_after(w, h, st, n);
                &&& is_final(s, w, h)
                &&& match r2 {
                    TourResult::NoSolution => !is_complete(s, w, h),
                    TourResult::Solution(t) => is_complete(s, w, h) && path_view(
                        t.position_history@,
                    ) == s.path && t.times_backtracked == s.backtracks,
                }
            };
        lemma_search_deterministic(w, h, st, n1, n2);
        if let TourResult::Solution(t1) = r1 {
            if let TourResult::Solution(t2) = r2 {
                let a = t1.position_history@;
                let b = t2.position_history@;
                assert(path_view(a) == path_view(b));
                assert(a.len() == b.len());
                assert forall|i: int| 0 <= i < a.len() implies a[i] == b[i] by {
                    assert(path_view(a)[i] == path_view(b)[i]);
                }
                assert(a =~= b);
            }
        }
    }
}

} // verus!
