use vstd::prelude::*;
use vstd::set_lib::{lemma_int_range, lemma_len_subset, set_int_range};
use crate::deduce::{
    SolutionStep, StepView, opt_view, step_of, hidden_from, hidden_at, naked_from, naked_with,
    is_naked, sole_digit, flat, only_at, holds, unit_square, search_index, search_kind,
    search_digit,
};
use crate::grid::{Board, Grid, consistent, in_grid, is_board, placed};

verus! {

/// The flat indices of the squares still open.
pub open spec fn open_squares(b: Board) -> Set<int> {
    Set::new(|t: int| 0 <= t < 81 && flat(b, t) is Open)
}

/// The board after the engine's next deduction, or the board itself when it
/// finds none.
pub open spec fn after_step(b: Board) -> Board {
    match step_of(b) {
        Some(s) => placed(b, s.row, s.col, s.digit),
        None => b,
    }
}

/// Every step that a solving pass yields from board `b`, in order.
pub open spec fn trace(b: Board) -> Seq<StepView>
    decreases open_squares(b).len(),
    when is_board(b)
    via trace_decreases
{
    match step_of(b) {
        Some(s) => seq![s] + trace(placed(b, s.row, s.col, s.digit)),
        None => Seq::empty(),
    }
}

#[via_fn]
proof fn trace_decreases(b: Board) {
    if let Some(s) = step_of(b) {
        lemma_step_shrinks(b);
    }
}

proof fn lemma_hidden_from_found(b: Board, u: nat)
    ensures
        hidden_from(b, u) matches Some(t) ==> u <= t < 243 && hidden_at(b, t as int),
    decreases 243 - u,
{
    if u < 243 && !hidden_at(b, u as int) {
        lemma_hidden_from_found(b, u + 1);
    }
}

proof fn lemma_naked_from_found(b: Board, u: nat)
    ensures
        naked_from(b, u) matches Some(t) ==> u <= t < 81 && is_naked(flat(b, t as int)),
    decreases 81 - u,
{
    if u < 81 && !is_naked(flat(b, u as int)) {
        lemma_naked_from_found(b, u + 1);
    }
}

/// A deduction names an open square of the board and a digit from 1 to 9.
pub proof fn lemma_step_facts(b: Board)
    requires
        is_board(b),
    ensures
        step_of(b) matches Some(s) ==> in_grid(s.row, s.col) && 1 <= s.digit <= 9
            && b[s.row][s.col] is Open,
{
    lemma_hidden_from_found(b, 0);
    lemma_naked_from_found(b, 0);
    if let Some(t) = hidden_from(b, 0) {
        let i = search_index(t as int);
        let kind = search_kind(t as int);
        let d = search_digit(t as int);
        let k = choose|k: int| only_at(b, kind, i, d, k);
        assert(only_at(b, kind, i, d, k));
        assert(holds(b, kind, i, k, d));
        assert(0 <= i < 9);
        assert(0 <= kind < 3);
        let (x, y) = unit_square(kind, i, k);
        assert(in_grid(x, y));
    } else if let Some(t) = naked_from(b, 0) {
        let r = t / 9;
        let c = t % 9;
        let d = sole_digit(b[r as int][c as int]);
        assert(naked_with(flat(b, t as int), d));
    }
}

proof fn lemma_flat_index(r: int, c: int, t: int)
    requires
        in_grid(r, c),
        0 <= t < 81,
    ensures
        (t == r * 9 + c) == (t / 9 == r && t % 9 == c),
        0 <= r * 9 + c < 81,
        (r * 9 + c) / 9 == r,
        (r * 9 + c) % 9 == c,
{
    assert((r * 9 + c) / 9 == r) by (nonlinear_arith)
        requires 0 <= c < 9, 0 <= r;
    assert((r * 9 + c) % 9 == c) by (nonlinear_arith)
        requires 0 <= c < 9, 0 <= r;
    assert(t == (t / 9) * 9 + t % 9) by (nonlinear_arith);
}

proof fn lemma_open_squares_finite(b: Board)
    ensures
        open_squares(b).finite(),
        open_squares(b).len() <= 81,
{
    lemma_int_range(0, 81);
    lemma_len_subset(open_squares(b), set_int_range(0, 81));
}

/// Each deduction solves exactly one square that was open.
pub proof fn lemma_step_shrinks(b: Board)
    requires
        is_board(b),
        step_of(b) is Some,
    ensures
        is_board(after_step(b)),
        open_squares(after_step(b)).finite(),
        open_squares(after_step(b)).len() + 1 == open_squares(b).len(),
{
    lemma_step_facts(b);
    let s = step_of(b)->Some_0;
    let p = after_step(b);
    let u = s.row * 9 + s.col;
    lemma_flat_index(s.row, s.col, 0);
    assert forall|t: int| #[trigger] open_squares(p).contains(t) == open_squares(b).remove(u).contains(t) by {
        if 0 <= t < 81 {
            lemma_flat_index(s.row, s.col, t);
        }
    }
    assert(open_squares(p) =~= open_squares(b).remove(u));
    assert(open_squares(b).contains(u));
    lemma_open_squares_finite(b);
    lemma_open_squares_finite(p);
}

/// A solving pass yields at most one step per open square, so never more
/// than 81 steps.
pub proof fn lemma_trace_bounded(b: Board)
    requires
        is_board(b),
    ensures
        trace(b).len() <= open_squares(b).len() <= 81,
    decreases open_squares(b).len(),
{
    lemma_open_squares_finite(b);
    if let Some(s) = step_of(b) {
        lemma_step_shrinks(b);
        lemma_trace_bounded(after_step(b));
    }
}

/// Two solving passes over grids with the same cells yield the same steps,
/// positions, digits and messages alike, in the same order.
pub proof fn lemma_passes_agree(g1: Grid, g2: Grid)
    requires
        g1@ =~~= g2@,
    ensures
        trace(g1@) == trace(g2@),
        after_step(g1@) == after_step(g2@),
{
}

/// On a board with no open square the engine finds nothing to do.
pub proof fn lemma_solved_board_is_done(b: Board)
    requires
        is_board(b),
        forall|r: int, c: int| in_grid(r, c) ==> #[trigger] b[r][c] is Solved,
    ensures
        step_of(b) is None,
        trace(b) == Seq::<StepView>::empty(),
{
    lemma_step_facts(b);
}

/// A solving pass: it holds the grid for as long as it lasts and calls the
/// observer with the grid as it stands before each placement.
pub struct GridIterator<'s, F> where F: Fn(&Grid) {
    grid: &'s mut Grid,
    before_step: F,
}

impl Grid {
    /// Starts a solving pass over this grid.
    pub fn solve<F>(&mut self, before_step: F) -> (r: GridIterator<'_, F>)
        where
            F: Fn(&Grid),
        requires
            forall|g: &Grid| before_step.requires((g,)),
        ensures
            r.wf(),
            r.board() == old(self)@,
    {
        GridIterator { grid: self, before_step }
    }
}

impl<'s, F> GridIterator<'s, F> where F: Fn(&Grid) {
    /// The observer accepts every grid.
    pub closed spec fn wf(&self) -> bool {
        forall|g: &Grid| self.before_step.requires((g,))
    }

    /// The cells of the grid that the pass holds.
    pub closed spec fn board(&self) -> Board {
        (*self.grid)@
    }

    /// The grid that a pass holds is nine rows of nine cells.
    pub proof fn lemma_board(&self)
        ensures
            is_board(self.board()),
    {
        self.grid.lemma_shape();
    }

    /// Makes the next deduction, if there is one: shows the grid to the
    /// observer, places the digit (crossing it out of the peers), and
    /// returns the step.
    pub fn next(&mut self) -> (r: Option<SolutionStep>)
        requires
            old(self).wf(),
        ensures
            final(self).wf(),
            opt_view(r) == step_of(old(self).board()),
            final(self).board() == after_step(old(self).board()),
            consistent(old(self).board()) ==> consistent(final(self).board()),
    {
        let next = match self.grid.find_hidden_single() {
            Some(step) => Some(step),
            None => self.grid.find_naked_single(),
        };
        proof {
            self.lemma_board();
            lemma_step_facts(self.board());
        }
        match &next {
            Some(step) => {
                (self.before_step)(&*self.grid);
                self.grid.place_digit(step.position, step.digit);
            },
            None => {},
        }
        next
    }

    /// Runs the pass to its end and returns every step, in order.
    pub fn collect_steps(&mut self) -> (r: Vec<SolutionStep>)
        requires
            old(self).wf(),
        ensures
            final(self).wf(),
            r@.map_values(|s: SolutionStep| s@) == trace(old(self).board()),
            r.len() <= 81,
            step_of(final(self).board()) is None,
    {
        let mut out: Vec<SolutionStep> = Vec::new();
        let mut done = false;
        proof {
            self.lemma_board();
            lemma_trace_bounded(self.board());
            lemma_open_squares_finite(self.board());
        }
        while !done
            invariant
                self.wf(),
                is_board(self.board()),
                out@.map_values(|s: SolutionStep| s@) + (if done { Seq::empty() } else { trace(self.board()) })
                    == trace(old(self).board()),
                done ==> step_of(self.board()) is None,
            decreases open_squares(self.board()).len() + if done { 0int } else { 1int },
        {
            let ghost before = self.board();
            let ghost seen = out@.map_values(|s: SolutionStep| s@);
            proof {
                lemma_open_squares_finite(before);
            }
            match self.next() {
                Some(step) => {
                    proof {
                        lemma_step_shrinks(before);
                        assert(trace(before) == seq![step@] + trace(self.board()));
                    }
                    out.push(step);
                    proof {
                        assert(out@.map_values(|s: SolutionStep| s@) =~= seen.push(step@));
                        assert(seen.push(step@) + trace(self.board()) =~= seen + trace(before));
                    }
                },
                None => {
                    done = true;
                    proof {
                        assert(seen + Seq::<StepView>::empty() =~= seen);
                    }
                },
            }
        }
        proof {
            assert(out@.map_values(|s: SolutionStep| s@).len() == out.len());
        }
        out
    }
}

} // verus!
