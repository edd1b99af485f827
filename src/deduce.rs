use vstd::prelude::*;
use vstd::string::StringExecFns;
use crate::cell::{Cell, CellView, digits_of, digit_seq, push_number};
use crate::grid::{Board, Grid, box_coords, in_grid, is_board};

verus! {

/// One deduction: the square solved, the digit placed there, and a sentence
/// that names the technique and where it applied.
pub struct SolutionStep {
    pub position: (usize, usize),
    pub digit: u8,
    pub message: String,
}

/// The mathematical model of a step.
pub struct StepView {
    pub row: int,
    pub col: int,
    pub digit: int,
    pub message: Seq<char>,
}

impl View for SolutionStep {
    type V = StepView;

    open spec fn view(&self) -> StepView {
        StepView {
            row: self.position.0 as int,
            col: self.position.1 as int,
            digit: self.digit as int,
            message: self.message@,
        }
    }
}

/// The model of an optional step.
pub open spec fn opt_view(o: Option<SolutionStep>) -> Option<StepView> {
    match o {
        Some(s) => Some(s@),
        None => None,
    }
}

// ---------------------------------------------------------------- messages

/// The sentence for a naked single of `d` at `(r, c)`, counted from 1.
pub open spec fn naked_message(d: int, r: int, c: int) -> Seq<char> {
    "Found naked single for "@ + digit_seq(d) + " at r"@ + digit_seq(r + 1) + "c"@
        + digit_seq(c + 1) + "!"@
}

/// The sentence for a hidden single of `d` found in unit `i` of the given
/// kind (0 a box, 1 a row, 2 a column), at place `k` of that unit.
pub open spec fn hidden_message(kind: int, i: int, d: int, k: int) -> Seq<char> {
    let (x, y) = unit_square(kind, i, k);
    if kind == 0 {
        "Found hidden single for "@ + digit_seq(d) + " in box "@ + digit_seq(i + 1)
            + " at position r"@ + digit_seq(x + 1) + "c"@ + digit_seq(y + 1)
    } else if kind == 1 {
        "Found hidden single for "@ + digit_seq(d) + " in r"@ + digit_seq(i + 1) + " at c"@
            + digit_seq(k + 1)
    } else {
        "Found hidden single for "@ + digit_seq(d) + " in c"@ + digit_seq(i + 1) + " at r"@
            + digit_seq(k + 1)
    }
}

// ------------------------------------------------------------ naked single

/// The cell at flat row-major index `t`.
pub open spec fn flat(b: Board, t: int) -> CellView {
    b[t / 9][t % 9]
}

/// An open cell whose only candidate is `d`.
pub open spec fn naked_with(cell: CellView, d: int) -> bool {
    1 <= d <= 9 && cell == CellView::Open(set![d])
}

/// An open cell with exactly one candidate left.
pub open spec fn is_naked(cell: CellView) -> bool {
    exists|d: int| naked_with(cell, d)
}

/// The one candidate of a naked single.
pub open spec fn sole_digit(cell: CellView) -> int {
    choose|d: int| naked_with(cell, d)
}

/// The first square, in row-major order from flat index `t`, that holds a
/// naked single.
pub open spec fn naked_from(b: Board, t: nat) -> Option<nat>
    decreases 81 - t,
{
    if t >= 81 {
        None
    } else if is_naked(flat(b, t as int)) {
        Some(t)
    } else {
        naked_from(b, t + 1)
    }
}

pub open spec fn naked_step(b: Board, t: nat) -> StepView {
    let r = t / 9;
    let c = t % 9;
    let d = sole_digit(b[r as int][c as int]);
    StepView { row: r as int, col: c as int, digit: d, message: naked_message(d, r as int, c as int) }
}

/// The naked single that the engine reports: the first in row-major order.
pub open spec fn naked_single(b: Board) -> Option<StepView> {
    match naked_from(b, 0) {
        Some(t) => Some(naked_step(b, t)),
        None => None,
    }
}

// ----------------------------------------------------------- hidden single

/// The square at place `k` of unit `i`: box `i` (kind 0), row `i` (kind 1)
/// or column `i` (kind 2).
pub open spec fn unit_square(kind: int, i: int, k: int) -> (int, int) {
    if kind == 0 {
        box_coords(i, k)
    } else if kind == 1 {
        (i, k)
    } else {
        (k, i)
    }
}

/// Place `k` of the unit is open and has `d` among its candidates.
pub open spec fn holds(b: Board, kind: int, i: int, k: int, d: int) -> bool {
    let (x, y) = unit_square(kind, i, k);
    b[x][y] is Open && b[x][y]->Open_0.contains(d)
}

/// Place `k` is the only place of the unit that can take `d`.
pub open spec fn only_at(b: Board, kind: int, i: int, d: int, k: int) -> bool {
    0 <= k < 9 && holds(b, kind, i, k, d) && forall|k2: int|
        0 <= k2 < 9 && k2 != k ==> !#[trigger] holds(b, kind, i, k2, d)
}

pub open spec fn hidden_in(b: Board, kind: int, i: int, d: int) -> bool {
    exists|k: int| only_at(b, kind, i, d, k)
}

/// The unit index, unit kind and digit that the search visits at step `t`:
/// units by ascending index, for each index the box, the row, then the
/// column, and in each unit the digits in ascending order.
pub open spec fn search_index(t: int) -> int {
    t / 27
}

pub open spec fn search_kind(t: int) -> int {
    (t % 27) / 9
}

pub open spec fn search_digit(t: int) -> int {
    t % 9 + 1
}

/// The search step `t` finds a hidden single.
pub open spec fn hidden_at(b: Board, t: int) -> bool {
    hidden_in(b, search_kind(t), search_index(t), search_digit(t))
}

/// The first step of the search, from `t` on, that finds a hidden single.
pub open spec fn hidden_from(b: Board, t: nat) -> Option<nat>
    decreases 243 - t,
{
    if t >= 243 {
        None
    } else if hidden_at(b, t as int) {
        Some(t)
    } else {
        hidden_from(b, t + 1)
    }
}

pub open spec fn hidden_step(b: Board, t: nat) -> StepView {
    let i = search_index(t as int);
    let kind = search_kind(t as int);
    let d = search_digit(t as int);
    let k = choose|k: int| only_at(b, kind, i, d, k);
    let (x, y) = unit_square(kind, i, k);
    StepView { row: x, col: y, digit: d, message: hidden_message(kind, i, d, k) }
}

/// The hidden single that the engine reports: the first that the search
/// meets.
pub open spec fn hidden_single(b: Board) -> Option<StepView> {
    match hidden_from(b, 0) {
        Some(t) => Some(hidden_step(b, t)),
        None => None,
    }
}

/// The deduction the engine makes on a board: a hidden single if there is
/// one, else a naked single, else none.
pub open spec fn step_of(b: Board) -> Option<StepView> {
    match hidden_single(b) {
        Some(s) => Some(s),
        None => naked_single(b),
    }
}

proof fn lemma_naked_skip(b: Board, t: nat, u: nat)
    requires
        t <= u <= 81,
        forall|v: int| t <= v < u ==> !is_naked(#[trigger] flat(b, v)),
    ensures
        naked_from(b, t) == naked_from(b, u),
    decreases u - t,
{
    if t < u {
        lemma_naked_skip(b, (t + 1) as nat, u);
    }
}

proof fn lemma_hidden_skip(b: Board, t: nat, u: nat)
    requires
        t <= u <= 243,
        forall|v: int| t <= v < u ==> !#[trigger] hidden_at(b, v),
    ensures
        hidden_from(b, t) == hidden_from(b, u),
    decreases u - t,
{
    if t < u {
        lemma_hidden_skip(b, (t + 1) as nat, u);
    }
}

/// The digit that a candidate array leaves as its only candidate, if it
/// leaves exactly one.
fn sole_candidate(c: &[bool; 9]) -> (r: Option<u8>)
    ensures
        match r {
            Some(d) => naked_with(CellView::Open(digits_of(*c)), d as int),
            None => !is_naked(CellView::Open(digits_of(*c))),
        },
{
    let mut first: Option<usize> = None;
    let mut many = false;
    let mut e: usize = 0;
    while e < 9
        invariant
            e <= 9,
            first is None ==> forall|e1: int| 0 <= e1 < e ==> !c[e1],
            first matches Some(f) ==> f < e && c[f as int] && (forall|e1: int| 0 <= e1 < f ==> !c[e1])
                && (!many ==> forall|e1: int| f < e1 < e ==> !c[e1]),
            many ==> (first matches Some(f) && exists|e2: int| f < e2 < e && c[e2]),
        decreases 9 - e,
    {
        if c[e] {
            if first.is_none() {
                first = Some(e);
            } else {
                many = true;
            }
        }
        e = e + 1;
    }
    let ghost s = digits_of(*c);
    match first {
        Some(f) => {
            if !many {
                proof {
                    assert(s =~= set![f as int + 1]);
                }
                Some((f + 1) as u8)
            } else {
                proof {
                    let e2 = choose|e2: int| f < e2 < 9 && c[e2];
                    assert(s.contains(f as int + 1));
                    assert(s.contains(e2 + 1));
                    if is_naked(CellView::Open(s)) {
                        let d = choose|d: int| naked_with(CellView::Open(s), d);
                        assert(set![d].contains(f as int + 1));
                        assert(set![d].contains(e2 + 1));
                    }
                }
                None
            }
        },
        None => {
            proof {
                if is_naked(CellView::Open(s)) {
                    let d = choose|d: int| naked_with(CellView::Open(s), d);
                    assert(set![d].contains(d));
                }
            }
            None
        },
    }
}

fn naked_message_text(d: u8, r: usize, c: usize) -> (m: String)
    requires
        r < 9,
        c < 9,
    ensures
        m@ == naked_message(d as int, r as int, c as int),
{
    let mut m = String::from_str("Found naked single for ");
    push_number(&mut m, d as usize);
    m.append(" at r");
    push_number(&mut m, r + 1);
    m.append("c");
    push_number(&mut m, c + 1);
    m.append("!");
    m
}

impl Grid {
    /// The first open cell, in row-major order, with exactly one candidate
    /// left, and that candidate.
    pub fn find_naked_single(&self) -> (r: Option<SolutionStep>)
        ensures
            opt_view(r) == naked_single(self@),
    {
        let g = self.get_grid();
        let ghost b = self@;
        let mut t: usize = 0;
        while t < 81
            invariant
                t <= 81,
                b == self@,
                is_board(b),
                forall|x: int, y: int| 0 <= x < 9 && 0 <= y < 9 ==> #[trigger] g[x][y]@ == b[x][y],
                forall|v: int| 0 <= v < t ==> !is_naked(#[trigger] flat(b, v)),
            decreases 81 - t,
        {
            let i = t / 9;
            let j = t % 9;
            if let Cell::Candidates(c) = &g[i][j] {
                if let Some(d) = sole_candidate(c) {
                    proof {
                        assert(g[i as int][j as int]@ == b[i as int][j as int]);
                        assert(naked_with(b[i as int][j as int], d as int));
                        assert(is_naked(flat(b, t as int)));
                        lemma_naked_skip(b, 0, t as nat);
                        assert(naked_from(b, t as nat) == Some(t as nat));
                        let dd = sole_digit(b[i as int][j as int]);
                        assert(naked_with(b[i as int][j as int], dd));
                        assert(set![dd].contains(dd));
                        assert(set![d as int].contains(dd));
                    }
                    let message = naked_message_text(d, i, j);
                    let step = SolutionStep { position: (i, j), digit: d, message };
                    proof {
                        let sv = naked_step(b, t as nat);
                        assert(sv.row == i && sv.col == j);
                        assert(sv.digit == d);
                        assert(step@ == sv);
                        assert(naked_from(b, 0) == Some(t as nat));
                        assert(naked_single(b) == Some(sv));
                        assert(opt_view(Some(step)) == Some(sv));
                    }
                    return Some(step);
                }
            }
            proof {
                assert(flat(b, t as int) == g[i as int][j as int]@);
            }
            t = t + 1;
        }
        proof {
            lemma_naked_skip(b, 0, 81);
        }
        None
    }
}


/// What counting the places of a unit that can take `d` has established
/// after its first `k` places: `cnt` of them can, the last of which is
/// `last`.
spec fn count_ok(b: Board, kind: int, i: int, d: int, k: int, cnt: int, last: int) -> bool {
    &&& 0 <= cnt <= k
    &&& cnt == 0 ==> forall|k1: int| 0 <= k1 < k ==> !#[trigger] holds(b, kind, i, k1, d)
    &&& cnt >= 1 ==> 0 <= last < k && holds(b, kind, i, last, d)
    &&& cnt == 1 ==> forall|k1: int| 0 <= k1 < k && k1 != last ==> !#[trigger] holds(b, kind, i, k1, d)
    &&& cnt >= 2 ==> exists|k1: int| 0 <= k1 < k && k1 != last && #[trigger] holds(b, kind, i, k1, d)
}

proof fn lemma_count_decides(b: Board, kind: int, i: int, d: int, cnt: int, last: int)
    requires
        count_ok(b, kind, i, d, 9, cnt, last),
    ensures
        (cnt == 1) == hidden_in(b, kind, i, d),
        cnt == 1 ==> only_at(b, kind, i, d, last),
{
    if hidden_in(b, kind, i, d) {
        let k = choose|k: int| only_at(b, kind, i, d, k);
        if cnt == 0 {
            assert(holds(b, kind, i, k, d));
        } else if cnt >= 2 {
            let k1 = choose|k1: int| 0 <= k1 < 9 && k1 != last && #[trigger] holds(b, kind, i, k1, d);
            assert(holds(b, kind, i, last, d));
        }
    }
    if cnt == 1 {
        assert(only_at(b, kind, i, d, last));
    }
}

proof fn lemma_search_decode(i: int, kind: int, e: int)
    requires
        0 <= i < 9,
        0 <= kind < 3,
        0 <= e < 9,
    ensures
        search_index(i * 27 + kind * 9 + e) == i,
        search_kind(i * 27 + kind * 9 + e) == kind,
        search_digit(i * 27 + kind * 9 + e) == e + 1,
{
    let t = i * 27 + kind * 9 + e;
    assert(t / 27 == i) by (nonlinear_arith)
        requires t == i * 27 + kind * 9 + e, 0 <= kind * 9 + e < 27, 0 <= i;
    assert(t % 27 == kind * 9 + e) by (nonlinear_arith)
        requires t == i * 27 + kind * 9 + e, 0 <= kind * 9 + e < 27, 0 <= i;
    assert((kind * 9 + e) / 9 == kind) by (nonlinear_arith)
        requires 0 <= e < 9, 0 <= kind;
    assert(t % 9 == e) by (nonlinear_arith)
        requires t == i * 27 + kind * 9 + e, 0 <= e < 9, 0 <= i, 0 <= kind;
}

/// The first digit whose count is exactly one, with the place recorded for
/// it.
fn find_single(cnt: &[u8; 9], last: &[usize; 9]) -> (r: Option<(usize, usize)>)
    ensures
        match r {
            Some((d, k)) => 1 <= d <= 9 && cnt[d - 1] == 1 && k == last[d - 1]
                && forall|e: int| 0 <= e < d - 1 ==> cnt[e] != 1,
            None => forall|e: int| 0 <= e < 9 ==> cnt[e] != 1,
        },
{
    let mut e: usize = 0;
    while e < 9
        invariant
            e <= 9,
            forall|e1: int| 0 <= e1 < e ==> cnt[e1] != 1,
        decreases 9 - e,
    {
        if cnt[e] == 1 {
            return Some((e + 1, last[e]));
        }
        e = e + 1;
    }
    None
}

fn hidden_message_text(kind: usize, i: usize, d: usize, k: usize, x: usize, y: usize) -> (m: String)
    requires
        kind < 3,
        i < 9,
        k < 9,
        x < 9,
        y < 9,
        (x as int, y as int) == unit_square(kind as int, i as int, k as int),
    ensures
        m@ == hidden_message(kind as int, i as int, d as int, k as int),
{
    let mut m = String::from_str("Found hidden single for ");
    push_number(&mut m, d);
    if kind == 0 {
        m.append(" in box ");
        push_number(&mut m, i + 1);
        m.append(" at position r");
        push_number(&mut m, x + 1);
        m.append("c");
        push_number(&mut m, y + 1);
    } else if kind == 1 {
        m.append(" in r");
        push_number(&mut m, i + 1);
        m.append(" at c");
        push_number(&mut m, k + 1);
    } else {
        m.append(" in c");
        push_number(&mut m, i + 1);
        m.append(" at r");
        push_number(&mut m, k + 1);
    }
    m
}

impl Grid {
    /// The square at place `k` of unit `i` of the given kind.
    fn unit_coords(kind: usize, i: usize, k: usize) -> (r: (usize, usize))
        requires
            kind < 3,
            i < 9,
            k < 9,
        ensures
            (r.0 as int, r.1 as int) == unit_square(kind as int, i as int, k as int),
            in_grid(r.0 as int, r.1 as int),
    {
        if kind == 0 {
            Self::get_coords_in_box(i, k)
        } else if kind == 1 {
            (i, k)
        } else {
            (k, i)
        }
    }

    /// For each digit, how many places of the unit can take it, and the
    /// last such place.
    fn count_unit(&self, kind: usize, i: usize) -> (r: ([u8; 9], [usize; 9]))
        requires
            kind < 3,
            i < 9,
        ensures
            forall|e: int| 0 <= e < 9 ==> #[trigger] count_ok(self@, kind as int, i as int, e + 1, 9, r.0[e] as int, r.1[e] as int),
    {
        let g = self.get_grid();
        let ghost b = self@;
        let mut cnt: [u8; 9] = [0; 9];
        let mut last: [usize; 9] = [0; 9];
        let mut k: usize = 0;
        while k < 9
            invariant
                k <= 9,
                kind < 3,
                i < 9,
                b == self@,
                is_board(b),
                forall|x: int, y: int| 0 <= x < 9 && 0 <= y < 9 ==> #[trigger] g[x][y]@ == b[x][y],
                forall|e: int| 0 <= e < 9 ==> #[trigger] count_ok(b, kind as int, i as int, e + 1, k as int, cnt[e] as int, last[e] as int),
            decreases 9 - k,
        {
            let (x, y) = Self::unit_coords(kind, i, k);
            let cell = &g[x][y];
            match cell {
                Cell::Candidates(c) => {
                    proof {
                        assert(g[x as int][y as int]@ == b[x as int][y as int]);
                        assert forall|e1: int| 0 <= e1 < 9 implies #[trigger] holds(b, kind as int, i as int, k as int, e1 + 1) == c[e1] by {
                            assert(digits_of(*c).contains(e1 + 1) == c[e1]);
                        }
                    }
                    let ghost cnt0 = cnt;
                    let ghost last0 = last;
                    let mut e: usize = 0;
                    while e < 9
                        invariant
                            e <= 9,
                            k < 9,
                            forall|e1: int| 0 <= e1 < 9 ==> #[trigger] holds(b, kind as int, i as int, k as int, e1 + 1) == c[e1],
                            forall|e1: int| 0 <= e1 < 9 ==> #[trigger] count_ok(b, kind as int, i as int, e1 + 1, k as int, cnt0[e1] as int, last0[e1] as int),
                            forall|e1: int| e <= e1 < 9 ==> cnt[e1] == cnt0[e1] && last[e1] == last0[e1],
                            forall|e1: int| 0 <= e1 < e ==> #[trigger] count_ok(b, kind as int, i as int, e1 + 1, k + 1, cnt[e1] as int, last[e1] as int),
                        decreases 9 - e,
                    {
                        proof {
                            assert(count_ok(b, kind as int, i as int, e + 1, k as int, cnt0[e as int] as int, last0[e as int] as int));
                        }
                        if c[e] {
                            cnt[e] = cnt[e] + 1;
                            last[e] = k;
                        }
                        proof {
                            let ee = e as int;
                            assert(count_ok(b, kind as int, i as int, ee + 1, k + 1, cnt[ee] as int, last[ee] as int));
                        }
                        e = e + 1;
                    }
                },
                Cell::Solved(_) => {
                    proof {
                        assert(g[x as int][y as int]@ == b[x as int][y as int]);
                        assert forall|e: int| 0 <= e < 9 implies #[trigger] count_ok(b, kind as int, i as int, e + 1, k + 1, cnt[e] as int, last[e] as int) by {
                            assert(!holds(b, kind as int, i as int, k as int, e + 1));
                            assert(count_ok(b, kind as int, i as int, e + 1, k as int, cnt[e] as int, last[e] as int));
                        }
                    }
                },
            }
            k = k + 1;
        }
        (cnt, last)
    }

    /// The first hidden single that the search meets: units by ascending
    /// index, for each index its box, its row, then its column, and in each
    /// unit the digits in ascending order.
    pub fn find_hidden_single(&self) -> (r: Option<SolutionStep>)
        ensures
            opt_view(r) == hidden_single(self@),
    {
        let ghost b = self@;
        proof {
            self.lemma_shape();
        }
        let mut i: usize = 0;
        while i < 9
            invariant
                i <= 9,
                b == self@,
                is_board(b),
                forall|v: int| 0 <= v < i * 27 ==> !#[trigger] hidden_at(b, v),
            decreases 9 - i,
        {
            let mut kind: usize = 0;
            while kind < 3
                invariant
                    i < 9,
                    kind <= 3,
                    b == self@,
                    is_board(b),
                    forall|v: int| 0 <= v < i * 27 + kind * 9 ==> !#[trigger] hidden_at(b, v),
                decreases 3 - kind,
            {
                let (cnt, last) = self.count_unit(kind, i);
                let found = find_single(&cnt, &last);
                if let Some((d, k)) = found {
                    proof {
                        let e = d - 1;
                        assert(count_ok(b, kind as int, i as int, e + 1, 9, cnt[e] as int, last[e] as int));
                    }
                    let (x, y) = Self::unit_coords(kind, i, k);
                    let message = hidden_message_text(kind, i, d, k, x, y);
                    let step = SolutionStep { position: (x, y), digit: d as u8, message };
                    proof {
                        let t = i * 27 + kind * 9 + (d - 1);
                        assert forall|v: int| 0 <= v < t implies !#[trigger] hidden_at(b, v) by {
                            if v >= i * 27 + kind * 9 {
                                let e = v - (i * 27 + kind * 9);
                                lemma_search_decode(i as int, kind as int, e);
                                lemma_count_decides(b, kind as int, i as int, e + 1, cnt[e] as int, last[e] as int);
                            }
                        }
                        lemma_search_decode(i as int, kind as int, d - 1);
                        lemma_count_decides(b, kind as int, i as int, d as int, cnt[d - 1] as int, last[d - 1] as int);
                        assert(hidden_at(b, t));
                        lemma_hidden_skip(b, 0, t as nat);
                        assert(hidden_from(b, 0) == Some(t as nat));
                        let kk = choose|kk: int| only_at(b, kind as int, i as int, d as int, kk);
                        assert(only_at(b, kind as int, i as int, d as int, kk));
                        assert(kk == k);
                        assert(step@ == hidden_step(b, t as nat));
                    }
                    return Some(step);
                }
                proof {
                    assert forall|v: int| 0 <= v < i * 27 + (kind + 1) * 9 implies !#[trigger] hidden_at(b, v) by {
                        if v >= i * 27 + kind * 9 {
                            let e = v - (i * 27 + kind * 9);
                            lemma_search_decode(i as int, kind as int, e);
                            lemma_count_decides(b, kind as int, i as int, e + 1, cnt[e] as int, last[e] as int);
                        }
                    }
                }
                kind = kind + 1;
            }
            i = i + 1;
        }
        proof {
            lemma_hidden_skip(b, 0, 243);
        }
        None
    }
}

} // verus!
