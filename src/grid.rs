use vstd::prelude::*;
use crate::cell::{Cell, CellView, all_digits, digits_of};

verus! {

/// A board model: nine rows of nine cells, indexed `[row][column]`.
pub type Board = Seq<Seq<CellView>>;

/// `(r, c)` is a square of the board.
pub open spec fn in_grid(r: int, c: int) -> bool {
    0 <= r < 9 && 0 <= c < 9
}

/// Nine rows of nine cells.
pub open spec fn is_board(b: Board) -> bool {
    b.len() == 9 && forall|r: int| 0 <= r < 9 ==> #[trigger] b[r].len() == 9
}

pub open spec fn same_box(r1: int, c1: int, r2: int, c2: int) -> bool {
    r1 / 3 == r2 / 3 && c1 / 3 == c2 / 3
}

/// Two squares see each other: same row, same column or same box (a square
/// counts as its own peer).
pub open spec fn is_peer(r1: int, c1: int, r2: int, c2: int) -> bool {
    r1 == r2 || c1 == c2 || same_box(r1, c1, r2, c2)
}

/// A cell with `d` crossed out of its candidates; a solved cell is unchanged.
pub open spec fn strip(cell: CellView, d: int) -> CellView {
    match cell {
        CellView::Solved(e) => CellView::Solved(e),
        CellView::Open(s) => CellView::Open(s.remove(d)),
    }
}

/// The board with `d` crossed out of every peer of `(r, c)`.
pub open spec fn removed(b: Board, r: int, c: int, d: int) -> Board {
    Seq::new(9, |x: int| Seq::new(9, |y: int|
        if is_peer(r, c, x, y) { strip(b[x][y], d) } else { b[x][y] }))
}

/// The board with `(r, c)` solved as `d` and `d` crossed out of its peers.
pub open spec fn placed(b: Board, r: int, c: int, d: int) -> Board {
    removed(b.update(r, b[r].update(c, CellView::Solved(d))), r, c, d)
}

/// No open cell keeps, as a candidate, a digit that one of its peers is
/// solved with.
pub open spec fn consistent(b: Board) -> bool {
    forall|r1: int, c1: int, r2: int, c2: int|
        #![trigger b[r1][c1], b[r2][c2]]
        in_grid(r1, c1) && in_grid(r2, c2) && is_peer(r1, c1, r2, c2) && b[r1][c1] is Open
            && b[r2][c2] is Solved ==> !b[r1][c1]->Open_0.contains(b[r2][c2]->Solved_0)
}

/// The board where every cell is open to every digit.
pub open spec fn empty_board() -> Board {
    Seq::new(9, |x: int| Seq::new(9, |y: int| CellView::Open(all_digits())))
}

pub proof fn lemma_strip_idempotent(cell: CellView, d: int)
    ensures
        strip(strip(cell, d), d) == strip(cell, d),
{
    if let CellView::Open(s) = cell {
        assert(s.remove(d).remove(d) =~= s.remove(d));
    }
}

/// Crossing a digit out of the peers of a square twice in a row leaves the
/// board as crossing it out once.
pub proof fn lemma_remove_candidates_idempotent(b: Board, r: int, c: int, d: int)
    ensures
        removed(removed(b, r, c, d), r, c, d) == removed(b, r, c, d),
{
    let once = removed(b, r, c, d);
    let twice = removed(once, r, c, d);
    assert forall|x: int, y: int| 0 <= x < 9 && 0 <= y < 9 implies #[trigger] twice[x][y]
        == once[x][y] by {
        lemma_strip_idempotent(b[x][y], d);
    }
    assert(twice =~~= once);
}

/// Placing a digit keeps the board consistent, whatever the digit and the
/// square: the square's peers lose that digit, and no other candidate set
/// grows.
pub proof fn lemma_place_keeps_consistent(b: Board, r: int, c: int, d: int)
    requires
        is_board(b),
        in_grid(r, c),
        consistent(b),
    ensures
        consistent(placed(b, r, c, d)),
{
    let p = placed(b, r, c, d);
    let u = b.update(r, b[r].update(c, CellView::Solved(d)));
    assert forall|r1: int, c1: int, r2: int, c2: int|
        in_grid(r1, c1) && in_grid(r2, c2) && is_peer(r1, c1, r2, c2) && #[trigger] p[r1][c1] is Open
            && #[trigger] p[r2][c2] is Solved implies !p[r1][c1]->Open_0.contains(
        p[r2][c2]->Solved_0,
    ) by {
        assert(u[r1][c1] is Open);
        if r2 == r && c2 == c {
            assert(is_peer(r, c, r1, c1));
        } else {
            assert(b[r2][c2] == u[r2][c2]);
            assert(b[r1][c1] == u[r1][c1]);
        }
    }
}

/// A 9×9 board of cells, with a flag that tells a renderer whether to
/// decorate its output.
pub struct Grid {
    grid: [[Cell; 9]; 9],
    printtty: bool,
}

impl View for Grid {
    type V = Board;

    closed spec fn view(&self) -> Board {
        Seq::new(9, |x: int| Seq::new(9, |y: int| self.grid[x][y]@))
    }
}

impl Default for Grid {
    fn default() -> (r: Grid)
        ensures
            r@ == empty_board(),
            !r.tty(),
    {
        let r = Grid { grid: [[Cell::Candidates([true; 9]); 9]; 9], printtty: false };
        proof {
            assert forall|x: int, y: int| 0 <= x < 9 && 0 <= y < 9 implies #[trigger] r@[x][y]
                == empty_board()[x][y] by {
                assert(digits_of(r.grid[x][y]->Candidates_0) =~= all_digits());
            }
            assert(r@ =~~= empty_board());
        }
        r
    }
}

impl Grid {
    /// Whether a renderer should decorate this grid.
    pub closed spec fn tty(&self) -> bool {
        self.printtty
    }

    /// A grid's model is always nine rows of nine cells.
    pub proof fn lemma_shape(&self)
        ensures
            is_board(self@),
    {
    }

    /// Sets the decoration flag.
    pub fn settty(&mut self, bool: bool)
        ensures
            final(self)@ == old(self)@,
            final(self).tty() == bool,
    {
        self.printtty = bool;
    }

    /// The decoration flag.
    pub fn printtty(&self) -> (r: bool)
        ensures
            r == self.tty(),
    {
        self.printtty
    }

    /// Read access to the cells, `[row][column]`.
    pub fn get_grid(&self) -> (r: &[[Cell; 9]; 9])
        ensures
            is_board(self@),
            forall|x: int, y: int| 0 <= x < 9 && 0 <= y < 9 ==> #[trigger] r[x][y]@ == self@[x][y],
    {
        &self.grid
    }

    /// The square at `index` (0..9, column by column) of box `box_num` (0..9,
    /// row by row).
    pub fn get_coords_in_box(box_num: usize, index: usize) -> (r: (usize, usize))
        requires
            box_num < 9,
            index < 9,
        ensures
            (r.0 as int, r.1 as int) == box_coords(box_num as int, index as int),
            in_grid(r.0 as int, r.1 as int),
    {
        let x = (box_num / 3) * 3 + index % 3;
        let y = (box_num % 3) * 3 + index / 3;
        (x, y)
    }

    /// Solves `position` as `digit` and crosses `digit` out of its peers. The
    /// digit is not checked against the peers: that is the caller's affair.
    pub fn place_digit(&mut self, position: (usize, usize), digit: u8)
        requires
            in_grid(position.0 as int, position.1 as int),
            1 <= digit <= 9,
        ensures
            final(self)@ == placed(old(self)@, position.0 as int, position.1 as int, digit as int),
            consistent(old(self)@) ==> consistent(final(self)@),
            final(self).tty() == old(self).tty(),
    {
        proof {
            if consistent(old(self)@) {
                lemma_place_keeps_consistent(old(self)@, position.0 as int, position.1 as int, digit as int);
            }
        }
        self.set_solved(position, digit);
        self.remove_candidates(position, digit);
    }

    /// Solves `position` as `digit`, leaving every other cell as it is.
    pub(crate) fn set_solved(&mut self, position: (usize, usize), digit: u8)
        requires
            in_grid(position.0 as int, position.1 as int),
        ensures
            final(self)@ == old(self)@.update(
                position.0 as int,
                old(self)@[position.0 as int].update(position.1 as int, CellView::Solved(digit as int)),
            ),
            final(self).tty() == old(self).tty(),
    {
        let (i, j) = position;
        self.grid[i][j] = Cell::Solved(digit);
        proof {
            let b = old(self)@;
            assert(self@ =~~= b.update(i as int, b[i as int].update(j as int, CellView::Solved(digit as int))));
        }
    }

    /// Crosses `digit` out of the candidates of the cell at `position`.
    fn remove_candidate_from(&mut self, position: (usize, usize), digit: u8)
        requires
            in_grid(position.0 as int, position.1 as int),
            1 <= digit <= 9,
        ensures
            final(self)@ == old(self)@.update(
                position.0 as int,
                old(self)@[position.0 as int].update(
                    position.1 as int,
                    strip(old(self)@[position.0 as int][position.1 as int], digit as int),
                ),
            ),
            final(self).tty() == old(self).tty(),
    {
        let (x, y) = position;
        let cell = self.grid[x][y];
        match cell {
            Cell::Candidates(c) => {
                let mut c2 = c;
                c2[(digit - 1) as usize] = false;
                self.grid[x][y] = Cell::Candidates(c2);
                proof {
                    assert(digits_of(c2) =~= digits_of(c).remove(digit as int));
                }
            },
            Cell::Solved(_) => {},
        }
        proof {
            let b = old(self)@;
            assert(self@ =~~= b.update(x as int, b[x as int].update(y as int, strip(b[x as int][y as int], digit as int))));
        }
    }

    /// Crosses `digit` out of the candidates of every peer of `position`.
    #[verifier::rlimit(30)]
    pub fn remove_candidates(&mut self, position: (usize, usize), digit: u8)
        requires
            in_grid(position.0 as int, position.1 as int),
            1 <= digit <= 9,
        ensures
            final(self)@ == removed(old(self)@, position.0 as int, position.1 as int, digit as int),
            final(self).tty() == old(self).tty(),
    {
        let (i, j) = position;
        let ghost orig = self@;
        let ghost d = digit as int;
        let mut k: usize = 0;
        while k < 9
            invariant
                0 <= k <= 9,
                i < 9,
                j < 9,
                1 <= digit <= 9,
                d == digit as int,
                self.tty() == old(self).tty(),
                forall|x: int, y: int|
                    in_grid(x, y) ==> #[trigger] self@[x][y] == if touched(i as int, j as int, k as int, x, y) {
                        strip(orig[x][y], d)
                    } else {
                        orig[x][y]
                    },
            decreases 9 - k,
        {
            self.remove_candidate_from((i, k), digit);
            self.remove_candidate_from((k, j), digit);
            let x = (i / 3) * 3 + k % 3;
            let y = (j / 3) * 3 + k / 3;
            self.remove_candidate_from((x, y), digit);
            proof {
                assert(same_box(i as int, j as int, x as int, y as int));
                assert(x as int % 3 + 3 * (y as int % 3) == k);
                assert forall|x1: int, y1: int| in_grid(x1, y1) implies #[trigger] self@[x1][y1]
                    == if touched(i as int, j as int, k + 1, x1, y1) {
                        strip(orig[x1][y1], d)
                    } else {
                        orig[x1][y1]
                    } by {
                    lemma_strip_idempotent(orig[x1][y1], d);
                }
            }
            k = k + 1;
        }
        proof {
            assert forall|x1: int, y1: int| in_grid(x1, y1) implies #[trigger] self@[x1][y1]
                == removed(orig, i as int, j as int, d)[x1][y1] by {
                if same_box(i as int, j as int, x1, y1) {
                    assert(x1 % 3 + 3 * (y1 % 3) < 9);
                }
            }
            assert(self@ =~~= removed(orig, i as int, j as int, d));
        }
    }
}

/// The digit of a solved cell, or `None` for an open one.
pub open spec fn solved_byte(cell: CellView) -> Option<u8> {
    match cell {
        CellView::Solved(d) => Some(d as u8),
        CellView::Open(_) => None,
    }
}

/// The grid as rows of solved digits, `None` where a square is open.
pub fn grid_to_optional(grid: &Grid) -> (r: Vec<Vec<Option<u8>>>)
    ensures
        r@.len() == 9,
        forall|x: int| 0 <= x < 9 ==> #[trigger] r@[x]@.len() == 9,
        forall|x: int, y: int| in_grid(x, y) ==> #[trigger] r@[x]@[y] == solved_byte(grid@[x][y]),
{
    let cells = grid.get_grid();
    let mut rows: Vec<Vec<Option<u8>>> = Vec::new();
    let mut x: usize = 0;
    while x < 9
        invariant
            x <= 9,
            rows@.len() == x,
            forall|x1: int| 0 <= x1 < x ==> #[trigger] rows@[x1]@.len() == 9,
            forall|x1: int, y: int| 0 <= x1 < x && 0 <= y < 9 ==> #[trigger] rows@[x1]@[y] == solved_byte(grid@[x1][y]),
            forall|x1: int, y: int| 0 <= x1 < 9 && 0 <= y < 9 ==> #[trigger] cells[x1][y]@ == grid@[x1][y],
        decreases 9 - x,
    {
        let mut row: Vec<Option<u8>> = Vec::new();
        let mut y: usize = 0;
        while y < 9
            invariant
                x < 9,
                y <= 9,
                row@.len() == y,
                forall|y1: int| 0 <= y1 < y ==> #[trigger] row@[y1] == solved_byte(grid@[x as int][y1]),
                forall|x1: int, y1: int| 0 <= x1 < 9 && 0 <= y1 < 9 ==> #[trigger] cells[x1][y1]@ == grid@[x1][y1],
            decreases 9 - y,
        {
            let v = match cells[x][y] {
                Cell::Solved(d) => Some(d),
                Cell::Candidates(_) => None,
            };
            proof {
                assert(cells[x as int][y as int]@ == grid@[x as int][y as int]);
            }
            row.push(v);
            y = y + 1;
        }
        rows.push(row);
        x = x + 1;
    }
    rows
}

/// The square at `index` of box `b`: boxes are numbered row by row, and the
/// squares of a box column by column.
pub open spec fn box_coords(b: int, index: int) -> (int, int) {
    ((b / 3) * 3 + index % 3, (b % 3) * 3 + index / 3)
}

/// The squares that the first `k` rounds of crossing out around `(i, j)` reach.
spec fn touched(i: int, j: int, k: int, x: int, y: int) -> bool {
    (x == i && y < k) || (y == j && x < k) || (same_box(i, j, x, y) && x % 3 + 3 * (y % 3) < k)
}

} // verus!
