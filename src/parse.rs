use vstd::prelude::*;
use vstd::string::StrSliceExecFns;
use crate::cell::{CellView, all_digits};
use crate::deduce::{StepView, step_of};
use crate::grid::{Board, Grid, consistent, empty_board, in_grid, is_board, is_peer};
use crate::solve::{lemma_solved_board_is_done, trace};

verus! {

/// Why a text is not a board.
#[derive(Debug, PartialEq, Eq, Structural)]
pub enum ParseError {
    /// The text does not have exactly nine lines besides the separator lines.
    BadLength,
    /// A line does not have exactly nine characters once `|` is taken out.
    BadWidth,
}

/// The text cut at each `'\n'`: one more line than there are newlines.
pub open spec fn split_lines(s: Seq<char>) -> Seq<Seq<char>>
    decreases s.len(),
{
    if s.len() == 0 {
        seq![Seq::empty()]
    } else {
        let prev = split_lines(s.drop_last());
        if s.last() == '\n' {
            prev.push(Seq::empty())
        } else {
            prev.update(prev.len() - 1, prev.last().push(s.last()))
        }
    }
}

/// The characters of a line other than `'|'`, in order.
pub open spec fn without_pipes(l: Seq<char>) -> Seq<char>
    decreases l.len(),
{
    if l.len() == 0 {
        l
    } else if l.last() == '|' {
        without_pipes(l.drop_last())
    } else {
        without_pipes(l.drop_last()).push(l.last())
    }
}

/// The lines that carry cells: those without a `'-'`, with `'|'` taken out.
pub open spec fn clean_lines(ls: Seq<Seq<char>>) -> Seq<Seq<char>>
    decreases ls.len(),
{
    if ls.len() == 0 {
        Seq::empty()
    } else if ls.last().contains('-') {
        clean_lines(ls.drop_last())
    } else {
        clean_lines(ls.drop_last()).push(without_pipes(ls.last()))
    }
}

/// The clean lines of a text.
pub open spec fn cleaned(s: Seq<char>) -> Seq<Seq<char>> {
    clean_lines(split_lines(s))
}

/// The digit that a character gives, 1 to 9, or 0 for an open cell.
pub open spec fn given_digit(ch: char) -> int {
    if ch == '1' { 1 }
    else if ch == '2' { 2 }
    else if ch == '3' { 3 }
    else if ch == '4' { 4 }
    else if ch == '5' { 5 }
    else if ch == '6' { 6 }
    else if ch == '7' { 7 }
    else if ch == '8' { 8 }
    else if ch == '9' { 9 }
    else { 0 }
}

/// The digit given at `(r, c)`, or 0.
pub open spec fn given_at(lines: Seq<Seq<char>>, r: int, c: int) -> int {
    given_digit(lines[r][c])
}

/// The digits given at the peers of `(x, y)`.
pub open spec fn peer_givens(lines: Seq<Seq<char>>, x: int, y: int) -> Set<int> {
    Set::new(|d: int| 1 <= d <= 9 && exists|x2: int, y2: int| in_grid(x2, y2) && is_peer(x2, y2, x, y)
        && #[trigger] given_at(lines, x2, y2) == d)
}

/// The board that nine lines of nine characters describe: each given square
/// solved, every other square open to the digits that no peer is given as.
pub open spec fn parsed_board(lines: Seq<Seq<char>>) -> Board {
    Seq::new(9, |x: int| Seq::new(9, |y: int|
        if given_at(lines, x, y) != 0 {
            CellView::Solved(given_at(lines, x, y))
        } else {
            CellView::Open(all_digits().difference(peer_givens(lines, x, y)))
        }))
}

/// `(x, y)` comes before `(r, c)` in row-major order.
spec fn before(x: int, y: int, r: int, c: int) -> bool {
    x < r || (x == r && y < c)
}

/// The digits given at the peers of `(x, y)` that come before `(r, c)`.
spec fn seen_givens(lines: Seq<Seq<char>>, x: int, y: int, r: int, c: int) -> Set<int> {
    Set::new(|d: int| 1 <= d <= 9 && exists|x2: int, y2: int| in_grid(x2, y2) && before(x2, y2, r, c)
        && is_peer(x2, y2, x, y) && #[trigger] given_at(lines, x2, y2) == d)
}

/// The board once the givens before `(r, c)` are solved.
spec fn givens_placed(lines: Seq<Seq<char>>, r: int, c: int) -> Board {
    Seq::new(9, |x: int| Seq::new(9, |y: int|
        if given_at(lines, x, y) != 0 && before(x, y, r, c) {
            CellView::Solved(given_at(lines, x, y))
        } else {
            CellView::Open(all_digits())
        }))
}

/// The board once every given is solved and those before `(r, c)` are
/// crossed out of their peers.
spec fn givens_pruned(lines: Seq<Seq<char>>, r: int, c: int) -> Board {
    Seq::new(9, |x: int| Seq::new(9, |y: int|
        if given_at(lines, x, y) != 0 {
            CellView::Solved(given_at(lines, x, y))
        } else {
            CellView::Open(all_digits().difference(seen_givens(lines, x, y, r, c)))
        }))
}

fn char_digit(ch: char) -> (r: u8)
    ensures
        r == given_digit(ch),
{
    match ch {
        '1' => 1,
        '2' => 2,
        '3' => 3,
        '4' => 4,
        '5' => 5,
        '6' => 6,
        '7' => 7,
        '8' => 8,
        '9' => 9,
        _ => 0,
    }
}

fn has_dash(l: &Vec<char>) -> (r: bool)
    ensures
        r == l@.contains('-'),
{
    let mut m: usize = 0;
    while m < l.len()
        invariant
            m <= l.len(),
            forall|k: int| 0 <= k < m ==> l@[k] != '-',
        decreases l.len() - m,
    {
        if l[m] == '-' {
            return true;
        }
        m = m + 1;
    }
    false
}

fn strip_pipes(l: &Vec<char>) -> (r: Vec<char>)
    ensures
        r@ == without_pipes(l@),
{
    let mut r: Vec<char> = Vec::new();
    let mut m: usize = 0;
    while m < l.len()
        invariant
            m <= l.len(),
            r@ == without_pipes(l@.take(m as int)),
        decreases l.len() - m,
    {
        proof {
            assert(l@.take(m + 1).drop_last() =~= l@.take(m as int));
        }
        if l[m] != '|' {
            r.push(l[m]);
        }
        m = m + 1;
    }
    proof {
        assert(l@.take(l.len() as int) =~= l@);
    }
    r
}

/// Adds a finished raw line to the clean lines, if it carries cells.
fn add_line(lines: &mut Vec<Vec<char>>, cur: &Vec<char>, Ghost(raw): Ghost<Seq<Seq<char>>>)
    requires
        old(lines)@.map_values(|l: Vec<char>| l@) == clean_lines(raw),
    ensures
        final(lines)@.map_values(|l: Vec<char>| l@) == clean_lines(raw.push(cur@)),
{
    proof {
        assert(raw.push(cur@).drop_last() =~= raw);
    }
    if !has_dash(cur) {
        let stripped = strip_pipes(cur);
        lines.push(stripped);
        proof {
            assert(lines@.map_values(|l: Vec<char>| l@) =~= clean_lines(raw).push(without_pipes(cur@)));
        }
    }
}

/// The clean lines of a text.
fn clean_text(content: &str) -> (r: Vec<Vec<char>>)
    ensures
        r@.map_values(|l: Vec<char>| l@) == cleaned(content@),
{
    let n = content.unicode_len();
    let ghost s = content@;
    let mut lines: Vec<Vec<char>> = Vec::new();
    let mut cur: Vec<char> = Vec::new();
    let mut i: usize = 0;
    while i < n
        invariant
            n == s.len(),
            s == content@,
            i <= n,
            split_lines(s.take(i as int)).len() >= 1,
            split_lines(s.take(i as int)).last() == cur@,
            lines@.map_values(|l: Vec<char>| l@) == clean_lines(split_lines(s.take(i as int)).drop_last()),
        decreases n - i,
    {
        let ch = content.get_char(i);
        let ghost prev = split_lines(s.take(i as int));
        proof {
            assert(s.take(i + 1).drop_last() =~= s.take(i as int));
        }
        if ch == '\n' {
            add_line(&mut lines, &cur, Ghost(prev.drop_last()));
            proof {
                assert(prev.drop_last().push(cur@) =~= prev);
                assert(split_lines(s.take(i + 1)).drop_last() =~= prev);
            }
            cur = Vec::new();
        } else {
            cur.push(ch);
            proof {
                assert(split_lines(s.take(i + 1)).drop_last() =~= prev.drop_last());
            }
        }
        i = i + 1;
    }
    let ghost all = split_lines(s);
    proof {
        assert(s.take(n as int) =~= s);
    }
    add_line(&mut lines, &cur, Ghost(all.drop_last()));
    proof {
        assert(all.drop_last().push(cur@) =~= all);
    }
    lines
}

proof fn lemma_parsed_consistent(lines: Seq<Seq<char>>)
    ensures
        is_board(parsed_board(lines)),
        consistent(parsed_board(lines)),
{
    let b = parsed_board(lines);
    assert forall|r1: int, c1: int, r2: int, c2: int|
        in_grid(r1, c1) && in_grid(r2, c2) && is_peer(r1, c1, r2, c2) && #[trigger] b[r1][c1] is Open
            && #[trigger] b[r2][c2] is Solved implies !b[r1][c1]->Open_0.contains(b[r2][c2]->Solved_0) by {
        let d = given_at(lines, r2, c2);
        assert(is_peer(r2, c2, r1, c1));
        assert(peer_givens(lines, r1, c1).contains(d));
    }
}

/// A text whose nine clean lines hold a digit from 1 to 9 in every place
/// reads as a board with no open square, and a solving pass over it yields
/// no step.
pub proof fn lemma_full_text_yields_nothing(s: Seq<char>)
    requires
        cleaned(s).len() == 9,
        forall|l: int| 0 <= l < 9 ==> #[trigger] cleaned(s)[l].len() == 9,
        forall|r: int, c: int| in_grid(r, c) ==> #[trigger] given_digit(cleaned(s)[r][c]) != 0,
    ensures
        step_of(parsed_board(cleaned(s))) is None,
        trace(parsed_board(cleaned(s))) == Seq::<StepView>::empty(),
{
    let b = parsed_board(cleaned(s));
    assert forall|r: int, c: int| in_grid(r, c) implies #[trigger] b[r][c] is Solved by {
        assert(given_digit(cleaned(s)[r][c]) != 0);
    }
    lemma_parsed_consistent(cleaned(s));
    lemma_solved_board_is_done(b);
}

impl Grid {
    /// Reads a board from text. Lines holding a `'-'` are separators and are
    /// skipped, and `'|'` characters are taken out of the others; what is left
    /// must be nine lines of nine characters. A character `'1'` to `'9'` is a
    /// given; any other leaves its square open. Each given is crossed out of
    /// the candidates of its peers.
    pub fn parse(content: &str) -> (r: Result<Grid, ParseError>)
        ensures
            match r {
                Ok(g) => {
                    &&& cleaned(content@).len() == 9
                    &&& forall|l: int| 0 <= l < 9 ==> #[trigger] cleaned(content@)[l].len() == 9
                    &&& g@ == parsed_board(cleaned(content@))
                    &&& consistent(g@)
                    &&& !g.tty()
                },
                Err(ParseError::BadLength) => cleaned(content@).len() != 9,
                Err(ParseError::BadWidth) => {
                    &&& cleaned(content@).len() == 9
                    &&& exists|l: int| 0 <= l < 9 && #[trigger] cleaned(content@)[l].len() != 9
                },
            },
    {
        let lines = clean_text(content);
        let ghost ls = cleaned(content@);
        proof {
            assert(lines@.len() == ls.len());
        }
        if lines.len() != 9 {
            return Err(ParseError::BadLength);
        }
        let mut l: usize = 0;
        while l < 9
            invariant
                l <= 9,
                lines@.len() == 9,
                ls == cleaned(content@),
                lines@.map_values(|v: Vec<char>| v@) == ls,
                forall|l1: int| 0 <= l1 < l ==> #[trigger] ls[l1].len() == 9,
            decreases 9 - l,
        {
            proof {
                assert(ls[l as int] == lines@[l as int]@);
            }
            if lines[l].len() != 9 {
                proof {
                    assert(ls[l as int].len() != 9);

                }
                return Err(ParseError::BadWidth);
            }
            l = l + 1;
        }
        let mut grid = Grid::default();
        proof {
            assert(empty_board() =~~= givens_placed(ls, 0, 0));
        }
        let mut r: usize = 0;
        while r < 9
            invariant
                r <= 9,
                lines@.len() == 9,
                ls == cleaned(content@),
                lines@.map_values(|v: Vec<char>| v@) == ls,
                forall|l1: int| 0 <= l1 < 9 ==> #[trigger] ls[l1].len() == 9,
                grid@ == givens_placed(ls, r as int, 0),
                !grid.tty(),
            decreases 9 - r,
        {
            let mut c: usize = 0;
            while c < 9
                invariant
                    r < 9,
                    c <= 9,
                    lines@.len() == 9,
                    ls == cleaned(content@),
                    lines@.map_values(|v: Vec<char>| v@) == ls,
                    forall|l1: int| 0 <= l1 < 9 ==> #[trigger] ls[l1].len() == 9,
                    grid@ == givens_placed(ls, r as int, c as int),
                    !grid.tty(),
                decreases 9 - c,
            {
                proof {
                    assert(ls[r as int] == lines@[r as int]@);
                    assert(ls[r as int].len() == 9);
                }
                let d = char_digit(lines[r][c]);
                if d != 0 {
                    grid.set_solved((r, c), d);
                }
                proof {
                    assert(grid@ =~~= givens_placed(ls, r as int, c + 1));
                }
                c = c + 1;
            }
            proof {
                assert(givens_placed(ls, r as int, 9) =~~= givens_placed(ls, r + 1, 0));
            }
            r = r + 1;
        }
        proof {
            assert forall|x: int, y: int| in_grid(x, y) implies #[trigger] givens_placed(ls, 9, 0)[x][y]
                == givens_pruned(ls, 0, 0)[x][y] by {
                assert(seen_givens(ls, x, y, 0, 0) =~= Set::empty());
                assert(all_digits().difference(Set::empty()) =~= all_digits());
            }
            assert(givens_placed(ls, 9, 0) =~~= givens_pruned(ls, 0, 0));
        }
        let mut r: usize = 0;
        while r < 9
            invariant
                r <= 9,
                lines@.len() == 9,
                ls == cleaned(content@),
                lines@.map_values(|v: Vec<char>| v@) == ls,
                forall|l1: int| 0 <= l1 < 9 ==> #[trigger] ls[l1].len() == 9,
                grid@ == givens_pruned(ls, r as int, 0),
                !grid.tty(),
            decreases 9 - r,
        {
            let mut c: usize = 0;
            while c < 9
                invariant
                    r < 9,
                    c <= 9,
                    lines@.len() == 9,
                    ls == cleaned(content@),
                    lines@.map_values(|v: Vec<char>| v@) == ls,
                    forall|l1: int| 0 <= l1 < 9 ==> #[trigger] ls[l1].len() == 9,
                    grid@ == givens_pruned(ls, r as int, c as int),
                    !grid.tty(),
                decreases 9 - c,
            {
                proof {
                    assert(ls[r as int] == lines@[r as int]@);
                    assert(ls[r as int].len() == 9);
                }
                let d = char_digit(lines[r][c]);
                let ghost old_board = grid@;
                if d != 0 {
                    grid.remove_candidates((r, c), d);
                }
                proof {
                    let dd = d as int;
                    assert(given_at(ls, r as int, c as int) == dd);
                    assert forall|x: int, y: int| in_grid(x, y) implies #[trigger] grid@[x][y]
                        == givens_pruned(ls, r as int, c + 1)[x][y] by {
                        if given_at(ls, x, y) == 0 {
                            let s0 = seen_givens(ls, x, y, r as int, c as int);
                            let s1 = seen_givens(ls, x, y, r as int, c + 1);
                            if d != 0 && is_peer(r as int, c as int, x, y) {
                                assert(s1 =~= s0.insert(dd));
                                assert(all_digits().difference(s0).remove(dd) =~= all_digits().difference(s1));
                            } else {
                                assert(s1 =~= s0);
                            }
                        }
                    }
                    assert(grid@ =~~= givens_pruned(ls, r as int, c + 1));
                }
                c = c + 1;
            }
            proof {
                assert forall|x: int, y: int| in_grid(x, y) implies #[trigger] givens_pruned(ls, r as int, 9)[x][y]
                    == givens_pruned(ls, r + 1, 0)[x][y] by {
                    assert(seen_givens(ls, x, y, r as int, 9) =~= seen_givens(ls, x, y, r + 1, 0));
                }
                assert(givens_pruned(ls, r as int, 9) =~~= givens_pruned(ls, r + 1, 0));
            }
            r = r + 1;
        }
        proof {
            assert forall|x: int, y: int| in_grid(x, y) implies #[trigger] givens_pruned(ls, 9, 0)[x][y]
                == parsed_board(ls)[x][y] by {
                assert(seen_givens(ls, x, y, 9, 0) =~= peer_givens(ls, x, y));
            }
            assert(grid@ =~~= parsed_board(ls));
            lemma_parsed_consistent(ls);
        }
        Ok(grid)
    }
}

} // verus!
