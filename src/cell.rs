use vstd::prelude::*;
use vstd::string::StringExecFns;

verus! {

/// The state of one square: a fixed digit, or the digits still possible
/// there (`candidates[d - 1]` holds when `d` is still possible).
#[derive(Clone, Copy)]
pub enum Cell {
    Solved(u8),
    Candidates([bool; 9]),
}

/// The mathematical model of a cell.
pub enum CellView {
    Solved(int),
    Open(Set<int>),
}

/// The digits, among 1..=9, that a candidate array marks as possible.
pub open spec fn digits_of(c: [bool; 9]) -> Set<int> {
    Set::new(|d: int| 1 <= d <= 9 && c[d - 1])
}

/// Every digit from 1 to 9.
pub open spec fn all_digits() -> Set<int> {
    Set::new(|d: int| 1 <= d <= 9)
}

impl View for Cell {
    type V = CellView;

    open spec fn view(&self) -> CellView {
        match *self {
            Cell::Solved(d) => CellView::Solved(d as int),
            Cell::Candidates(c) => CellView::Open(digits_of(c)),
        }
    }
}

/// One of the three text lines that a cell is drawn on.
pub enum CellPart {
    Top,
    Middle,
    Bottom,
}

/// The first candidate digit drawn on a line of a cell.
pub open spec fn part_start(part: CellPart) -> int {
    match part {
        CellPart::Top => 1,
        CellPart::Middle => 4,
        CellPart::Bottom => 7,
    }
}

/// The text of one line of a cell: a solved cell shows its digit centred on
/// the middle line and blanks elsewhere; an open cell shows, for each of its
/// three digits, the digit if it is still a candidate and a blank if not.
pub open spec fn part_text_spec(cell: CellView, part: CellPart) -> Seq<char> {
    match cell {
        CellView::Solved(d) => if part is Middle {
            seq![' '] + digit_seq(d) + seq![' ']
        } else {
            seq![' ', ' ', ' ']
        },
        CellView::Open(s) => Seq::new(3, |k: int| if s.contains(part_start(part) + k) {
            digit_char(part_start(part) + k)
        } else {
            ' '
        }),
    }
}

/// The decimal character of a digit from 0 to 9.
pub open spec fn digit_char(d: int) -> char {
    if d == 0 { '0' }
    else if d == 1 { '1' }
    else if d == 2 { '2' }
    else if d == 3 { '3' }
    else if d == 4 { '4' }
    else if d == 5 { '5' }
    else if d == 6 { '6' }
    else if d == 7 { '7' }
    else if d == 8 { '8' }
    else { '9' }
}

/// The decimal text of a number: one character below ten, and the number's
/// decimal representation in general.
pub open spec fn digit_seq(n: int) -> Seq<char>
    decreases n,
{
    if n < 10 {
        seq![digit_char(n)]
    } else {
        digit_seq(n / 10) + seq![digit_char(n % 10)]
    }
}

/// The decimal text of a digit from 0 to 9.
pub fn digit_text(d: u8) -> (r: &'static str)
    requires
        d <= 9,
    ensures
        r@ == seq![digit_char(d as int)],
{
    proof {
        reveal_strlit("0");
        reveal_strlit("1");
        reveal_strlit("2");
        reveal_strlit("3");
        reveal_strlit("4");
        reveal_strlit("5");
        reveal_strlit("6");
        reveal_strlit("7");
        reveal_strlit("8");
        reveal_strlit("9");
    }
    match d {
        0 => "0",
        1 => "1",
        2 => "2",
        3 => "3",
        4 => "4",
        5 => "5",
        6 => "6",
        7 => "7",
        8 => "8",
        _ => "9",
    }
}

/// Appends the decimal text of `n` to `s`.
pub fn push_number(s: &mut String, n: usize)
    ensures
        final(s)@ == old(s)@ + digit_seq(n as int),
    decreases n,
{
    if n >= 10 {
        push_number(s, n / 10);
    }
    s.append(digit_text((n % 10) as u8));
}

impl CellPart {
    /// The digits drawn on this line of a cell, as a half-open range.
    pub fn range(&self) -> (r: std::ops::Range<usize>)
        ensures
            r.start == part_start(*self),
            r.end == part_start(*self) + 3,
    {
        match self {
            CellPart::Top => 1..4,
            CellPart::Middle => 4..7,
            CellPart::Bottom => 7..10,
        }
    }
}

impl Cell {
    /// The text of one line of this cell, three characters wide.
    pub fn part_text(&self, part: &CellPart) -> (r: String)
        ensures
            r@ == part_text_spec(self@, *part),
    {
        proof {
            reveal_strlit(" ");
        }
        let mut s = String::new();
        match self {
            Cell::Solved(d) => {
                if let CellPart::Middle = part {
                    s.append(" ");
                    push_number(&mut s, *d as usize);
                    s.append(" ");
                } else {
                    s.append(" ");
                    s.append(" ");
                    s.append(" ");
                }
            },
            Cell::Candidates(c) => {
                assert(self@ == CellView::Open(digits_of(*c)));
                let range = part.range();
                let mut x: usize = range.start;
                while x < range.end
                    invariant
                        self@ == CellView::Open(digits_of(*c)),
                        range.start == part_start(*part),
                        range.end == range.start + 3,
                        range.start <= x <= range.end,
                        s@ == part_text_spec(self@, *part).take(x - range.start),
                    decreases range.end - x,
                {
                    proof {
                        reveal_strlit(" ");
                        assert(digits_of(*c).contains(x as int) == c[x - 1]);
                    }
                    if c[x - 1] {
                        s.append(digit_text(x as u8));
                    } else {
                        s.append(" ");
                    }
                    proof {
                        assert(s@ =~= part_text_spec(self@, *part).take(x + 1 - range.start));
                    }
                    x = x + 1;
                }
                proof {
                    assert(s@ =~= part_text_spec(self@, *part));
                }
            },
        }
        s
    }
}

} // verus!
