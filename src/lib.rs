//! A logical sudoku engine: a 9×9 board of cells, each either solved or
//! holding its remaining candidate digits, with the naked-single and
//! hidden-single deductions and a lazy, observable solving pass.
pub mod cell;
pub mod grid;
pub mod deduce;
pub mod solve;
pub mod parse;

pub use cell::Cell;
pub use deduce::SolutionStep;
pub use grid::Grid;
pub use parse::ParseError;
pub use solve::GridIterator;
