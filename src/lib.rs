//! A wave function collapse engine: cells narrow their candidate values as
//! their neighbours settle, and the open cell with the fewest candidates is
//! settled next.
pub mod cell;
pub mod sudoku;
