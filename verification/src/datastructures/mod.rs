pub mod column;
pub mod completion;
pub mod data;
pub mod digit;
pub mod griddimensions;
pub mod row;
pub mod rules;
pub mod search;
pub mod section;
pub mod sudoku;
