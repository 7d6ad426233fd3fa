pub mod algebra;
pub mod data_structure;
pub mod hlist;
pub mod matrix;
pub mod matrix_like;
pub mod parser_combinator;
pub mod utils;
