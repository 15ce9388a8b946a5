pub mod char_counter;
pub mod char_scorer;
pub mod field;
pub mod word;
pub mod dictionary;
pub mod solver;
