//! Dice expressions, their evaluation, and weighted random tables for tabletop games.

pub mod text;
pub mod dice;
pub mod parser;
pub mod random;
pub mod roll;
pub mod table;
pub mod laws;
pub mod syntax_laws;
pub mod table_laws;
pub mod flower;
