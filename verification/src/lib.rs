//! A formula calculator: parsing of formulas into expression trees, exact rational
//! arithmetic, simplification, symbol definitions and number formatting.

pub mod text;
pub mod printing;
pub mod rational;
pub mod number;
pub mod element;
pub mod history;
pub mod shortcuts;
pub mod benchmarking;
pub mod matching;
pub mod splitting;
pub mod parsing;
pub mod signature;
pub mod symbols;
pub mod optimization;
pub mod formula;
pub mod debug_text;
pub mod insertion;
pub mod outcomes;
pub mod division;
pub mod rendering;
pub mod arithmetic;
pub mod evaluation;
pub mod store;
