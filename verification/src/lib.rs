//! A validating parser, canonical printer and evaluator support for
//! spreadsheet formulas.

pub mod chars;
pub mod number;
pub mod lexer;
pub mod parser;
pub mod printer;
pub mod eval;
pub mod workbook;
pub mod lexemes;
pub mod reparse;
pub mod relex;
pub mod parsed;
pub mod roundtrip;
pub mod parens;
pub mod ref_parens;
pub mod cells;
pub mod semantics;
