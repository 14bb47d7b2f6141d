pub mod lex;
pub mod scan;
