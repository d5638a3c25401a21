pub mod eval;
pub mod parse;
pub mod postfix;
pub mod token;
pub mod tokenize;

pub use eval::eval;
pub use parse::evaluate_expression;
pub use parse::parser;
pub use postfix::organize_ops;
pub use token::Error;
pub use token::Operator;
pub use token::Ops;
pub use tokenize::get_number;
pub use tokenize::tokenize;
