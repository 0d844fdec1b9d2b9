pub mod interpreter;
pub mod laws;
pub mod lexer;
pub mod node;
pub mod parser;
pub mod token;
pub mod utils;

pub use crate::interpreter::{
    bigger_string, ArithOp, CellPosition, CmpOp, ComputeResult, EvalError, FormulaError,
    Interpreter, Num, Truth,
};
pub use crate::lexer::{LexError, Lexer};
pub use crate::node::ASTNode;
pub use crate::parser::{ParseError, Parser};
pub use crate::token::{Numeral, Token, TokenKind};
pub use crate::utils::some;
