//! A compiler front end for a minimal eight-symbol language operating on a
//! flat memory tape: a tokenizer, a recursive-descent parser, and a code
//! generator that lowers the syntax tree into a control-flow graph of basic
//! blocks, ready to be handed to a native code-generation backend.

pub mod compiler;
pub mod lexer;
pub mod node;
pub mod parser;
pub mod token;

pub use compiler::codegen::Codegen;
pub use lexer::Lexer;
pub use node::Node;
pub use parser::Parser;
pub use token::Token;
