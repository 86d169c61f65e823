// Arithmetic expressions: a tokenizer, a precedence-climbing parser proved
// against a model of the grammar, and laws about the trees it builds.
pub mod token;
pub mod tokenizer;
pub mod ast;
pub mod parser;
pub mod laws;
pub mod grammar;
