// An interpreter for a keyword spelling of the eight-operator tape language:
// `lexer` turns keyword text into lexemes, `parser` builds the program tree,
// and `machine` runs the tree one step at a time against a byte tape.
pub mod lexer;
pub mod machine;
pub mod parser;
