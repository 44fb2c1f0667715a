/// Specifications of the standard string operations that the library relies on.
pub mod text;
/// Byte-level tokenizer.
pub mod lexer;
/// How the three stacks of the parser fit together at every step.
pub mod discipline;
/// Documents as sequences of lexemes, and what the tokenizer makes of them.
pub mod document;
/// Value tree, the parser that builds it and the formatter that writes it.
pub mod parser;
/// The files that hold the distances and the metrics of a run.
pub mod metrics;
/// Coordinate pairs and their documents.
pub mod pairs;
/// What the tokenizer, the parser and the formatter make of a
/// coordinate-pair document.
pub mod pair_document;
/// Block profiler over an explicit record keeper.
pub mod profiler;
/// Timer arithmetic.
pub mod timer;
