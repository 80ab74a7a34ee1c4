//! The core of a line scanner that searches lines for a pattern: a parser of patterns, a
//! compiler of patterns into graphs of transitions, and an evaluator that searches such a
//! graph depth first against the tokens of a line.
//!
//! The executable functions are verified against mathematical descriptions of what they
//! compute: `grammar` says what the parser returns, `ast` what the compiler returns, and
//! `search` what the evaluator returns. On top of these stand proofs of what the engine
//! does as a whole: when its searches come to an end (`progress`, `ranking`, `groups`,
//! `group_texts`, `searchable`), which walks through the graph it finds (`walks`), what the
//! anchors mean (`anchors`, `prefix`, `suffix`, `whole`), and how repetitions,
//! backreferences and capture groups behave (`empty_match`, `bounded`, `backref`,
//! `discipline`).
pub mod anchors;
pub mod ast;
pub mod backref;
pub mod bounded;
pub mod capturer;
pub mod common;
pub mod cond;
pub mod discipline;
pub mod empty_match;
pub mod evaluator;
pub mod grammar;
pub mod group_texts;
pub mod groups;
pub mod output;
pub mod parsed;
pub mod parser;
pub mod prefix;
pub mod progress;
pub mod ranges;
pub mod ranking;
pub mod reader;
pub mod renaming;
pub mod search;
pub mod searchable;
pub mod shape;
pub mod simulation;
pub mod suffix;
pub mod text;
pub mod token;
pub mod transition;
pub mod v0;
pub mod v0_halting;
pub mod v1;
pub mod walks;
pub mod whole;
