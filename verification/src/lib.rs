pub mod api;
pub mod clue;
pub mod corpus;
pub mod errors;
pub mod extract;
pub mod itertools_support;
pub mod matching;
pub mod merge;
pub mod parse;
pub mod rank;
