//! The integer core of a tiny character-level GPT trainer: a seeded
//! xorshift64 generator with a Fisher-Yates shuffle, the computation graph
//! of a reverse-mode autodiff tape with its topological ordering, the named
//! parameter store, the corpus splitter and the character tokenizer.
pub mod attention;
pub mod corpus;
pub mod graph;
pub mod rng;
pub mod state_dict;
pub mod tokenizer;
