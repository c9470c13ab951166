//! Markov-chain text generation: a tokenizer, a transition model learned from
//! a sequence of tokens, and a generator that walks the model at random.

pub mod chain;
pub mod model;
pub mod random;
pub mod reply;
pub mod words;
