//! A group-chat auto-responder core: a boolean trigger-expression language
//! (grammar, parser, typed errors, evaluator), a weighted Markov text model
//! with incremental learning and randomized generation, a per-chat state
//! registry with alias binding, and snapshot flattening/rebuilding for
//! persistence. Every function is specified and verified with Verus.

pub mod alias;
pub mod assoc;
pub mod expr;
pub mod markov;
pub mod registry;
pub mod rng;
pub mod state;
pub mod text;
