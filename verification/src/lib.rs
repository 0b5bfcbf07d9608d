//! A tokenizer and template builder for a small compiler front end, with
//! the contracts of its parts proved by Verus.
pub mod data;
pub mod error;
pub mod number;
pub mod position;
pub mod token;
pub mod stack;
pub mod registry;
pub mod character;
pub mod builder;
pub mod tokenize;
pub mod signature;
