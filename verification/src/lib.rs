//! A strict JSON reader: a tokenizer over characters, a recursive-descent
//! parser over tokens, and the value tree with its canonical text form.

pub mod error;
pub mod number;
pub mod parser;
pub mod round_trip;
pub mod text;
pub mod tokenizer;
pub mod value;
