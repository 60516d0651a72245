//! Text normalisation for bibliographic records: personal-name parsing,
//! rebuilding text from an inverted index, and markup stripping.

pub mod text;

pub mod name;

pub mod inverted;

pub mod markup;
