//! Delimited-text data reader.
//!
//! Turns the bytes of a flat text file of homogeneously typed fields into a
//! typed, indexable table. Lines that are blank or that start with the comment
//! byte are not counted; blanks around a field are dropped; every retained line
//! must hold the same number of fields.

/// The readers, the tokenizer behind them and the tables they return.
pub mod reader;
