//! What is shown of a run, as rows of text. Printing them is left to the
//! caller.
pub mod table;
