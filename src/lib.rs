pub mod rational;
pub mod structures;
pub mod parse;
