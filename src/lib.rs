pub mod hash;
pub mod parser;
