pub mod attribute;
pub mod laws;
pub mod parser;
pub mod token;
