pub mod laws;
pub mod layout;
pub mod model;
pub mod parser;
pub mod scanner;
