pub mod calendar;
pub mod model;
pub mod number;
pub mod parser;
pub mod printer;
pub mod raw;
pub mod text;
