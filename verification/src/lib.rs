pub mod errors;
pub mod resolver;
pub mod matcher;
pub mod pattern;
pub mod processor;
