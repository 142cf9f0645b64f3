pub mod resolver;
pub mod rules;
