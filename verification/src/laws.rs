//! What the library promises as a whole, said of texts, numbers and trees
//! themselves.

pub mod adopting;
pub mod binds;
pub mod cpus;
pub mod documents;
pub mod events;
pub mod finding;
pub mod kernel;
pub mod numbers;
pub mod placing;
pub mod rounds;
pub mod rules;
pub mod texts;
