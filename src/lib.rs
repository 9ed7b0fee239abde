pub mod client;
pub mod download;
pub mod model;
pub mod ranker;
pub mod resolver;
pub mod selector;
pub mod text;
