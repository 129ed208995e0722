pub mod content;
pub mod crawler;
pub mod fetch;
pub mod frontier;
pub mod links;
