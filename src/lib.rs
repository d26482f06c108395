//! The route tables of a message broker's name service: which brokers serve which topics,
//! how broker groups are made up, and which broker processes are alive. Brokers register and
//! are unregistered or expire; clients pick up the route of a topic.

pub mod strmap;
pub mod idmap;
pub mod nested;
pub mod route_data;
pub mod clock;
pub mod manager;
pub mod bootstrap;
pub mod laws;
