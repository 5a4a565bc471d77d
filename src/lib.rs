//! A discrete-time simulation of request traffic through a pipeline of
//! typed service nodes, with admission control, bounded queues and
//! load-aware routing.
pub mod engine;
pub mod geometry;
pub mod layout;
pub mod model;
pub mod node;
pub mod packet;
pub mod routing;
pub mod wire;
