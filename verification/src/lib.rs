//! Entity-component-system storage and scheduling logic.

pub mod handle;
pub mod layering;
pub mod typeid;
pub mod type_map;
pub mod component;
pub mod system;
pub mod graph;
pub mod resource;
pub mod scheduler;
pub mod table;
pub mod entity;
pub mod sparse_set;
pub mod bits;
pub mod signature;
pub mod word_vec;
pub mod bitset;
pub mod archetype;
pub mod util;
pub mod time;
pub mod command;
pub mod event;
pub mod filter;
pub mod local;
pub mod change;
pub mod marker;
pub mod world;
pub mod query;
pub mod param;
pub mod sealed;
