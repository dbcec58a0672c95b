//! A discrete-time commodity economy: factories turn input wares into output
//! wares, trade them through an order-matching market, and consumers draw
//! wares out of that market under an elastic demand model.

pub mod consumer;
pub mod factory;
pub mod market;
pub mod money;
pub mod recipe;
pub mod template;
pub mod time;
pub mod ware;
pub mod warehouse;
pub mod world;
