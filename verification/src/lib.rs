pub mod balances;
pub mod domain;
pub mod engine;
pub mod eventq;
pub mod orders;
pub mod settle;
pub mod slab;
pub mod state;
