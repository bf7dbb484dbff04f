//! What the operations are for, stated over whole texts and values: how a
//! message that was put together is read, what a result must hold, and how
//! results relate.

pub mod texts;
pub mod numbers;
pub mod orders;
pub mod addresses;
pub mod arguments;
pub mod finding;
pub mod scanning;
pub mod tools;
pub mod served;
pub mod session;
pub mod bridge;
pub mod relay;
pub mod running;
pub mod board;
pub mod desk;
