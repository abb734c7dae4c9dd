//! A reactive key/value fabric: lockable reactive nodes, the transactions that
//! change them, and the router that carries their messages.

pub mod actor;
pub mod address_map;
pub mod basis;
pub mod expr;
pub mod txid;
pub mod tx_map;
pub mod message;
pub mod reactive;
pub mod lock;
pub mod router;
pub mod directory;
pub mod transaction;
pub mod manager;
pub mod upgrade;
