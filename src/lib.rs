//! A small proof-of-work ledger: blocks, a linear chain, a shared broadcast log
//! and the participants that mine and validate blocks over it.

pub mod block;
pub mod blockchain;
pub mod message_queue;
pub mod node;

pub use block::{Block, Transaction};
pub use blockchain::{Blockchain, ChainError};
pub use message_queue::{Message, Queue, QueueClient};
pub use node::{shutdown_reaction, Node, NodeType};
