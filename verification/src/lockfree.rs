//! Containers whose links are tagged pointers.

pub mod intrusivestack;
pub mod model;
pub mod node;
pub mod queue;
pub mod shared;
pub mod stack;

pub use crate::lockfree::intrusivestack::IntrusiveStack;
pub use crate::lockfree::node::Node;
pub use crate::lockfree::queue::{Queue, QueueConsumer, QueueProducer};
pub use crate::lockfree::stack::{Stack, StackConsumer, StackProducer};
