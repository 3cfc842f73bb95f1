//! Tagged-pointer containers: an intrusive Treiber stack, a value stack with a
//! recycling freelist and a Michael-Scott queue.
//!
//! A tagged pointer is one word: a 48-bit address beside a 16-bit tag that
//! advances with every word installed in a cell, so that a node which left a
//! container and came back is told apart from the node as it was. Nodes live
//! in a store that names each of them by an address; the containers link
//! them by tagged pointers and use them again instead of freeing them.
//!
//! Every call takes its container by exclusive reference, and the contracts
//! say what one call does to the container as it stands. The steps of a push
//! and of a pop on the intrusive stack are calls of their own, so that what a
//! step does after other calls came in between is stated too.

pub mod atomic;
pub mod heap;
pub mod lockfree;
