//! The linked record that the containers are made of.

use crate::atomic::TaggedPtr;
use vstd::prelude::*;

verus! {

/// A linked node: a slot for a value, and the link to the node after it.
pub struct Node<T> {
    pub value: Option<T>,
    pub next: TaggedPtr,
}

} // verus!
