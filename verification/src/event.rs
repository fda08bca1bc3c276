//! Events: the requests that replicas send to the master, carried between them in
//! serialised form. The master and its replicas must use the same event type.
use vstd::prelude::*;

verus! {

/// An event carrying `content`, which can be transferred between instances of an
/// application once serialised.
#[derive(Debug)]
pub struct Event<T> {
    pub content: T,
}

impl<T> Event<T> {
    /// Creates an event from owned content.
    pub fn new(content: T) -> (r: Event<T>)
        ensures
            r.content == content,
    {
        Event { content }
    }
}

} // verus!
