//! Unique identities.
use vstd::prelude::*;

verus! {

/// Hands out child identities, each one larger than the last.
#[derive(Debug, Default)]
pub struct ChildCounter(pub usize);

/// The identity of a structural node; it never changes while the node lives.
#[derive(Clone, Copy, Debug, PartialEq, Eq, Hash, Structural)]
pub struct ChildId(pub usize);

/// The identity of a window.
#[derive(Clone, Copy, Debug, PartialEq, Eq, Hash, Structural)]
pub struct WindowId(pub usize);

impl ChildCounter {
    /// A counter that has handed out nothing yet.
    pub fn new() -> (r: Self)
        ensures
            r.0 == 0,
    {
        ChildCounter(0)
    }

    /// A fresh identity, larger than every one handed out before.
    pub fn generate_id(&mut self) -> (r: ChildId)
        requires
            old(self).0 < usize::MAX,
        ensures
            final(self).0 == old(self).0 + 1,
            r.0 == final(self).0,
    {
        self.0 = self.0 + 1;
        ChildId(self.0)
    }

    /// Whether another identity can be handed out.
    pub fn can_generate(&self) -> (r: bool)
        ensures
            r == (self.0 < usize::MAX),
    {
        self.0 < usize::MAX
    }
}

impl ChildId {
    pub fn new(inner: usize) -> (r: Self)
        ensures
            r.0 == inner,
    {
        ChildId(inner)
    }
}

impl WindowId {
    pub fn new(inner: usize) -> (r: Self)
        ensures
            r.0 == inner,
    {
        WindowId(inner)
    }
}

} // verus!
