use vstd::prelude::*;

verus! {

/// A cell that holds the rendered node it is attached to, once that node is
/// mounted, for imperative access afterwards.
#[derive(Debug)]
pub struct NodeRef<G>(Option<G>);

impl<G> View for NodeRef<G> {
    type V = Option<G>;

    closed spec fn view(&self) -> Option<G> {
        self.0
    }
}

impl<G: Copy> NodeRef<G> {
    /// Creates an empty cell.
    pub fn new() -> (r: Self)
        ensures
            r@.is_none(),
    {
        NodeRef(None)
    }

    /// The node held. The cell must be set.
    pub fn get(&self) -> (r: G)
        requires
            self@.is_some(),
        ensures
            self@ == Some(r),
    {
        self.0.unwrap()
    }

    /// The node held, or `None` while the cell is not set.
    pub fn try_get(&self) -> (r: Option<G>)
        ensures
            r == self@,
    {
        self.0
    }

    /// The node held, as stored. The cell must be set.
    pub fn get_raw(&self) -> (r: G)
        requires
            self@.is_some(),
        ensures
            self@ == Some(r),
    {
        self.get()
    }

    /// The node held, as stored, or `None` while the cell is not set.
    pub fn try_get_raw(&self) -> (r: Option<G>)
        ensures
            r == self@,
    {
        self.try_get()
    }

    /// Stores `node`, replacing what was held.
    pub fn set(&mut self, node: G)
        ensures
            final(self)@ == Some(node),
    {
        self.0 = Some(node);
    }
}

impl<G: Copy> Default for NodeRef<G> {
    fn default() -> (r: Self)
        ensures
            r@.is_none(),
    {
        Self::new()
    }
}

} // verus!
