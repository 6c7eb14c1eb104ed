//! The decoded object graph: the reader's id table handed back whole. Ids are
//! dense, so the table is a vector indexed by id; references inside decoded
//! nodes are ids into the same table, and the root is the last frame decoded.
use vstd::prelude::*;

verus! {

/// A decoded object graph: one node per id, in id order. The stream's root
/// is the most recently inserted node.
#[derive(Debug)]
pub struct DynObj<N> {
    pub nodes: Vec<N>,
}

impl<N> DynObj<N> {
    /// Wraps a finished id table.
    pub fn new(nodes: Vec<N>) -> (d: DynObj<N>)
        ensures
            d.nodes@ == nodes@,
    {
        DynObj { nodes }
    }

    /// How many nodes were decoded.
    pub fn len(&self) -> (n: usize)
        ensures
            n == self.nodes@.len(),
    {
        self.nodes.len()
    }

    /// The node a reference id resolves to.
    pub fn get(&self, id: usize) -> (r: Option<&N>)
        ensures
            r is Some <==> (id as int) < self.nodes@.len(),
            r matches Some(x) ==> *x == self.nodes@[id as int],
    {
        if id < self.nodes.len() {
            Some(&self.nodes[id])
        } else {
            None
        }
    }

    /// The stream's root: the last node decoded.
    pub fn root(&self) -> (r: Option<&N>)
        ensures
            r is Some <==> self.nodes@.len() > 0,
            r matches Some(x) ==> *x == self.nodes@[self.nodes@.len() - 1],
    {
        let n = self.nodes.len();
        if n > 0 {
            Some(&self.nodes[n - 1])
        } else {
            None
        }
    }
}

} // verus!
