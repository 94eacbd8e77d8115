//! Vertex identifiers and dense per-vertex side arrays.

use vstd::prelude::*;

verus! {

use vstd::pervasive::VecAdditionalExecFns;

/// Dense identifier of a vertex: an index in `[0, V)` for a graph with `V`
/// vertices. Created by the graph substrate and usable as an index into any
/// `VertexData` allocated from the same graph.
#[derive(Clone, Copy, PartialEq, Eq, Structural, Debug, Hash)]
pub struct VertexId(pub usize);

/// A total map from `VertexId` to `T`, stored densely as an array of length
/// `V`. Indexable in constant time and mutable in place.
pub struct VertexData<T> {
    data: Vec<T>,
}

impl<T> View for VertexData<T> {
    type V = Seq<T>;

    closed spec fn view(&self) -> Seq<T> {
        self.data@
    }
}

impl<T: Copy> VertexData<T> {
    /// Wraps a dense vector of per-vertex values.
    pub fn new(data: Vec<T>) -> (r: VertexData<T>)
        ensures
            r@ == data@,
    {
        VertexData { data }
    }

    /// The number of vertices this side array covers.
    pub fn len(&self) -> (r: usize)
        ensures
            r == self@.len(),
    {
        self.data.len()
    }

    /// Reads the value stored for vertex `v`.
    pub fn get(&self, v: VertexId) -> (r: T)
        requires
            v.0 < self@.len(),
        ensures
            r == self@[v.0 as int],
    {
        self.data[v.0]
    }

    /// Stores `value` for vertex `v`.
    pub fn put(&mut self, v: VertexId, value: T)
        requires
            v.0 < old(self)@.len(),
        ensures
            final(self)@ == old(self)@.update(v.0 as int, value),
    {
        self.data.set(v.0, value);
    }

    /// Gives the values back as a plain vector, indexed by vertex id.
    pub fn into_inner(self) -> (r: Vec<T>)
        ensures
            r@ == self@,
    {
        self.data
    }
}

/// A vector of length `n` whose entries all hold `fill`.
pub fn filled<T: Copy>(n: usize, fill: T) -> (r: Vec<T>)
    ensures
        r@.len() == n,
        forall|i: int| 0 <= i < n ==> r@[i] == fill,
{
    let mut r: Vec<T> = Vec::new();
    while r.len() < n
        invariant
            r@.len() <= n,
            forall|i: int| 0 <= i < r@.len() ==> r@[i] == fill,
        decreases n - r@.len(),
    {
        r.push(fill);
    }
    r
}

} // verus!
