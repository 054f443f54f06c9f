use vstd::prelude::*;

use crate::node::Node;

verus! {

/// The tape: an append-only arena of nodes, addressed by position, and the
/// display name of each node, at the same position.
pub struct State<V> {
    pub nodes: Vec<Node<V>>,
    pub names: Vec<String>,
}

impl<V> State<V> {
    /// Every node knows its own position, and refers only to nodes before it,
    /// so the tape is a graph in topological order.
    pub open spec fn wf(&self) -> bool {
        &&& self.names@.len() == self.nodes@.len()
        &&& forall|i: int|
            0 <= i < self.nodes@.len() ==> {
                &&& (#[trigger] self.nodes@[i]).idx == i
                &&& self.nodes@[i].op.operands_before(i)
            }
    }

    /// An empty tape.
    pub fn new() -> (r: Self)
        ensures
            r.wf(),
            r.nodes@.len() == 0,
    {
        State { nodes: Vec::new(), names: Vec::new() }
    }

    pub fn len(&self) -> (r: usize)
        ensures
            r == self.nodes@.len(),
    {
        self.nodes.len()
    }

    /// Appends `node`, named `name`, at the end of the tape and returns its
    /// position.
    pub fn push(&mut self, node: Node<V>, name: String) -> (idx: usize)
        requires
            old(self).wf(),
            node.op.operands_before(old(self).nodes@.len() as int),
        ensures
            final(self).wf(),
            idx == old(self).nodes@.len(),
            final(self).nodes@ == old(self).nodes@.push(Node { idx, ..node }),
            final(self).names@ == old(self).names@.push(name),
    {
        let idx = self.nodes.len();
        let mut node = node;
        node.idx = idx;
        self.nodes.push(node);
        self.names.push(name);
        assert(self.nodes@[idx as int].idx == idx);
        idx
    }

    /// Discards every node at position `n` or after.
    pub fn truncate(&mut self, n: usize)
        requires
            old(self).wf(),
        ensures
            final(self).wf(),
            final(self).nodes@ == old(self).nodes@.take(
                if n < old(self).nodes@.len() { n as int } else { old(self).nodes@.len() as int },
            ),
    {
        self.nodes.truncate(n);
        self.names.truncate(n);
    }
}

impl<V: Copy> State<V> {
    /// The value held by the node at `i`.
    pub fn data(&self, i: usize) -> (r: V)
        requires
            i < self.nodes@.len(),
        ensures
            r == self.nodes@[i as int].data,
    {
        self.nodes[i].data
    }

    /// The gradient accumulated into the node at `i`.
    pub fn grad(&self, i: usize) -> (r: V)
        requires
            i < self.nodes@.len(),
        ensures
            r == self.nodes@[i as int].grad,
    {
        self.nodes[i].grad
    }
}

} // verus!
