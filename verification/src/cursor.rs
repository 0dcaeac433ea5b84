//! The mathematical model of a traversal: a pending queue, a visited set,
//! and the rule that turns one pull into the next state.

use vstd::prelude::*;

verus! {

/// The neighbour list that `graph` records for `node`. A node without an
/// entry is a dead end: it has no neighbours.
pub open spec fn neighbours_of<T>(graph: Map<T, Seq<T>>, node: T) -> Seq<T> {
    if graph.contains_key(node) {
        graph[node]
    } else {
        Seq::empty()
    }
}

/// The pending queue after the neighbours `found` of a freshly visited node
/// have been added to `pending`.
///
/// Depth-first, each neighbour in list order goes to the front, so the
/// last-listed neighbour ends up first. Breadth-first, each goes to the back.
pub open spec fn enqueue<T>(depth_first: bool, pending: Seq<T>, found: Seq<T>) -> Seq<T> {
    if depth_first {
        found.reverse() + pending
    } else {
        pending + found
    }
}

/// The state of a traversal between two pulls.
#[verifier::reject_recursive_types(T)]
pub struct Cursor<T> {
    /// Nodes waiting to be looked at, front first.
    pub pending: Seq<T>,
    /// Nodes already yielded.
    pub visited: Set<T>,
}

impl<T> Cursor<T> {
    /// The state of a traversal rooted at `root` before the first pull.
    pub open spec fn start(root: T) -> Self {
        Cursor { pending: seq![root], visited: Set::empty() }
    }

    /// One pull: the node it yields, if any, and the state it leaves behind.
    ///
    /// Pending nodes that were already visited are dropped from the front.
    /// The first unvisited one is marked visited, its neighbours are queued,
    /// and it is yielded. When the queue runs out, nothing is yielded.
    pub open spec fn pull(self, graph: Map<T, Seq<T>>, depth_first: bool) -> (Option<T>, Self)
        decreases self.pending.len(),
    {
        if self.pending.len() == 0 {
            (None, self)
        } else {
            let node = self.pending.first();
            let rest = self.pending.drop_first();
            if self.visited.contains(node) {
                Cursor { pending: rest, visited: self.visited }.pull(graph, depth_first)
            } else {
                (
                    Some(node),
                    Cursor {
                        pending: enqueue(depth_first, rest, neighbours_of(graph, node)),
                        visited: self.visited.insert(node),
                    },
                )
            }
        }
    }

    /// How many nodes at the front of the pending queue were already
    /// visited: the next pull drops them.
    pub open spec fn stale_prefix(self) -> int
        decreases self.pending.len(),
    {
        if self.pending.len() == 0 || !self.visited.contains(self.pending.first()) {
            0
        } else {
            1 + Cursor { pending: self.pending.drop_first(), visited: self.visited }.stale_prefix()
        }
    }

    /// A pull yields the first pending node that was not visited before and
    /// queues its neighbours behind or before what follows it; where every
    /// pending node was visited, it yields nothing and empties the queue.
    pub proof fn lemma_pull(self, graph: Map<T, Seq<T>>, depth_first: bool)
        ensures
            0 <= self.stale_prefix() <= self.pending.len(),
            forall|j: int|
                0 <= j < self.stale_prefix() ==> self.visited.contains(#[trigger] self.pending[j]),
            self.stale_prefix() < self.pending.len() ==> !self.visited.contains(
                self.pending[self.stale_prefix()],
            ),
            self.pull(graph, depth_first) == if self.stale_prefix() == self.pending.len() {
                (None::<T>, Cursor { pending: Seq::<T>::empty(), visited: self.visited })
            } else {
                let node = self.pending[self.stale_prefix()];
                (
                    Some(node),
                    Cursor {
                        pending: enqueue(
                            depth_first,
                            self.pending.skip(self.stale_prefix() + 1),
                            neighbours_of(graph, node),
                        ),
                        visited: self.visited.insert(node),
                    },
                )
            },
        decreases self.pending.len(),
    {
        if self.pending.len() == 0 {
            assert(self.pending =~= Seq::<T>::empty());
        } else if self.visited.contains(self.pending.first()) {
            let skipped = Cursor { pending: self.pending.drop_first(), visited: self.visited };
            skipped.lemma_pull(graph, depth_first);
            let k = skipped.stale_prefix();
            assert forall|j: int| 0 <= j < self.stale_prefix() implies self.visited.contains(
                #[trigger] self.pending[j],
            ) by {
                if j > 0 {
                    assert(self.pending[j] == skipped.pending[j - 1]);
                }
            }
            if k < skipped.pending.len() {
                assert(skipped.pending.skip(k + 1) =~= self.pending.skip(k + 2));
            }
        } else {
            assert(self.pending.skip(1) =~= self.pending.drop_first());
        }
    }

    /// The nodes with an entry in `graph` that this traversal has not yet
    /// visited. Only these can still make the pending queue grow.
    pub open spec fn unexpanded(self, graph: Map<T, Seq<T>>) -> Set<T> {
        graph.dom().difference(self.visited)
    }

    /// A pull that yields a node either visits a node that has an entry in
    /// the graph, or shortens the pending queue.
    pub proof fn lemma_pull_progress(self, graph: Map<T, Seq<T>>, depth_first: bool)
        requires
            graph.dom().finite(),
        ensures
            self.pull(graph, depth_first).0 is Some ==> {
                let next = self.pull(graph, depth_first).1;
                ||| next.unexpanded(graph).len() < self.unexpanded(graph).len()
                ||| (next.unexpanded(graph).len() == self.unexpanded(graph).len()
                    && next.pending.len() < self.pending.len())
            },
        decreases self.pending.len(),
    {
        if self.pending.len() > 0 {
            let node = self.pending.first();
            let rest = self.pending.drop_first();
            if self.visited.contains(node) {
                let skipped = Cursor { pending: rest, visited: self.visited };
                skipped.lemma_pull_progress(graph, depth_first);
            } else {
                let next = self.pull(graph, depth_first).1;
                if graph.contains_key(node) {
                    assert(next.unexpanded(graph) =~= self.unexpanded(graph).remove(node));
                } else {
                    assert(next.unexpanded(graph) =~= self.unexpanded(graph));
                    assert(next.pending =~= rest);
                }
            }
        }
    }

    /// Every node that the traversal yields from this state on, in order.
    ///
    /// The sequence is finite because the graph has finitely many entries:
    /// each pull that yields a node uses up an entry or shortens the queue.
    pub open spec fn order(self, graph: Map<T, Seq<T>>, depth_first: bool) -> Seq<T>
        decreases self.unexpanded(graph).len(), self.pending.len(),
        when graph.dom().finite()
        via Self::order_terminates
    {
        match self.pull(graph, depth_first) {
            (Some(node), next) => seq![node] + next.order(graph, depth_first),
            (None, _) => Seq::empty(),
        }
    }

    #[via_fn]
    proof fn order_terminates(self, graph: Map<T, Seq<T>>, depth_first: bool) {
        self.lemma_pull_progress(graph, depth_first);
    }
}

} // verus!
