//! What a traversal yields: each reachable node, once, the root first.

use crate::cursor::enqueue;
use crate::cursor::neighbours_of;
use crate::cursor::Cursor;
use vstd::prelude::*;

verus! {

/// Whether `path` is a non-empty walk along the edges of `graph`: each node
/// but the first is listed as a neighbour of the node before it.
pub open spec fn is_path<T>(graph: Map<T, Seq<T>>, path: Seq<T>) -> bool {
    &&& path.len() > 0
    &&& forall|i: int|
        0 <= i < path.len() - 1 ==> (#[trigger] neighbours_of(graph, path[i])).contains(
            path[i + 1],
        )
}

/// Whether `graph` has a path from `from` to `to`. Every node reaches itself.
pub open spec fn reachable<T>(graph: Map<T, Seq<T>>, from: T, to: T) -> bool {
    exists|path: Seq<T>| is_path(graph, path) && path.first() == from && path.last() == to
}

impl<T> Cursor<T> {
    /// Whether `path` starts at a pending node and passes through no
    /// visited node.
    pub open spec fn is_open_path(self, graph: Map<T, Seq<T>>, path: Seq<T>) -> bool {
        &&& is_path(graph, path)
        &&& self.pending.contains(path.first())
        &&& forall|i: int| 0 <= i < path.len() ==> !self.visited.contains(#[trigger] path[i])
    }

    /// Whether `node` can still be reached: from a pending node, through
    /// nodes that were not visited.
    pub open spec fn reaches(self, graph: Map<T, Seq<T>>, node: T) -> bool {
        exists|path: Seq<T>| self.is_open_path(graph, path) && path.last() == node
    }

    /// No node is yielded twice, and none that was visited before.
    pub proof fn lemma_order_fresh(self, graph: Map<T, Seq<T>>, depth_first: bool)
        requires
            graph.dom().finite(),
        ensures
            self.order(graph, depth_first).no_duplicates(),
            forall|i: int|
                0 <= i < self.order(graph, depth_first).len() ==> !self.visited.contains(
                    #[trigger] self.order(graph, depth_first)[i],
                ),
        decreases self.unexpanded(graph).len(), self.pending.len(),
    {
        let (yielded, next) = self.pull(graph, depth_first);
        if let Some(node) = yielded {
            self.lemma_pull(graph, depth_first);
            self.lemma_pull_progress(graph, depth_first);
            next.lemma_order_fresh(graph, depth_first);
        }
    }

    /// Every node that is yielded could still be reached.
    pub proof fn lemma_order_reaches(self, graph: Map<T, Seq<T>>, depth_first: bool, node: T)
        requires
            graph.dom().finite(),
            self.order(graph, depth_first).contains(node),
        ensures
            self.reaches(graph, node),
        decreases self.unexpanded(graph).len(), self.pending.len(),
    {
        let (yielded, next) = self.pull(graph, depth_first);
        self.lemma_pull(graph, depth_first);
        self.lemma_pull_progress(graph, depth_first);
        let first = yielded->0;
        let k = self.stale_prefix();
        let order = self.order(graph, depth_first);
        let later = next.order(graph, depth_first);
        assert(order == seq![first] + later);
        let at = choose|at: int| 0 <= at < order.len() && order[at] == node;
        if at == 0 {
            let path = seq![first];
            assert(path[0] == self.pending[k]);
            assert(self.is_open_path(graph, path));
            assert(path.last() == node);
        } else {
            assert(later[at - 1] == node);
            next.lemma_order_reaches(graph, depth_first, node);
            let tail = choose|tail: Seq<T>| next.is_open_path(graph, tail) && tail.last() == node;
            let found = neighbours_of(graph, first);
            let kept = self.pending.skip(k + 1);
            let head = tail.first();
            let slot = choose|slot: int|
                0 <= slot < next.pending.len() && next.pending[slot] == head;
            if kept.contains(head) {
                let m = choose|m: int| 0 <= m < kept.len() && kept[m] == head;
                assert(self.pending[k + 1 + m] == head);
                assert(self.is_open_path(graph, tail));
            } else {
                assert(found.contains(head)) by {
                    if depth_first {
                        let turned = found.reverse();
                        if slot < turned.len() {
                            assert(turned[slot] == found[found.len() - 1 - slot]);
                        } else {
                            assert(kept[slot - turned.len()] == head);
                        }
                    } else {
                        if slot < kept.len() {
                            assert(kept[slot] == head);
                        } else {
                            assert(found[slot - kept.len()] == head);
                        }
                    }
                }
                let path = seq![first] + tail;
                assert forall|i: int| 0 <= i < path.len() - 1 implies (#[trigger] neighbours_of(
                    graph,
                    path[i],
                )).contains(path[i + 1]) by {
                    if i > 0 {
                        assert(path[i] == tail[i - 1]);
                        assert(path[i + 1] == tail[i]);
                    }
                }
                assert forall|i: int| 0 <= i < path.len() implies !self.visited.contains(
                    #[trigger] path[i],
                ) by {
                    if i > 0 {
                        assert(path[i] == tail[i - 1]);
                    }
                }
                assert(path.first() == self.pending[k]);
                assert(self.is_open_path(graph, path));
                assert(path.last() == node);
            }
        }
    }

    /// After a pull that yields `first`, a path through unvisited nodes that
    /// starts at `first` or at a node pending afterwards ends at `first` or
    /// can still be followed.
    proof fn lemma_path_survives(self, graph: Map<T, Seq<T>>, depth_first: bool, path: Seq<T>)
        requires
            self.pull(graph, depth_first).0 is Some,
            is_path(graph, path),
            forall|i: int| 0 <= i < path.len() ==> !self.visited.contains(#[trigger] path[i]),
            path.first() == self.pull(graph, depth_first).0->0 || self.pull(
                graph,
                depth_first,
            ).1.pending.contains(path.first()),
        ensures
            path.last() == self.pull(graph, depth_first).0->0 || self.pull(
                graph,
                depth_first,
            ).1.reaches(graph, path.last()),
        decreases path.len(),
    {
        let (yielded, next) = self.pull(graph, depth_first);
        self.lemma_pull(graph, depth_first);
        let first = yielded->0;
        if path.contains(first) {
            let at = choose|at: int| 0 <= at < path.len() && path[at] == first;
            if at < path.len() - 1 {
                let rest = path.skip(at + 1);
                let found = neighbours_of(graph, first);
                assert(found.contains(rest.first())) by {
                    assert(neighbours_of(graph, path[at]).contains(path[at + 1]));
                }
                let slot = choose|slot: int| 0 <= slot < found.len() && found[slot] == rest.first();
                assert(next.pending.contains(rest.first())) by {
                    if depth_first {
                        assert(next.pending[found.len() - 1 - slot] == rest.first());
                    } else {
                        assert(next.pending[next.pending.len() - found.len() + slot]
                            == rest.first());
                    }
                }
                assert forall|i: int| 0 <= i < rest.len() - 1 implies (#[trigger] neighbours_of(
                    graph,
                    rest[i],
                )).contains(rest[i + 1]) by {
                    assert(rest[i] == path[at + 1 + i]);
                    assert(rest[i + 1] == path[at + 1 + i + 1]);
                }
                assert(rest.last() == path.last());
                self.lemma_path_survives(graph, depth_first, rest);
            }
        } else {
            assert(next.is_open_path(graph, path));
        }
    }

    /// Every node that could still be reached is yielded.
    pub proof fn lemma_reaches_order(self, graph: Map<T, Seq<T>>, depth_first: bool, node: T)
        requires
            graph.dom().finite(),
            self.reaches(graph, node),
        ensures
            self.order(graph, depth_first).contains(node),
        decreases self.unexpanded(graph).len(), self.pending.len(),
    {
        let (yielded, next) = self.pull(graph, depth_first);
        self.lemma_pull(graph, depth_first);
        self.lemma_pull_progress(graph, depth_first);
        let k = self.stale_prefix();
        let path = choose|path: Seq<T>| self.is_open_path(graph, path) && path.last() == node;
        let m = choose|m: int| 0 <= m < self.pending.len() && self.pending[m] == path.first();
        assert(!self.visited.contains(path[0]));
        assert(k <= m);
        let first = yielded->0;
        let order = self.order(graph, depth_first);
        let later = next.order(graph, depth_first);
        assert(order == seq![first] + later);
        if m > k {
            let kept = self.pending.skip(k + 1);
            assert(kept[m - k - 1] == path.first());
            let found = neighbours_of(graph, first);
            if depth_first {
                assert(next.pending[found.len() + (m - k - 1)] == path.first());
            } else {
                assert(next.pending[m - k - 1] == path.first());
            }
        }
        self.lemma_path_survives(graph, depth_first, path);
        if node == first {
            assert(order[0] == node);
        } else {
            next.lemma_reaches_order(graph, depth_first, node);
            let at = choose|at: int| 0 <= at < later.len() && later[at] == node;
            assert(order[at + 1] == node);
        }
    }
}

/// Every node that a traversal of `graph` from `root` yields, in order.
pub open spec fn traversal<T>(graph: Map<T, Seq<T>>, root: T, depth_first: bool) -> Seq<T> {
    Cursor::start(root).order(graph, depth_first)
}

/// A traversal yields no node twice, however often the node is listed and
/// whatever cycles the graph has.
pub proof fn lemma_traversal_distinct<T>(graph: Map<T, Seq<T>>, root: T, depth_first: bool)
    requires
        graph.dom().finite(),
    ensures
        traversal(graph, root, depth_first).no_duplicates(),
{
    Cursor::start(root).lemma_order_fresh(graph, depth_first);
}

/// A traversal yields its root first.
pub proof fn lemma_traversal_starts_at_root<T>(graph: Map<T, Seq<T>>, root: T, depth_first: bool)
    requires
        graph.dom().finite(),
    ensures
        traversal(graph, root, depth_first).len() > 0,
        traversal(graph, root, depth_first).first() == root,
{
    Cursor::start(root).lemma_pull(graph, depth_first);
}

/// A traversal yields exactly the nodes that the graph reaches from the
/// root: it ends, on cyclic graphs too, when each of them has been yielded.
pub proof fn lemma_traversal_covers_reachable<T>(graph: Map<T, Seq<T>>, root: T, depth_first: bool)
    requires
        graph.dom().finite(),
    ensures
        forall|node: T|
            traversal(graph, root, depth_first).contains(node) <==> reachable(graph, root, node),
{
    let start = Cursor::start(root);
    assert forall|node: T| traversal(graph, root, depth_first).contains(node) implies reachable(
        graph,
        root,
        node,
    ) by {
        start.lemma_order_reaches(graph, depth_first, node);
        let path = choose|path: Seq<T>| start.is_open_path(graph, path) && path.last() == node;
        assert(start.pending.contains(path.first()));
        assert(path.first() == root);
    }
    assert forall|node: T| reachable(graph, root, node) implies traversal(
        graph,
        root,
        depth_first,
    ).contains(node) by {
        let path = choose|path: Seq<T>|
            is_path(graph, path) && path.first() == root && path.last() == node;
        assert(start.pending[0] == path.first());
        assert(start.is_open_path(graph, path));
        start.lemma_reaches_order(graph, depth_first, node);
    }
}

/// A traversal is as long as the number of nodes that the graph reaches
/// from the root.
pub proof fn lemma_traversal_length<T>(graph: Map<T, Seq<T>>, root: T, depth_first: bool)
    requires
        graph.dom().finite(),
    ensures
        Set::new(|node: T| reachable(graph, root, node)).finite(),
        traversal(graph, root, depth_first).len() == Set::new(
            |node: T| reachable(graph, root, node),
        ).len(),
{
    let order = traversal(graph, root, depth_first);
    lemma_traversal_distinct(graph, root, depth_first);
    lemma_traversal_covers_reachable(graph, root, depth_first);
    assert(order.to_set() =~= Set::new(|node: T| reachable(graph, root, node)));
    order.unique_seq_to_set();
}

/// A traversal from a root that has no entry in the graph yields the root
/// and nothing else.
pub proof fn lemma_traversal_of_dead_end<T>(graph: Map<T, Seq<T>>, root: T, depth_first: bool)
    requires
        graph.dom().finite(),
        !graph.contains_key(root),
    ensures
        traversal(graph, root, depth_first) == seq![root],
{
    let start = Cursor::start(root);
    start.lemma_pull(graph, depth_first);
    let next = start.pull(graph, depth_first).1;
    assert(next.pending =~= Seq::<T>::empty());
    next.lemma_pull(graph, depth_first);
    assert(next.order(graph, depth_first) =~= Seq::<T>::empty());
}

} // verus!
