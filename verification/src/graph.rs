//! Adjacency-map graphs and their lazy traversal cursors.

use crate::cursor::enqueue;
use crate::cursor::neighbours_of;
use crate::cursor::Cursor;
use std::collections::HashMap;
use std::collections::HashSet;
use std::collections::VecDeque;
use std::hash::Hash;
use vstd::prelude::*;
use vstd::std_specs::hash::obeys_key_model;
use vstd::std_specs::iter::IteratorSpecImpl;

verus! {

/// A directed graph stored as a map from each node to its ordered list of
/// neighbours.
#[derive(Debug)]
pub struct GraphAdjacencyMatrix<T> {
    adjacency: HashMap<T, Vec<T>>,
}

impl<T> View for GraphAdjacencyMatrix<T> {
    type V = Map<T, Seq<T>>;

    closed spec fn view(&self) -> Map<T, Seq<T>> {
        lists_of(self.adjacency@)
    }
}

/// The stored map with each neighbour list taken as a sequence.
spec fn lists_of<T>(stored: Map<T, Vec<T>>) -> Map<T, Seq<T>> {
    Map::new(|node: T| stored.contains_key(node), |node: T| stored[node]@)
}

/// The adjacency map that a list of `(node, neighbours)` entries describes.
/// Where a node has several entries, the last one stands.
pub open spec fn adjacency_of<T>(entries: Seq<(T, Vec<T>)>) -> Map<T, Seq<T>>
    decreases entries.len(),
{
    if entries.len() == 0 {
        Map::empty()
    } else {
        adjacency_of(entries.drop_last()).insert(entries.last().0, entries.last().1@)
    }
}

impl<T> GraphAdjacencyMatrix<T> {
    /// A graph built from a hash map has finitely many entries.
    pub proof fn lemma_finite(&self)
        ensures
            self@.dom().finite(),
    {
        assert(self@.dom() =~= self.adjacency@.dom());
    }
}

impl<T> GraphAdjacencyMatrix<T> where T: Hash + Eq + Copy {
    /// Builds the graph that `input` describes: one entry per node, the
    /// last one where a node is given twice.
    pub fn new(input: Vec<(T, Vec<T>)>) -> (graph: Self)
        ensures
            obeys_key_model::<T>() ==> graph@ == adjacency_of(input@),
    {
        let mut adjacency: HashMap<T, Vec<T>> = HashMap::new();
        let ghost all = input@;
        assert(lists_of(adjacency@) =~= adjacency_of(all.take(0)));
        for entry in entries: input.into_iter()
            invariant
                entries.seq() == all,
                obeys_key_model::<T>() ==> lists_of(adjacency@) == adjacency_of(
                    entries.seq().take(entries.index()),
                ),
        {
            let ghost stored = adjacency@;
            let ghost done = entries.seq().take(entries.index());
            let ghost grown = entries.seq().take(entries.index() + 1);
            adjacency.insert(entry.0, entry.1);
            proof {
                assert(grown.drop_last() =~= done);
                assert(grown.last() == entry);
                if obeys_key_model::<T>() {
                    assert(lists_of(adjacency@) =~= lists_of(stored).insert(entry.0, entry.1@));
                }
            }
        }
        assert(all.take(all.len() as int) =~= all);
        Self { adjacency }
    }
}

/// What a traversal needs from a graph: the neighbours of a node, and a
/// cursor for each of the two orders.
pub trait Graph<T> where T: Hash + Eq + Copy {
    /// The adjacency map that this graph stands for.
    spec fn adjacency(&self) -> Map<T, Seq<T>>;

    /// The neighbour list recorded for `node`, or `None` where the graph has
    /// no entry for it.
    fn neighbours(&self, node: &T) -> (found: Option<&Vec<T>>)
        ensures
            obeys_key_model::<T>() ==> match found {
                Some(list) => self.adjacency().contains_key(*node) && list@
                    == self.adjacency()[*node],
                None => !self.adjacency().contains_key(*node),
            },
    ;

    /// A depth-first traversal from `root`, before its first pull.
    fn depth_first(&self, root: T) -> (it: NodesIterator<'_, T, true>) where T: std::fmt::Debug
        ensures
            it@ == Cursor::start(root),
            it.graph() == self.adjacency(),
    ;

    /// A breadth-first traversal from `root`, before its first pull.
    fn breadth_first(&self, root: T) -> (it: NodesIterator<'_, T, false>) where T: std::fmt::Debug
        ensures
            it@ == Cursor::start(root),
            it.graph() == self.adjacency(),
    ;
}

impl<T> Graph<T> for GraphAdjacencyMatrix<T> where T: Hash + Eq + Copy {
    open spec fn adjacency(&self) -> Map<T, Seq<T>> {
        self@
    }

    fn neighbours(&self, node: &T) -> (found: Option<&Vec<T>>) {
        self.adjacency.get(node)
    }

    fn depth_first(&self, root: T) -> (it: NodesIterator<'_, T, true>) where T: std::fmt::Debug {
        NodesIterator::new(root, self)
    }

    fn breadth_first(&self, root: T) -> (it: NodesIterator<'_, T, false>) where
        T: std::fmt::Debug,
     {
        NodesIterator::new(root, self)
    }
}

/// A lazy traversal of a graph. `ORDERING` selects depth-first (`true`) or
/// breadth-first (`false`) order.
pub struct NodesIterator<'a, T, const ORDERING: bool> {
    stack: VecDeque<T>,
    visited: HashSet<T>,
    graph: &'a GraphAdjacencyMatrix<T>,
}

impl<'a, T, const ORDERING: bool> View for NodesIterator<'a, T, ORDERING> {
    type V = Cursor<T>;

    closed spec fn view(&self) -> Cursor<T> {
        Cursor { pending: self.stack@, visited: self.visited@ }
    }
}

impl<'a, T, const ORDERING: bool> NodesIterator<'a, T, ORDERING> {
    /// The adjacency map that this traversal walks.
    pub closed spec fn graph(&self) -> Map<T, Seq<T>> {
        self.graph@
    }

    /// The graph under a traversal has finitely many entries.
    pub proof fn lemma_graph_finite(&self)
        ensures
            self.graph().dom().finite(),
    {
        self.graph.lemma_finite();
    }

    /// A traversal of `graph` from `root`, before its first pull: the root
    /// alone is pending and nothing has been visited.
    pub fn new(root: T, graph: &'a GraphAdjacencyMatrix<T>) -> (it: Self)
        ensures
            it@ == Cursor::start(root),
            it.graph() == graph@,
    {
        let mut stack = VecDeque::new();
        stack.push_back(root);
        let it = Self { stack, visited: HashSet::new(), graph };
        assert(it.stack@ =~= seq![root]);
        it
    }
}

impl<T, const ORDERING: bool> Iterator for NodesIterator<'_, T, ORDERING> where
    T: Hash + Eq + Copy,
 {
    type Item = T;

    /// Pulls the next node: drops pending nodes that were already visited,
    /// marks the first fresh one, queues its neighbours and yields it. Does
    /// no more than that one step, and yields `None` once the queue is
    /// used up.
    fn next(&mut self) -> (ret: Option<T>)
        ensures
            final(self).graph() == old(self).graph(),
            obeys_key_model::<T>() ==> (ret, final(self)@) == old(self)@.pull(
                old(self).graph(),
                ORDERING,
            ),
    {
        proof {
            self.graph.lemma_finite();
        }
        loop
            invariant
                self.graph == old(self).graph,
                self.graph().dom().finite(),
                obeys_key_model::<T>() ==> self@.pull(self.graph(), ORDERING) == old(self)@.pull(
                    old(self).graph(),
                    ORDERING,
                ),
            decreases self.stack@.len(),
        {
            let ghost prior = self@;
            let node = match self.stack.pop_front() {
                Some(node) => node,
                None => {
                    return None;
                },
            };
            let ghost rest = self.stack@;
            assert(rest =~= prior.pending.drop_first());
            if self.visited.insert(node) {
                let ghost marked = self.visited@;
                let ghost found = neighbours_of(self.graph(), node);
                if let Some(neighbours) = self.graph.neighbours(&node) {
                    let mut i: usize = 0;
                    assert(self.stack@ =~= enqueue(ORDERING, rest, neighbours@.subrange(0, 0)));
                    while i < neighbours.len()
                        invariant
                            i <= neighbours.len(),
                            self.graph == old(self).graph,
                            self.visited@ == marked,
                            self.stack@ == enqueue(
                                ORDERING,
                                rest,
                                neighbours@.subrange(0, i as int),
                            ),
                        decreases neighbours.len() - i,
                    {
                        let ghost queued = neighbours@.subrange(0, i as int);
                        if ORDERING {
                            self.stack.push_front(neighbours[i]);
                        } else {
                            self.stack.push_back(neighbours[i]);
                        }
                        i += 1;
                        assert(neighbours@.subrange(0, i as int) =~= queued.push(
                            neighbours@[i - 1],
                        ));
                        assert(self.stack@ =~= enqueue(
                            ORDERING,
                            rest,
                            neighbours@.subrange(0, i as int),
                        ));
                    }
                    assert(neighbours@.subrange(0, i as int) =~= neighbours@);
                } else {
                    assert(self.stack@ =~= enqueue(ORDERING, rest, Seq::<T>::empty()));
                }
                assert(obeys_key_model::<T>() ==> self.stack@ == enqueue(ORDERING, rest, found));
                return Some(node);
            }
            assert(obeys_key_model::<T>() ==> self.visited@ =~= prior.visited);
        }
    }
}

impl<T, const ORDERING: bool> IteratorSpecImpl for NodesIterator<'_, T, ORDERING> where
    T: Hash + Eq + Copy,
 {
    open spec fn obeys_prophetic_iter_laws(&self) -> bool {
        obeys_key_model::<T>()
    }

    open spec fn remaining(&self) -> Seq<T> {
        self@.order(self.graph(), ORDERING)
    }

    open spec fn will_return_none(&self) -> bool {
        true
    }

    open spec fn decrease(&self) -> Option<nat> {
        Some(self@.order(self.graph(), ORDERING).len())
    }

    open spec fn initial_value_relation(&self, init: &Self) -> bool {
        self@ == init@ && self.graph() == init.graph()
    }

    open spec fn peek(&self, index: int) -> Option<T> {
        let order = self@.order(self.graph(), ORDERING);
        if 0 <= index < order.len() {
            Some(order[index])
        } else {
            None
        }
    }
}

} // verus!
