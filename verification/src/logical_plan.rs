//! Logical query plans: a graph whose nodes are relational operations and
//! whose edges describe where each operation's input comes from.

pub mod logical_op;

use vstd::prelude::*;
use crate::logical_plan::logical_op::LogicalOp;

verus! {

/// Identifies a node in a logical plan.
pub type OpIndex = usize;

/// A graph of logical operations: data flows from edge target to edge
/// source, and the root is the final output operation.
#[derive(Debug)]
pub struct LogicalPlan {
    /// The operations, indexed by insertion order.
    pub nodes: Vec<LogicalOp>,
    /// The edges as (source, target): the source consumes the target.
    pub edge_list: Vec<(OpIndex, OpIndex)>,
    /// The final output operation, if any node was added.
    pub root: Option<OpIndex>,
}

/// The targets of the edges leaving `from`, most recently added first.
pub open spec fn targets_of(es: Seq<(OpIndex, OpIndex)>, from: OpIndex) -> Seq<OpIndex>
    decreases es.len(),
{
    if es.len() == 0 {
        Seq::empty()
    } else if es.last().0 == from {
        seq![es.last().1] + targets_of(es.drop_last(), from)
    } else {
        targets_of(es.drop_last(), from)
    }
}

impl LogicalPlan {
    /// An empty plan: no nodes, no edges, no root.
    pub fn new() -> (p: Self)
        ensures
            p.nodes@.len() == 0,
            p.edge_list@.len() == 0,
            p.root is None,
    {
        LogicalPlan { nodes: Vec::new(), edge_list: Vec::new(), root: None }
    }

    /// Add an operation and return its index; the first node added becomes
    /// the root.
    pub fn add_node(&mut self, operator: LogicalOp) -> (ix: OpIndex)
        ensures
            final(self).nodes@ == old(self).nodes@.push(operator),
            ix == old(self).nodes@.len(),
            final(self).edge_list@ == old(self).edge_list@,
            final(self).root == if old(self).root is None {
                Some(ix)
            } else {
                old(self).root
            },
    {
        let index = self.nodes.len();
        self.nodes.push(operator);
        if self.root.is_none() {
            self.root = Some(index);
        }
        index
    }

    /// Add an edge from a data consumer to its producer. When the consumed
    /// node was the root, the consumer becomes the root.
    pub fn add_edge(&mut self, source: OpIndex, target: OpIndex)
        ensures
            final(self).nodes@ == old(self).nodes@,
            final(self).edge_list@ == old(self).edge_list@.push((source, target)),
            final(self).root == if old(self).root == Some(target) {
                Some(source)
            } else {
                old(self).root
            },
    {
        match self.root {
            Some(index) => {
                if index == target {
                    self.root = Some(source);
                }
            },
            None => {},
        }
        self.edge_list.push((source, target));
    }

    /// The nodes that `from` has an edge to, most recently added first.
    pub fn edges(&self, from: OpIndex) -> (r: Vec<OpIndex>)
        ensures
            r@ == targets_of(self.edge_list@, from),
    {
        let mut out: Vec<OpIndex> = Vec::new();
        let mut i: usize = self.edge_list.len();
        proof {
            assert(self.edge_list@.subrange(0, i as int) =~= self.edge_list@);
            assert(targets_of(self.edge_list@, from) =~= out@ + targets_of(
                self.edge_list@.subrange(0, i as int),
                from,
            ));
        }
        while i > 0
            invariant
                i <= self.edge_list@.len(),
                targets_of(self.edge_list@, from) == out@ + targets_of(
                    self.edge_list@.subrange(0, i as int),
                    from,
                ),
            decreases i,
        {
            i = i - 1;
            let ghost pre_sub = self.edge_list@.subrange(0, i as int + 1);
            proof {
                assert(pre_sub.drop_last() =~= self.edge_list@.subrange(0, i as int));
                assert(pre_sub.last() == self.edge_list@[i as int]);
            }
            if self.edge_list[i].0 == from {
                out.push(self.edge_list[i].1);
                proof {
                    assert(targets_of(pre_sub, from) == seq![self.edge_list@[i as int].1]
                        + targets_of(self.edge_list@.subrange(0, i as int), from));
                    assert(targets_of(self.edge_list@, from) =~= out@ + targets_of(
                        self.edge_list@.subrange(0, i as int),
                        from,
                    ));
                }
            } else {
                proof {
                    assert(targets_of(pre_sub, from) == targets_of(
                        self.edge_list@.subrange(0, i as int),
                        from,
                    ));
                }
            }
        }
        proof {
            assert(self.edge_list@.subrange(0, 0) =~= Seq::<(OpIndex, OpIndex)>::empty());
            assert(targets_of(self.edge_list@.subrange(0, 0), from) =~= Seq::<OpIndex>::empty());
            assert(out@ =~= targets_of(self.edge_list@, from));
        }
        out
    }

    /// The root node's index, if any node was added.
    pub fn root(&self) -> (r: Option<OpIndex>)
        ensures
            r == self.root,
    {
        self.root
    }

    /// The operation at the given index, or nothing when out of range.
    pub fn get_operator(&self, index: OpIndex) -> (r: Option<&LogicalOp>)
        ensures
            r == if index < self.nodes@.len() {
                Some(&self.nodes@[index as int])
            } else {
                None::<&LogicalOp>
            },
    {
        if index < self.nodes.len() {
            Some(&self.nodes[index])
        } else {
            None
        }
    }

    /// How many nodes the plan holds.
    pub fn node_count(&self) -> (r: usize)
        ensures
            r == self.nodes@.len(),
    {
        self.nodes.len()
    }

    /// How many edges the plan holds.
    pub fn edge_count(&self) -> (r: usize)
        ensures
            r == self.edge_list@.len(),
    {
        self.edge_list.len()
    }
}

} // verus!
