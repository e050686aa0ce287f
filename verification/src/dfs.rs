//! Depth-first traversal of a trie: every node is reported twice, once before
//! its children and once after them, and children come in ascending order of
//! first byte.

use crate::trie::Node;
use vstd::prelude::*;

verus! {

/// Whether a node is being entered or left.
#[derive(Debug, Clone, Copy, PartialEq, Eq, Structural)]
pub enum TraversalOrder {
    Pre,
    Post,
}

/// A borrowed look at one node: its label and its value.
#[derive(Debug)]
pub struct NodeRef<'a, T> {
    pub bytes: &'a [u8],
    pub value: Option<&'a T>,
}

/// One step of a traversal in plain values: the order, the node's label and its value.
pub type Event<T> = (TraversalOrder, Seq<u8>, Option<T>);

impl<'a, T> NodeRef<'a, T> {
    /// The label and the value that the reference shows.
    pub open spec fn shows(self) -> (Seq<u8>, Option<T>) {
        (
            self.bytes@,
            match self.value {
                Some(v) => Some(*v),
                None => None,
            },
        )
    }

    /// Borrows the label and the value of `node`.
    pub fn of(node: &'a Node<T>) -> (r: Self)
        ensures
            r.shows() == (node.bytes@, node.value),
    {
        NodeRef { bytes: node.bytes.as_slice(), value: node.value.as_ref() }
    }
}

/// What a traversal step reports, in plain values.
pub open spec fn reported<T>(step: (TraversalOrder, NodeRef<'_, T>)) -> Event<T> {
    (step.0, step.1.shows().0, step.1.shows().1)
}

impl<T> Node<T> {
    /// The node as it is reported on entering.
    pub open spec fn pre(self) -> Event<T> {
        (TraversalOrder::Pre, self.bytes@, self.value)
    }

    /// The node as it is reported on leaving.
    pub open spec fn post(self) -> Event<T> {
        (TraversalOrder::Post, self.bytes@, self.value)
    }

    /// The traversal of this subtree: the node, then each child's traversal in
    /// order, then the node again.
    pub open spec fn events(self) -> Seq<Event<T>>
        decreases self, self.children@.len() + 1,
    {
        seq![self.pre()] + self.events_from(0) + seq![self.post()]
    }

    /// The traversals of the children from position `from` on, one after another.
    pub open spec fn events_from(self, from: nat) -> Seq<Event<T>>
        decreases self, self.children@.len() - from,
    {
        if from >= self.children@.len() {
            Seq::empty()
        } else {
            self.children@[from as int].events() + self.events_from(from + 1)
        }
    }
}

/// What a run of traversal steps reports, in plain values.
pub open spec fn reports<T>(steps: Seq<(TraversalOrder, NodeRef<'_, T>)>) -> Seq<Event<T>> {
    Seq::new(steps.len(), |i: int| reported(steps[i]))
}

/// A traversal under way: the nodes that have been entered and not yet left,
/// outermost first, each with the position of its next child.
pub struct DfsIter<'a, T>(pub Vec<(&'a Node<T>, usize)>);

/// The steps still to come for a stack of entered nodes.
pub open spec fn remaining_of<T>(stack: Seq<(&Node<T>, usize)>) -> Seq<Event<T>>
    decreases stack.len(),
{
    if stack.len() == 0 {
        Seq::empty()
    } else {
        let (node, at) = stack.last();
        node.events_from(at as nat) + seq![node.post()] + remaining_of(stack.drop_last())
    }
}

impl<'a, T> DfsIter<'a, T> {
    /// No position lies beyond the children of its node.
    pub open spec fn well_formed(self) -> bool {
        forall|i: int|
            0 <= i < self.0@.len() ==> (#[trigger] self.0@[i]).1 <= self.0@[i].0.children@.len()
    }

    /// The steps still to come.
    pub open spec fn remaining(self) -> Seq<Event<T>> {
        remaining_of(self.0@)
    }

    /// A traversal that has just entered `node`.
    pub fn new(node: &'a Node<T>) -> (it: Self)
        ensures
            it.well_formed(),
            it.remaining() == node.events_from(0) + seq![node.post()],
    {
        let mut stack = Vec::new();
        stack.push((node, 0usize));
        proof {
            assert(stack@.drop_last() =~= Seq::empty());
            assert(remaining_of(stack@.drop_last()) =~= Seq::empty());
            assert(stack@.last() == (node, 0usize));
            assert(remaining_of(stack@) =~= node.events_from(0) + seq![node.post()]);
        }
        DfsIter(stack)
    }

    /// The next step: the next child of the innermost node is entered, or,
    /// when it has none left, the node itself is left.
    pub fn next(&mut self) -> (r: Option<(TraversalOrder, NodeRef<'a, T>)>)
        requires
            old(self).well_formed(),
        ensures
            final(self).well_formed(),
            match r {
                Some(step) => old(self).remaining() == seq![reported(step)]
                    + final(self).remaining(),
                None => old(self).remaining().len() == 0 && final(self).0@.len() == 0,
            },
    {
        let (node, at) = match self.0.pop() {
            Some(top) => top,
            None => {
                return None;
            },
        };
        let ghost below = self.0@;
        proof {
            assert(old(self).0@.drop_last() =~= below);
        }
        if at < node.children.len() {
            let child = &node.children[at];
            self.0.push((node, at + 1));
            let ghost mid = self.0@;
            self.0.push((child, 0usize));
            proof {
                assert(mid.drop_last() =~= below);
                assert(self.0@.drop_last() =~= mid);
                assert(mid.last() == (node, (at + 1) as usize));
                assert(self.0@.last() == (child, 0usize));
                assert(remaining_of(mid) == node.events_from((at + 1) as nat) + seq![node.post()]
                    + remaining_of(below));
                assert(self.remaining() == child.events_from(0) + seq![child.post()]
                    + remaining_of(mid));
                assert(node.events_from(at as nat) == child.events() + node.events_from(
                    (at + 1) as nat,
                ));
                assert(child.events() == seq![child.pre()] + child.events_from(0) + seq![
                    child.post(),
                ]);
                assert(old(self).remaining() == node.events_from(at as nat) + seq![node.post()]
                    + remaining_of(below));
                assert(old(self).remaining() =~= seq![child.pre()] + self.remaining());
            }
            Some((TraversalOrder::Pre, NodeRef::of(child)))
        } else {
            proof {
                assert(old(self).remaining() =~= seq![node.post()] + self.remaining());
            }
            Some((TraversalOrder::Post, NodeRef::of(node)))
        }
    }
}

impl<T> Node<T> {
    /// The whole traversal of this subtree, step by step.
    pub fn dfs(&self) -> (steps: Vec<(TraversalOrder, NodeRef<'_, T>)>)
        ensures
            reports(steps@) == self.events(),
    {
        let mut steps = Vec::new();
        steps.push((TraversalOrder::Pre, NodeRef::of(self)));
        let mut it = DfsIter::new(self);
        proof {
            assert(reports(steps@) =~= seq![self.pre()]);
        }
        loop
            invariant
                it.well_formed(),
                reports(steps@) + it.remaining() == self.events(),
            decreases it.remaining().len(),
        {
            let ghost before = reports(steps@);
            match it.next() {
                Some(step) => {
                    steps.push(step);
                    proof {
                        assert(reports(steps@) =~= before + seq![reported(step)]);
                        assert(reports(steps@) + it.remaining() =~= self.events());
                    }
                },
                None => {
                    proof {
                        assert(reports(steps@) =~= self.events());
                    }
                    return steps;
                },
            }
        }
    }
}

} // verus!
