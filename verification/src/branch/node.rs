//! A tree that holds its items in its leaves, and a walk over them from
//! left to right.

use vstd::prelude::*;
use vstd::slice::slice_subrange;

verus! {

/// `core::slice::from_ref` views one value as a slice of length one that
/// holds that value.
pub assume_specification<T>[ core::slice::from_ref::<T> ](s: &T) -> (row: &[T])
    ensures
        row@ == seq![*s],
;

/// A tree: an item, or a row of trees.
pub enum Node<It> {
    Leaf(It),
    Children(Vec<Node<It>>),
}

/// The items of a tree, from left to right.
pub open spec fn leaves<It>(node: Node<It>) -> Seq<It>
    decreases node, 0nat,
{
    match node {
        Node::Leaf(item) => seq![item],
        Node::Children(children) => row_leaves(children@, children@.len()),
    }
}

/// The items of the first `k` trees of a row, from left to right.
pub open spec fn row_leaves<It>(row: Seq<Node<It>>, k: nat) -> Seq<It>
    decreases row, k,
{
    if k == 0 || k > row.len() {
        Seq::empty()
    } else {
        row_leaves(row, (k - 1) as nat) + leaves(row[k - 1])
    }
}

/// The items of a row from its tree `from` on, from left to right.
pub open spec fn rest_leaves<It>(row: Seq<Node<It>>, from: int) -> Seq<It> {
    row_leaves(row.subrange(from, row.len() as int), (row.len() - from) as nat)
}

/// How many trees a tree holds, itself and every tree below it counted.
pub open spec fn weight<It>(node: Node<It>) -> nat
    decreases node, 0nat,
{
    match node {
        Node::Leaf(_) => 1,
        Node::Children(children) => 1 + row_weight(children@, children@.len()),
    }
}

/// How many trees the first `k` trees of a row hold.
pub open spec fn row_weight<It>(row: Seq<Node<It>>, k: nat) -> nat
    decreases row, k,
{
    if k == 0 || k > row.len() {
        0
    } else {
        row_weight(row, (k - 1) as nat) + weight(row[k - 1])
    }
}

/// The items of a row are those of its first tree, then those of the rest.
pub proof fn lemma_row_split<It>(row: Seq<Node<It>>, k: nat)
    requires
        1 <= k <= row.len(),
    ensures
        row_leaves(row, k) == leaves(row[0]) + row_leaves(
            row.subrange(1, row.len() as int),
            (k - 1) as nat,
        ),
        row_weight(row, k) == weight(row[0]) + row_weight(
            row.subrange(1, row.len() as int),
            (k - 1) as nat,
        ),
    decreases k,
{
    let tail = row.subrange(1, row.len() as int);
    if k == 1 {
        assert(row_leaves(row, 0) == Seq::<It>::empty());
        assert(row_leaves(tail, 0) == Seq::<It>::empty());
        assert(row_leaves(row, 1) == Seq::<It>::empty() + leaves(row[0]));
        assert(Seq::<It>::empty() + leaves(row[0]) =~= leaves(row[0]) + Seq::<It>::empty());
        assert(row_weight(row, 0) == 0);
        assert(row_weight(tail, 0) == 0);
    } else {
        lemma_row_split(row, (k - 1) as nat);
        assert(tail[k - 2] == row[k - 1]);
        assert((leaves(row[0]) + row_leaves(tail, (k - 2) as nat)) + leaves(row[k - 1]) =~= leaves(
            row[0],
        ) + (row_leaves(tail, (k - 2) as nat) + leaves(row[k - 1])));
    }
}

/// A walk over the items of a tree, from left to right.
pub struct NodeIter<'a, It> {
    /// What is left of the row the walk is in.
    pub children: &'a [Node<It>],
    /// The walk to go on with once this row is done.
    pub parent: Option<Box<NodeIter<'a, It>>>,
}

/// The items a walk still has to yield, in order.
pub open spec fn remaining<It>(walk: NodeIter<'_, It>) -> Seq<It>
    decreases walk,
{
    row_leaves(walk.children@, walk.children@.len()) + match walk.parent {
        Some(outer) => remaining(*outer),
        None => Seq::empty(),
    }
}

/// The work a walk has left once its present row is done.
pub open spec fn effort_above<It>(walk: NodeIter<'_, It>) -> nat {
    match walk.parent {
        Some(outer) => 1 + effort(*outer),
        None => 0,
    }
}

/// The items a walk has to yield once its present row is done.
pub open spec fn remaining_above<It>(walk: NodeIter<'_, It>) -> Seq<It> {
    match walk.parent {
        Some(outer) => remaining(*outer),
        None => Seq::empty(),
    }
}

/// How much work a walk has left: two for every tree it still holds, one
/// for every row it has to come back to.
pub open spec fn effort<It>(walk: NodeIter<'_, It>) -> nat
    decreases walk,
{
    2 * row_weight(walk.children@, walk.children@.len()) + match walk.parent {
        Some(outer) => 1 + effort(*outer),
        None => 0,
    }
}

impl<It> Node<It> {
    /// A walk over the items of this tree.
    pub fn iter(&self) -> (walk: NodeIter<'_, It>)
        ensures
            remaining(walk) == leaves(*self),
    {
        let walk = NodeIter { children: core::slice::from_ref(self), parent: None };
        proof {
            assert(walk.children@ == seq![*self]);
            assert(row_leaves(walk.children@, 0) == Seq::<It>::empty());
            assert(row_leaves(walk.children@, 1) == Seq::<It>::empty() + leaves(*self));
            assert(remaining(walk) =~= leaves(*self));
        }
        walk
    }
}

impl<'a, It> NodeIter<'a, It> {
    /// The next item, or `None` when the walk is over.
    pub fn next(&mut self) -> (item: Option<&'a It>)
        ensures
            match item {
                Some(found) => {
                    &&& remaining(*old(self)).len() > 0
                    &&& *found == remaining(*old(self))[0]
                    &&& remaining(*final(self)) == remaining(*old(self)).drop_first()
                },
                None => {
                    &&& remaining(*old(self)).len() == 0
                    &&& remaining(*final(self)).len() == 0
                },
            },
    {
        loop
            invariant
                remaining(*self) == remaining(*old(self)),
            decreases effort(*self),
        {
            let row: &'a [Node<It>] = self.children;
            let ghost before = effort(*self);
            assert(before == 2 * row_weight(row@, row@.len()) + effort_above(*self));
            if row.len() == 0 {
                assert(row_leaves(row@, 0) == Seq::<It>::empty());
                assert(row_weight(row@, 0) == 0);
                match self.parent.take() {
                    Some(outer) => {
                        assert(remaining(*old(self)) =~= remaining(*outer));
                        assert(before == 1 + effort(*outer));
                        *self = *outer;
                    },
                    None => {
                        return None;
                    },
                }
            } else {
                let rest: &'a [Node<It>] = slice_subrange(row, 1, row.len());
                proof {
                    lemma_row_split(row@, row@.len());
                }
                match &row[0] {
                    Node::Leaf(item) => {
                        self.children = rest;
                        proof {
                            assert(leaves(row@[0]) == seq![*item]);
                            let inner = row_leaves(rest@, rest@.len());
                            let outer = remaining_above(*self);
                            assert((seq![*item] + inner) + outer =~= seq![*item] + (inner + outer));
                            assert((seq![*item] + (inner + outer)).drop_first() =~= inner + outer);
                        }
                        return Some(item);
                    },
                    Node::Children(children) => {
                        let back = NodeIter { children: rest, parent: self.parent.take() };
                        let ghost now = row_leaves(children@, children@.len());
                        proof {
                            let inner = row_leaves(rest@, rest@.len());
                            let outer = remaining_above(back);
                            assert(remaining(back) == inner + outer);
                            assert((now + inner) + outer =~= now + (inner + outer));
                            assert(weight(row@[0]) == 1 + row_weight(children@, children@.len()));
                            assert(effort(back) == 2 * row_weight(rest@, rest@.len()) + effort_above(
                                back,
                            ));
                        }
                        self.children = children.as_slice();
                        self.parent = Some(Box::new(back));
                        assert(effort(*self) == 2 * row_weight(children@, children@.len()) + 1
                            + effort(back));
                    },
                }
            }
        }
    }
}

/// A walk over the items of a tree, from left to right, that hands each
/// item out to be changed.
pub struct NodeIterMut<'a, It> {
    /// The trees still to be walked; the next one is the last.
    pub pending: Vec<&'a mut Node<It>>,
}

/// The items of the trees of a row from tree `from` on, from left to
/// right.
pub open spec fn tail_leaves<It>(row: Seq<Node<It>>, from: int) -> Seq<It>
    decreases row.len() - from,
{
    if from < 0 || from >= row.len() {
        Seq::empty()
    } else {
        leaves(row[from]) + tail_leaves(row, from + 1)
    }
}

/// How many trees the trees of a row from tree `from` on hold.
pub open spec fn tail_weight<It>(row: Seq<Node<It>>, from: int) -> nat
    decreases row.len() - from,
{
    if from < 0 || from >= row.len() {
        0
    } else {
        weight(row[from]) + tail_weight(row, from + 1)
    }
}

/// The items of the pending trees, in the order in which the walk comes to
/// them: the last pending tree first.
pub open spec fn pending_leaves<It>(pending: Seq<&mut Node<It>>) -> Seq<It>
    decreases pending.len(),
{
    if pending.len() == 0 {
        Seq::empty()
    } else {
        leaves(*pending.last()) + pending_leaves(pending.drop_last())
    }
}

/// How many trees the pending trees hold.
pub open spec fn pending_weight<It>(pending: Seq<&mut Node<It>>) -> nat
    decreases pending.len(),
{
    if pending.len() == 0 {
        0
    } else {
        weight(*pending.last()) + pending_weight(pending.drop_last())
    }
}

/// The items a changing walk still has to yield, in order, as they now
/// are.
pub open spec fn remaining_mut<It>(walk: NodeIterMut<'_, It>) -> Seq<It> {
    pending_leaves(walk.pending@)
}

/// The items of a row are those of its first trees, then those of the
/// rest.
pub proof fn lemma_row_tail<It>(row: Seq<Node<It>>, k: nat)
    requires
        k <= row.len(),
    ensures
        row_leaves(row, k) + tail_leaves(row, k as int) == row_leaves(row, row.len()),
        row_weight(row, k) + tail_weight(row, k as int) == row_weight(row, row.len()),
    decreases row.len() - k,
{
    if k < row.len() {
        lemma_row_tail(row, k + 1);
        assert((row_leaves(row, k) + leaves(row[k as int])) + tail_leaves(row, k as int + 1)
            =~= row_leaves(row, k) + (leaves(row[k as int]) + tail_leaves(row, k as int + 1)));
    } else {
        assert(row_leaves(row, k) + Seq::<It>::empty() =~= row_leaves(row, k));
    }
}

impl<It> Node<It> {
    /// A walk over the items of this tree that hands each out to be
    /// changed.
    pub fn iter_mut(&mut self) -> (walk: NodeIterMut<'_, It>)
        ensures
            remaining_mut(walk) == leaves(*old(self)),
    {
        let mut pending: Vec<&mut Node<It>> = Vec::new();
        pending.push(self);
        proof {
            assert(pending@.drop_last().len() == 0);
            assert(pending_leaves(pending@.drop_last()) == Seq::<It>::empty());
            assert(pending_leaves(pending@) =~= leaves(*old(self)));
        }
        NodeIterMut { pending }
    }
}

impl<'a, It> NodeIterMut<'a, It> {
    /// The next item, to be changed in place, or `None` when the walk is
    /// over.
    pub fn next(&mut self) -> (item: Option<&'a mut It>)
        ensures
            match item {
                Some(found) => {
                    &&& remaining_mut(*old(self)).len() > 0
                    &&& *found == remaining_mut(*old(self))[0]
                    &&& remaining_mut(*final(self)) == remaining_mut(*old(self)).drop_first()
                },
                None => {
                    &&& remaining_mut(*old(self)).len() == 0
                    &&& remaining_mut(*final(self)).len() == 0
                },
            },
    {
        loop
            invariant
                remaining_mut(*self) == remaining_mut(*old(self)),
            decreases pending_weight(self.pending@),
        {
            let ghost before = self.pending@;
            let node: &'a mut Node<It> = match self.pending.pop() {
                Some(node) => node,
                None => {
                    return None;
                },
            };
            assert(self.pending@ == before.drop_last());
            match node {
                Node::Leaf(item) => {
                    proof {
                        let rest = pending_leaves(self.pending@);
                        assert((seq![*item] + rest).drop_first() =~= rest);
                    }
                    return Some(item);
                },
                Node::Children(children) => {
                    let ghost row = children@;
                    let ghost base = self.pending@;
                    let mut rest: &'a mut [Node<It>] = children.as_mut_slice();
                    proof {
                        lemma_row_tail(row, 0);
                        assert(tail_leaves(row, row.len() as int) == Seq::<It>::empty());
                        assert(Seq::<It>::empty() + pending_leaves(base) =~= pending_leaves(base));
                        assert(rest@ == row.subrange(0, row.len() as int));
                    }
                    while rest.len() > 0
                        invariant
                            rest@ == row.subrange(0, rest@.len() as int),
                            rest@.len() <= row.len(),
                            pending_leaves(self.pending@) == tail_leaves(row, rest@.len() as int)
                                + pending_leaves(base),
                            pending_weight(self.pending@) == tail_weight(row, rest@.len() as int)
                                + pending_weight(base),
                        decreases rest@.len(),
                    {
                        let whole = rest;
                        let k = whole.len() - 1;
                        let (head, tail) = whole.split_at_mut(k);
                        let ghost stack = self.pending@;
                        match tail.first_mut() {
                            Some(last) => {
                                assert(*last == row[k as int]);
                                self.pending.push(last);
                                proof {
                                    assert(self.pending@.drop_last() == stack);
                                    assert((leaves(row[k as int]) + tail_leaves(row, k + 1))
                                        + pending_leaves(base) =~= leaves(row[k as int]) + (
                                    tail_leaves(row, k + 1) + pending_leaves(base)));
                                }
                            },
                            None => {},
                        }
                        rest = head;
                        assert(rest@ =~= row.subrange(0, k as int));
                    }
                    proof {
                        lemma_row_tail(row, 0);
                        assert(row_leaves(row, 0) == Seq::<It>::empty());
                        assert(Seq::<It>::empty() + tail_leaves(row, 0) =~= tail_leaves(row, 0));
                    }
                },
            }
        }
    }
}

} // verus!
