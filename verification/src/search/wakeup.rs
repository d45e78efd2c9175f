//! The search's bookkeeping: the wakeup tree of planned branches and the per-prefix frames.

use vstd::prelude::*;

use crate::model::object::Transition;
use crate::model::process::ProcessID;

verus! {

/// One wakeup-tree node: children in sibling order, `children[0]` the one explored first;
/// [`graft`](Wut::graft) appends new branches at the back. Each edge carries its planned
/// transition but is matched by `pid` (the per-object `seq` is not stable across
/// interleavings).
pub struct Wut {
    /// Each child's planned edge and subtree.
    pub children: Vec<(Transition, Wut)>,
}

impl Wut {
    /// The number of children.
    pub open spec fn len(self) -> nat {
        self.children@.len()
    }

    /// The process of child `k`'s edge.
    pub open spec fn head(self, k: int) -> ProcessID {
        self.children@[k].0.pid
    }

    /// The subtree below child `k`.
    pub open spec fn sub(self, k: int) -> Wut {
        self.children@[k].1
    }
}

/// The tree is a single chain with the edges `seq`.
pub open spec fn is_chain(w: Wut, seq: Seq<Transition>) -> bool
    decreases seq.len(),
{
    if seq.len() == 0 {
        w.len() == 0
    } else {
        w.len() == 1 && w.children@[0].0 == seq[0] && is_chain(w.sub(0), seq.drop_first())
    }
}

/// The node `depth` first children below `w`.
pub open spec fn node(w: Wut, depth: nat) -> Wut
    decreases depth,
{
    if depth == 0 {
        w
    } else {
        node(w, (depth - 1) as nat).sub(0)
    }
}

/// There is a node `depth` first children below `w`.
pub open spec fn reaches(w: Wut, depth: nat) -> bool
    decreases depth,
{
    depth == 0 || reaches(w, (depth - 1) as nat) && node(w, (depth - 1) as nat).len() > 0
}

/// The driver follows first children: the tree has a node for every prefix, and the edges down
/// to it are the processes of `prefix`.
pub open spec fn spine(tree: Wut, prefix: Seq<Transition>) -> bool {
    &&& reaches(tree, prefix.len())
    &&& forall|m: nat|
        m < prefix.len() ==> #[trigger] node(tree, m).len() > 0 && node(tree, m).head(0)
            == prefix[m as int].pid
}

impl Wut {
    /// A node without children.
    pub fn new() -> (w: Wut)
        ensures
            w.len() == 0,
    {
        Wut { children: Vec::new() }
    }

    /// Each child's planned edge and subtree.
    pub fn children(&self) -> (c: &Vec<(Transition, Wut)>)
        ensures
            c == self.children,
    {
        &self.children
    }

    /// A single chain with the edges `seq`, from position `from` on.
    pub(crate) fn chain(seq: &[Transition], from: usize) -> (w: Wut)
        requires
            from <= seq@.len(),
        ensures
            is_chain(w, seq@.skip(from as int)),
        decreases seq@.len() - from,
    {
        let mut w = Wut::new();
        if from < seq.len() {
            let branch = Wut::chain(seq, from + 1);
            assert(seq@.skip(from as int).drop_first() =~= seq@.skip(from + 1));
            w.children.push((seq[from], branch));
        }
        w
    }

    /// Appends `seq` as a fresh branch after the existing children.
    pub fn graft(&mut self, seq: &[Transition])
        ensures
            seq@.len() == 0 ==> *final(self) == *old(self),
            seq@.len() > 0 ==> {
                &&& final(self).len() == old(self).len() + 1
                &&& final(self).children@.drop_last() == old(self).children@
                &&& final(self).children@.last().0 == seq@[0]
                &&& is_chain(final(self).children@.last().1, seq@.drop_first())
            },
    {
        if seq.len() > 0 {
            let branch = Wut::chain(seq, 1);
            assert(seq@.skip(1) =~= seq@.drop_first());
            self.children.push((seq[0], branch));
            assert(self.children@.drop_last() =~= old(self).children@);
        }
    }
}

/// Stack metadata for the prefix it describes, captured while that prefix was live so the
/// search can reason about it after stepping past it. `sleep` is the prefix's sleep set
/// (filtered into children on descent, grown on backtrack); `pending` is each enabled process's
/// next operation. `explored` says which processes the search has gone on with from the prefix
/// and come back from.
pub struct Frame {
    /// The processes asleep at the prefix.
    pub sleep: Vec<ProcessID>,
    /// What could be applied at the prefix.
    pub pending: Vec<Transition>,
    /// The processes whose branches from the prefix are done.
    pub explored: Ghost<Seq<ProcessID>>,
}

impl Frame {
    /// The processes asleep at the prefix.
    pub fn sleep(&self) -> (s: &[ProcessID])
        ensures
            s@ == self.sleep@,
    {
        self.sleep.as_slice()
    }

    /// What could be applied at the prefix.
    pub fn pending(&self) -> (ts: &[Transition])
        ensures
            ts@ == self.pending@,
    {
        self.pending.as_slice()
    }
}

/// The node `depth` first children below `root`: the all-front-child descent the driver
/// always follows.
pub fn node_at(root: &Wut, depth: usize) -> (n: &Wut)
    requires
        reaches(*root, depth as nat),
    ensures
        *n == node(*root, depth as nat),
    decreases depth,
{
    if depth == 0 {
        root
    } else {
        &node_at(root, depth - 1).children[0].1
    }
}

/// As [`node_at`], for changing the node.
pub fn node_at_mut(root: &mut Wut, depth: usize) -> (n: &mut Wut)
    requires
        reaches(*old(root), depth as nat),
    ensures
        *n == node(*old(root), depth as nat),
        replaced(*old(root), *final(root), depth as nat, *final(n)),
    decreases depth,
{
    if depth == 0 {
        root
    } else {
        let parent = node_at_mut(root, depth - 1);
        &mut parent.children[0].1
    }
}

/// `after` is `before` with the node `depth` first children below it replaced by `n`.
pub open spec fn replaced(before: Wut, after: Wut, depth: nat, n: Wut) -> bool {
    &&& reaches(after, depth)
    &&& node(after, depth) == n
    &&& forall|m: nat|
        m < depth ==> {
            &&& (#[trigger] node(after, m)).len() == node(before, m).len()
            &&& node(after, m).children@[0].0 == node(before, m).children@[0].0
            &&& forall|k: int|
                1 <= k < node(before, m).len() ==> node(after, m).children@[k] == node(
                    before,
                    m,
                ).children@[k]
        }
}

} // verus!
