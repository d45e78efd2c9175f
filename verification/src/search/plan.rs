//! Wakeup trees as mathematical values: what planting, seeding and popping do to them.

use vstd::prelude::*;

use crate::model::object::Transition;
use crate::search::clocks::pids;
use crate::search::reversal::{
    goes_on, grafts, grown, pick, stops, walkable, without,
};
use crate::search::wakeup::{is_chain, node, reaches, replaced, Wut};
use crate::theory::behaviour::{step, Beh, Word};
use crate::theory::initials::wi;

verus! {

/// A wakeup tree: each child's planned edge and subtree, in sibling order.
#[verifier::ext_equal]
pub struct Plan {
    /// The children.
    pub kids: Seq<(Transition, Plan)>,
}

/// The mathematical reading of a wakeup tree.
pub open spec fn plan(w: Wut) -> Plan
    decreases w,
{
    Plan {
        kids: Seq::new(
            w.children@.len(),
            |k: int|
                if 0 <= k < w.children@.len() {
                    (w.children@[k].0, plan(w.children@[k].1))
                } else {
                    (w.children@[k].0, Plan { kids: Seq::empty() })
                },
        ),
    }
}

/// A tree without branches.
pub open spec fn leaf() -> Plan {
    Plan { kids: Seq::empty() }
}

/// The tree with the one branch `edges`.
pub open spec fn chain(edges: Seq<Transition>) -> Plan
    decreases edges.len(),
{
    if edges.len() == 0 {
        leaf()
    } else {
        Plan { kids: seq![(edges[0], chain(edges.drop_first()))] }
    }
}

/// The node `depth` first children down.
pub open spec fn at(p: Plan, depth: nat) -> Plan
    decreases depth,
{
    if depth == 0 {
        p
    } else {
        at(p, (depth - 1) as nat).kids[0].1
    }
}

/// The tree with the node `depth` first children down replaced by `n`.
pub open spec fn put(p: Plan, depth: nat, n: Plan) -> Plan
    decreases depth,
{
    if depth == 0 {
        n
    } else {
        let parent = at(p, (depth - 1) as nat);
        put(
            p,
            (depth - 1) as nat,
            Plan { kids: parent.kids.update(0, (parent.kids[0].0, n)) },
        )
    }
}

/// The first child from `k` on whose process is a weak initial of `word`; the number of children
/// if there is none.
pub open spec fn choice(b: Beh, p: Plan, word: Word, k: int) -> int
    decreases p.kids.len() - k,
{
    if k >= p.kids.len() {
        p.kids.len() as int
    } else if wi(b, word, p.kids[k].0.pid) {
        k
    } else {
        choice(b, p, word, k + 1)
    }
}

/// The child that `v` belongs below covers it already, or cannot be followed.
pub open spec fn halts(b: Beh, p: Plan, busy: bool, v: Seq<Transition>) -> bool {
    let k = choice(b, p, pids(v), 0);
    let h = p.kids[k].0.pid;
    busy && k == 0 || p.kids[k].1.kids.len() == 0 || !goes_on(b, h) || !walkable(
        step(b, h),
        pids(without(v, h)),
    )
}

/// The tree after `v` has been planted: below the first child that is a weak initial of `v`, or as
/// a fresh branch if there is none. A leaf on the way covers `v`, and so does the first child
/// while it is being explored.
pub open spec fn sown(b: Beh, p: Plan, busy: bool, v: Seq<Transition>) -> Plan
    decreases p,
{
    let k = choice(b, p, pids(v), 0);
    if k >= p.kids.len() {
        if v.len() == 0 {
            p
        } else {
            Plan { kids: p.kids.push((v[0], chain(v.drop_first()))) }
        }
    } else if halts(b, p, busy, v) || !(0 <= k < p.kids.len()) {
        p
    } else {
        let h = p.kids[k].0.pid;
        Plan {
            kids: p.kids.update(
                k,
                (p.kids[k].0, sown(step(b, h), p.kids[k].1, false, without(v, h))),
            ),
        }
    }
}

/// Planting `v` makes a fresh branch.
pub open spec fn takes_root(b: Beh, p: Plan, busy: bool, v: Seq<Transition>) -> bool
    decreases p,
{
    let k = choice(b, p, pids(v), 0);
    if k >= p.kids.len() {
        v.len() > 0
    } else if halts(b, p, busy, v) || !(0 <= k < p.kids.len()) {
        false
    } else {
        let h = p.kids[k].0.pid;
        takes_root(step(b, h), p.kids[k].1, false, without(v, h))
    }
}

/// Siblings are of different processes, everywhere in the tree.
pub open spec fn forked(p: Plan) -> bool
    decreases p,
{
    &&& forall|i: int, j: int|
        0 <= i < j < p.kids.len() ==> (#[trigger] p.kids[i]).0.pid != (#[trigger] p.kids[j]).0.pid
    &&& forall|k: int| 0 <= k < p.kids.len() ==> forked((#[trigger] p.kids[k]).1)
}

/// The parts of a reading.
pub proof fn lemma_plan(w: Wut)
    ensures
        plan(w).kids.len() == w.len(),
        forall|k: int|
            0 <= k < w.len() ==> (#[trigger] plan(w).kids[k]) == (
                w.children@[k].0,
                plan(w.children@[k].1),
            ),
{
}

/// The reading of a node is the node of the reading.
pub proof fn lemma_plan_at(w: Wut, depth: nat)
    requires
        reaches(w, depth),
    ensures
        plan(node(w, depth)) == at(plan(w), depth),
    decreases depth,
{
    if depth > 0 {
        lemma_plan_at(w, (depth - 1) as nat);
        lemma_plan(node(w, (depth - 1) as nat));
    }
}

/// A chain reads as a chain.
pub proof fn lemma_plan_chain(w: Wut, edges: Seq<Transition>)
    requires
        is_chain(w, edges),
    ensures
        plan(w) == chain(edges),
    decreases edges.len(),
{
    lemma_plan(w);
    if edges.len() > 0 {
        lemma_plan_chain(w.sub(0), edges.drop_first());
        assert(plan(w).kids =~= chain(edges).kids);
    } else {
        assert(plan(w).kids =~= leaf().kids);
    }
}

/// Replacing a node replaces it in the reading.
pub proof fn lemma_plan_put(before: Wut, after: Wut, depth: nat, n: Wut)
    requires
        reaches(before, depth),
        replaced(before, after, depth, n),
    ensures
        plan(after) == put(plan(before), depth, plan(n)),
    decreases depth,
{
    if depth > 0 {
        let d = (depth - 1) as nat;
        let parent = node(after, d);
        lemma_plan_put(before, after, d, parent);
        lemma_plan_at(before, d);
        lemma_plan(parent);
        lemma_plan(node(before, d));
        let old_kids = plan(node(before, d)).kids;
        assert(parent.sub(0) == n);
        assert(plan(parent).kids =~= old_kids.update(0, (old_kids[0].0, plan(n)))) by {
            assert(parent.len() == node(before, d).len());
            assert forall|k: int| 0 <= k < old_kids.len() implies #[trigger] plan(parent).kids[k]
                == old_kids.update(0, (old_kids[0].0, plan(n)))[k] by {
                if k >= 1 {
                    assert(parent.children@[k] == node(before, d).children@[k]);
                }
            }
        }
    }
}

/// Children are chosen alike.
proof fn lemma_plan_choice(b: Beh, w: Wut, word: Word, k: int)
    requires
        0 <= k,
    ensures
        choice(b, plan(w), word, k) == pick(b, w, word, k),
        k <= w.len() ==> k <= pick(b, w, word, k) <= w.len(),
    decreases w.len() - k,
{
    lemma_plan(w);
    if k < w.len() {
        lemma_plan_choice(b, w, word, k + 1);
    }
}

/// Growing a node sows in its reading.
pub proof fn lemma_plan_grown(b: Beh, before: Wut, after: Wut, busy: bool, v: Seq<Transition>)
    requires
        grown(b, before, after, busy, v),
    ensures
        plan(after) == sown(b, plan(before), busy, v),
        grafts(b, before, busy, v) == takes_root(b, plan(before), busy, v),
    decreases before,
{
    let k = pick(b, before, pids(v), 0);
    lemma_plan_choice(b, before, pids(v), 0);
    lemma_plan(before);
    lemma_plan(after);
    if k >= before.len() {
        if v.len() > 0 {
            let last = after.children@.last();
            lemma_plan_chain(last.1, v.drop_first());
            assert(plan(after).kids =~= plan(before).kids.push((v[0], chain(v.drop_first())))) by {
                assert forall|j: int| 0 <= j < before.len() implies plan(after).kids[j] == plan(
                    before,
                ).kids[j] by {
                    assert(after.children@.drop_last()[j] == after.children@[j]);
                }
            }
        }
    } else {
        lemma_plan(before.sub(k));
        assert(stops(b, before, busy, v) == halts(b, plan(before), busy, v));
        if !stops(b, before, busy, v) {
            let h = before.head(k);
            lemma_plan_grown(
                step(b, h),
                before.children@[k].1,
                after.children@[k].1,
                false,
                without(v, h),
            );
            assert(plan(after).kids =~= sown(b, plan(before), busy, v).kids);
        }
    }
}

/// What replacing a node does to the nodes on the way down: the replaced node is the new one, those
/// above keep their edges, and those below stay if the first child does.
pub proof fn lemma_at_put(p: Plan, depth: nat, n: Plan, m: nat)
    requires
        forall|k: nat| k < depth ==> #[trigger] at(p, k).kids.len() > 0,
    ensures
        m == depth ==> at(put(p, depth, n), m) == n,
        m < depth ==> {
            let q = at(put(p, depth, n), m);
            &&& q.kids.len() == at(p, m).kids.len()
            &&& forall|k: int| 0 <= k < q.kids.len() ==> (#[trigger] q.kids[k]).0 == at(p, m).kids[k].0
        },
        m > depth && n.kids.len() > 0 && at(p, depth).kids.len() > 0 && n.kids[0] == at(
            p,
            depth,
        ).kids[0] ==> at(put(p, depth, n), m) == at(p, m),
    decreases depth, m,
{
    if m > depth {
        lemma_at_put(p, depth, n, (m - 1) as nat);
    } else if depth > 0 {
        let d = (depth - 1) as nat;
        let parent = at(p, d);
        assert(at(p, d).kids.len() > 0);
        let q = Plan { kids: parent.kids.update(0, (parent.kids[0].0, n)) };
        lemma_at_put(p, d, q, d);
        if m < d {
            lemma_at_put(p, d, q, m);
        }
    }
}

/// A node of a forked tree is forked.
pub proof fn lemma_forked_at(p: Plan, depth: nat)
    requires
        forked(p),
        forall|m: nat| m < depth ==> #[trigger] at(p, m).kids.len() > 0,
    ensures
        forked(at(p, depth)),
    decreases depth,
{
    if depth > 0 {
        let d = (depth - 1) as nat;
        lemma_forked_at(p, d);
        assert(at(p, d).kids.len() > 0);
        let kid = at(p, d).kids[0];
    }
}

/// A forked tree stays forked when a node is replaced by a forked one.
pub proof fn lemma_forked_put(p: Plan, depth: nat, n: Plan)
    requires
        forked(p),
        forked(n),
        forall|m: nat| m < depth ==> #[trigger] at(p, m).kids.len() > 0,
    ensures
        forked(put(p, depth, n)),
    decreases depth,
{
    if depth > 0 {
        let d = (depth - 1) as nat;
        lemma_forked_at(p, d);
        let parent = at(p, d);
        assert(parent.kids.len() > 0);
        let q = Plan { kids: parent.kids.update(0, (parent.kids[0].0, n)) };
        assert(forked(q)) by {
            assert forall|i: int, j: int| 0 <= i < j < q.kids.len() implies (
            #[trigger] q.kids[i]).0.pid != (#[trigger] q.kids[j]).0.pid by {
                assert(parent.kids[i].0.pid != parent.kids[j].0.pid);
            }
            assert forall|k: int| 0 <= k < q.kids.len() implies forked((#[trigger] q.kids[k]).1) by {
                if k > 0 {
                    assert(forked(parent.kids[k].1));
                }
            }
        }
        lemma_forked_put(p, d, q);
    }
}

/// Without its first branch a node is forked too.
pub proof fn lemma_forked_less(p: Plan)
    requires
        forked(p),
        p.kids.len() > 0,
    ensures
        forked(Plan { kids: p.kids.remove(0) }),
{
    let q = Plan { kids: p.kids.remove(0) };
    assert forall|i: int, j: int| 0 <= i < j < q.kids.len() implies (
    #[trigger] q.kids[i]).0.pid != (#[trigger] q.kids[j]).0.pid by {
        assert(p.kids[i + 1].0.pid != p.kids[j + 1].0.pid);
    }
    assert forall|k: int| 0 <= k < q.kids.len() implies forked((#[trigger] q.kids[k]).1) by {
        assert(forked(p.kids[k + 1].1));
    }
}

/// Planting at a node whose first child is being explored leaves that child alone.
pub proof fn lemma_sown_first(b: Beh, p: Plan, v: Seq<Transition>)
    requires
        p.kids.len() > 0,
    ensures
        sown(b, p, true, v).kids.len() > 0,
        sown(b, p, true, v).kids[0] == p.kids[0],
{
    lemma_choice(b, p, pids(v), 0);
}

/// A chain is forked.
pub proof fn lemma_forked_chain(edges: Seq<Transition>)
    ensures
        forked(chain(edges)),
    decreases edges.len(),
{
    if edges.len() > 0 {
        lemma_forked_chain(edges.drop_first());
    }
}

/// Which children are not chosen, are not weak initials.
proof fn lemma_choice(b: Beh, p: Plan, word: Word, k: int)
    requires
        0 <= k <= p.kids.len(),
    ensures
        k <= choice(b, p, word, k) <= p.kids.len(),
        forall|j: int|
            k <= j < choice(b, p, word, k) ==> !wi(b, word, (#[trigger] p.kids[j]).0.pid),
        choice(b, p, word, k) < p.kids.len() ==> wi(
            b,
            word,
            p.kids[choice(b, p, word, k)].0.pid,
        ),
    decreases p.kids.len() - k,
{
    if k < p.kids.len() && !wi(b, word, p.kids[k].0.pid) {
        lemma_choice(b, p, word, k + 1);
    }
}

/// Planting a fragment that can be walked keeps siblings apart; the node itself gets at most the
/// fragment's first process as a new child.
pub proof fn lemma_forked_sown(b: Beh, p: Plan, busy: bool, v: Seq<Transition>)
    requires
        forked(p),
        walkable(b, pids(v)),
    ensures
        forked(sown(b, p, busy, v)),
        sown(b, p, busy, v).kids.len() >= p.kids.len(),
        forall|k: int|
            0 <= k < p.kids.len() ==> (#[trigger] sown(b, p, busy, v).kids[k]).0 == p.kids[k].0,
        sown(b, p, busy, v).kids.len() > p.kids.len() ==> sown(b, p, busy, v).kids.len()
            == p.kids.len() + 1 && v.len() > 0 && sown(b, p, busy, v).kids.last().0 == v[0]
            && wi(b, pids(v), v[0].pid),
    decreases p,
{
    let k = choice(b, p, pids(v), 0);
    let q = sown(b, p, busy, v);
    lemma_choice(b, p, pids(v), 0);
    if k >= p.kids.len() {
        if v.len() > 0 {
            assert(pids(v)[0] == v[0].pid);
            assert(wi(b, pids(v), v[0].pid));
            lemma_forked_chain(v.drop_first());
            assert forall|i: int, j: int| 0 <= i < j < q.kids.len() implies (
            #[trigger] q.kids[i]).0.pid != (#[trigger] q.kids[j]).0.pid by {
                if j == p.kids.len() {
                    assert(!wi(b, pids(v), p.kids[i].0.pid));
                } else {
                    assert(p.kids[i].0.pid != p.kids[j].0.pid);
                }
            }
            assert forall|i: int| 0 <= i < q.kids.len() implies forked((#[trigger] q.kids[i]).1) by {
                if i < p.kids.len() {
                    assert(forked(p.kids[i].1));
                }
            }
        }
    } else if !halts(b, p, busy, v) {
        let h = p.kids[k].0.pid;
        assert(forked(p.kids[k].1));
        lemma_forked_sown(step(b, h), p.kids[k].1, false, without(v, h));
        assert forall|i: int, j: int| 0 <= i < j < q.kids.len() implies (
        #[trigger] q.kids[i]).0.pid != (#[trigger] q.kids[j]).0.pid by {
            assert(p.kids[i].0.pid != p.kids[j].0.pid);
        }
        assert forall|i: int| 0 <= i < q.kids.len() implies forked((#[trigger] q.kids[i]).1) by {
            if i != k {
                assert(forked(p.kids[i].1));
            }
        }
    }
}

/// Planting a fragment a second time finds it covered and changes nothing: what `insert` does to a
/// node that it has just planted `v` in.
pub proof fn lemma_insert_twice(
    b: Beh,
    before: Wut,
    once: Wut,
    twice: Wut,
    busy: bool,
    v: Seq<Transition>,
)
    requires
        walkable(b, pids(v)),
        grown(b, before, once, busy, v),
        grown(b, once, twice, busy, v),
    ensures
        !grafts(b, once, busy, v),
        plan(twice) == plan(once),
{
    lemma_plan_grown(b, before, once, busy, v);
    lemma_plan_grown(b, once, twice, busy, v);
    lemma_sown_twice(b, plan(before), busy, v);
}

/// Planting a fragment a second time finds it covered and changes nothing.
pub proof fn lemma_sown_twice(b: Beh, p: Plan, busy: bool, v: Seq<Transition>)
    requires
        walkable(b, pids(v)),
    ensures
        sown(b, sown(b, p, busy, v), busy, v) == sown(b, p, busy, v),
        !takes_root(b, sown(b, p, busy, v), busy, v),
    decreases p,
{
    let k = choice(b, p, pids(v), 0);
    let q = sown(b, p, busy, v);
    lemma_choice(b, p, pids(v), 0);
    if k >= p.kids.len() {
        if v.len() > 0 {
            assert(pids(v)[0] == v[0].pid);
            assert(wi(b, pids(v), v[0].pid));
            lemma_choice_same(b, p, q, pids(v), 0);
            assert(choice(b, q, pids(v), 0) == p.kids.len());
            assert(pids(v).drop_first() =~= pids(v.drop_first()));
            lemma_sown_chain(step(b, v[0].pid), v.drop_first());
            assert(without(v, v[0].pid) == v.drop_first());
            assert(q.kids.update(k, q.kids[k]) =~= q.kids);
        }
    } else if !halts(b, p, busy, v) {
        let h = p.kids[k].0.pid;
        let sub = p.kids[k].1;
        lemma_choice_heads(b, p, q, pids(v), 0);
        lemma_sown_twice(step(b, h), sub, false, without(v, h));
        lemma_sown_len(step(b, h), sub, false, without(v, h));
        assert(q.kids[k].0 == p.kids[k].0);
        assert(q.kids.update(k, q.kids[k]) =~= q.kids);
    }
}

/// A choice looks at the edges alone.
proof fn lemma_choice_heads(b: Beh, p: Plan, q: Plan, word: Word, k: int)
    requires
        0 <= k,
        q.kids.len() == p.kids.len(),
        forall|i: int| 0 <= i < p.kids.len() ==> (#[trigger] q.kids[i]).0 == p.kids[i].0,
    ensures
        choice(b, q, word, k) == choice(b, p, word, k),
    decreases p.kids.len() - k,
{
    if k < p.kids.len() {
        lemma_choice_heads(b, p, q, word, k + 1);
        assert(q.kids[k].0 == p.kids[k].0);
    }
}

/// A new last child that is a weak initial is chosen where none was.
proof fn lemma_choice_same(b: Beh, p: Plan, q: Plan, word: Word, k: int)
    requires
        0 <= k <= p.kids.len(),
        choice(b, p, word, k) == p.kids.len(),
        q.kids.len() == p.kids.len() + 1,
        forall|i: int| 0 <= i < p.kids.len() ==> (#[trigger] q.kids[i]).0 == p.kids[i].0,
        wi(b, word, q.kids[p.kids.len() as int].0.pid),
    ensures
        choice(b, q, word, k) == p.kids.len(),
    decreases p.kids.len() - k,
{
    lemma_choice(b, p, word, k);
    if k < p.kids.len() {
        assert(!wi(b, word, p.kids[k].0.pid));
        assert(q.kids[k].0 == p.kids[k].0);
        lemma_choice_same(b, p, q, word, k + 1);
    }
}

/// Planting loses no child.
proof fn lemma_sown_len(b: Beh, p: Plan, busy: bool, v: Seq<Transition>)
    ensures
        sown(b, p, busy, v).kids.len() >= p.kids.len(),
{
    lemma_choice(b, p, pids(v), 0);
}

/// A chain covers the fragment that it is made of.
proof fn lemma_sown_chain(b: Beh, v: Seq<Transition>)
    requires
        walkable(b, pids(v)),
    ensures
        v.len() > 0 ==> sown(b, chain(v), false, v) == chain(v),
        v.len() > 0 ==> !takes_root(b, chain(v), false, v),
    decreases v.len(),
{
    if v.len() > 0 {
        let c = chain(v);
        assert(pids(v)[0] == v[0].pid);
        assert(wi(b, pids(v), v[0].pid));
        assert(choice(b, c, pids(v), 0) == 0);
        assert(without(v, v[0].pid) == v.drop_first());
        if !halts(b, c, false, v) {
            assert(pids(v).drop_first() =~= pids(v.drop_first()));
            lemma_sown_chain(step(b, v[0].pid), v.drop_first());
            assert(c.kids.update(0, c.kids[0]) =~= c.kids);
        }
    }
}

} // verus!
