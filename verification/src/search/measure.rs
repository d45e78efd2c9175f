//! Why the search ends: every node has at most as many branches as there are processes.

use vstd::prelude::*;

use crate::theory::behaviour::Word;

verus! {

/// The search steps that a node may cost at most, with `h` levels below it.
pub open spec fn cost(procs: nat, h: nat) -> nat
    decreases h,
{
    if h == 0 {
        1
    } else {
        procs * cost(procs, (h - 1) as nat) + 1
    }
}

/// What is left to pay: `used[m]` branches of the node at depth `m` are paid for.
pub open spec fn debt(procs: nat, height: nat, used: Seq<nat>) -> int
    decreases used.len(),
{
    if used.len() == 0 {
        0
    } else {
        debt(procs, height, used.drop_last()) + (procs - used.last()) * cost(
            procs,
            (height - (used.len() - 1)) as nat,
        )
    }
}

/// The branches paid for, by depth: those explored, and the one under way.
pub open spec fn used(tours: Seq<Word>) -> Seq<nat> {
    Seq::new(
        tours.len(),
        |m: int|
            tours[m].len() + if m + 1 < tours.len() {
                1nat
            } else {
                0nat
            },
    )
}

/// Different processes below `n` are at most `n`.
pub proof fn lemma_few(s: Word, n: nat)
    requires
        s.no_duplicates(),
        forall|i: int| 0 <= i < s.len() ==> #[trigger] s[i] < n,
    ensures
        s.len() <= n,
    decreases n,
{
    if n == 0 {
        if s.len() > 0 {
            assert(s[0] < 0);
        }
    } else if exists|i: int| 0 <= i < s.len() && s[i] == n - 1 {
        let i = choose|i: int| 0 <= i < s.len() && s[i] == n - 1;
        let t = s.remove(i);
        assert forall|j: int| 0 <= j < t.len() implies #[trigger] t[j] < n - 1 by {
            if j < i {
                assert(t[j] == s[j]);
                assert(s[j] < n);
            } else {
                assert(t[j] == s[j + 1]);
                assert(s[j + 1] < n);
            }
        }
        assert(t.no_duplicates()) by {
            assert forall|j: int, k: int|
                0 <= j < t.len() && 0 <= k < t.len() && j != k implies t[j] != t[k] by {
                let j2 = if j < i {
                    j
                } else {
                    j + 1
                };
                let k2 = if k < i {
                    k
                } else {
                    k + 1
                };
                assert(s[j2] != s[k2]);
            }
        }
        lemma_few(t, (n - 1) as nat);
    } else {
        lemma_few(s, (n - 1) as nat);
    }
}

/// The debt is never negative while no node has more branches than there are processes.
pub proof fn lemma_debt_nonneg(procs: nat, height: nat, u: Seq<nat>)
    requires
        forall|m: int| 0 <= m < u.len() ==> #[trigger] u[m] <= procs,
    ensures
        debt(procs, height, u) >= 0,
    decreases u.len(),
{
    if u.len() > 0 {
        lemma_debt_nonneg(procs, height, u.drop_last());
        let c = cost(procs, (height - (u.len() - 1)) as nat);
        let d = procs - u.last();
        assert(u[u.len() - 1] <= procs);
        assert(d * c >= 0) by (nonlinear_arith)
            requires
                d >= 0,
                c >= 0,
        ;
    }
}

/// Descending pays for a branch more than the new node can cost.
pub proof fn lemma_descend(procs: nat, height: nat, u: Seq<nat>, fresh: nat)
    requires
        u.len() > 0,
        u.len() <= height,
        fresh <= procs,
    ensures
        debt(procs, height, u.update(u.len() - 1, u.last() + 1).push(fresh)) < debt(
            procs,
            height,
            u,
        ),
{
    let v = u.update(u.len() - 1, u.last() + 1);
    let w = v.push(fresh);
    assert(w.drop_last() =~= v);
    assert(v.drop_last() =~= u.drop_last());
    let h = (height - (u.len() - 1)) as nat;
    let c = cost(procs, h);
    let k = cost(procs, (h - 1) as nat);
    assert(c == procs * k + 1);
    let d = procs - u.last();
    assert((d - 1) * c == d * c - c) by (nonlinear_arith);
    let e = procs - fresh;
    assert(e * k <= procs * k) by (nonlinear_arith)
        requires
            e <= procs,
            k >= 0,
    ;
    assert(v.last() == u.last() + 1);
    assert(debt(procs, height, w) == debt(procs, height, v) + e * k);
    assert(debt(procs, height, v) == debt(procs, height, u.drop_last()) + (d - 1) * c);
    assert(debt(procs, height, u) == debt(procs, height, u.drop_last()) + d * c);
}

/// Forgetting a node does not raise the debt.
pub proof fn lemma_pop(procs: nat, height: nat, u: Seq<nat>)
    requires
        u.len() > 0,
        u.last() <= procs,
    ensures
        debt(procs, height, u.drop_last()) <= debt(procs, height, u),
{
    let c = cost(procs, (height - (u.len() - 1)) as nat);
    let d = procs - u.last();
    assert(d * c >= 0) by (nonlinear_arith)
        requires
            d >= 0,
            c >= 0,
    ;
}

} // verus!
