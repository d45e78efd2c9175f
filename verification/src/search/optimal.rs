//! Optimal DPOR as a replay-once driver: explores one interleaving per Mazurkiewicz
//! (happens-before) class with no sleep-set blocking.
//!
//! A per-prefix *wakeup tree* of reversing fragments plus a *sleep set* replace classical
//! DPOR's persistent set; races are analysed only on maximal traces via vector-clock
//! happens-before. One live `State` (`cur`) is stepped forward in place during descent,
//! ancestors survive only as metadata frames, and backtracking rebuilds `cur` with a single
//! root replay of the surviving prefix.

use vstd::prelude::*;
use vstd::slice::{slice_subrange, slice_to_vec};

use crate::model::executor::{contains, weight};
use crate::model::object::{Object, Transition};
use crate::model::process::{Process, ProcessID};
use crate::model::state::{
    feasible, lemma_feasible_prefix, lemma_reached_sound, reached, started, State, StateView,
};
use crate::model::world::{ready_all, world_sound, World, WorldModel};
use crate::search::exhaustive::clean;
use crate::search::books::{
    ahead, booked, lemma_book_down, lemma_book_end, lemma_book_fair, lemma_book_next,
    lemma_book_over, lemma_book_race, lemma_book_seed, lemma_book_start, lemma_book_up,
    lemma_book_void, lemma_runs, mended,
};
use crate::search::clocks::{are_clocks, event_clocks, pids, unordered};
use crate::search::explore::FailedState;
use crate::search::measure::{debt, lemma_debt_nonneg, lemma_descend, lemma_few, lemma_pop, used};
use crate::search::observer::{
    grounded, informed, lemma_told_more, lemma_untold, report, sleeps, stand, Observer, RaceOutcome,
    Step, StepCx,
};
use crate::search::plan::{
    at, chain, forked, leaf, lemma_at_put, lemma_forked_at, lemma_forked_chain, lemma_forked_less,
    lemma_forked_put, lemma_forked_sown, lemma_plan, lemma_plan_at, lemma_plan_chain, lemma_plan_grown,
    lemma_plan_put, plan, put, Plan,
};
use crate::search::reversal::{
    child_sleep_set, foremost, grafts, grown, insert, lemma_push_contains,
    lemma_seedling_foremost, notdep, pick, resolve, reversible_race, seed, seedling, still_asleep, walkable, weak_initials, InsertResult,
};
use crate::search::saga::{
    advance, backed, coverer, descent_notes, fed, forgone, guided, lemma_counts_add,
    lemma_counts_push, lemma_guided, lemma_mending, lowered, maximals, mending, onward, opening,
    outset, points, pop_note, race_note, refreshed, ruling, runnable, saga, seed_note, seeds,
    surefooted, tells, visits, Note, Saga, Stand, Told,
};
use crate::search::tour::{
    all_classes_visited, lemma_all_visited, lemma_mapped_down, lemma_mapped_up, lemma_on_tour,
    lemma_tour_start, lemma_toured, lemma_unmapped, mapped, toured,
};
use crate::search::wakeup::{
    is_chain, node, node_at, node_at_mut, reaches, replaced, spine, Frame, Wut,
};
use crate::theory::behaviour::{Beh, Word};
use crate::theory::initials::wi;
use crate::theory::cover::stems;
use crate::theory::ledger::Ledger;
use crate::theory::program::{behaviour, dependable, offers, op_for};
use crate::theory::traces::{
    finished, lemma_one_per_class, one_per_class, reversing, same_class,
};

verus! {

/// The sleepers are different processes, below `n`.
pub open spec fn proper(sleep: Word, n: nat) -> bool {
    sleep.no_duplicates() && forall|i: int| 0 <= i < sleep.len() ==> #[trigger] sleep[i] < n
}

/// What a frame and its node always are: the branches explored are of different processes, which are
/// asleep, and no branch is of one of them.
pub open spec fn kempt(n: Plan, frame: Frame, procs: nat) -> bool {
    &&& proper(frame.explored@, procs)
    &&& forall|q: ProcessID| #[trigger] frame.explored@.contains(q) ==> frame.sleep@.contains(q)
    &&& forall|k: int|
        0 <= k < n.kids.len() ==> !frame.explored@.contains((#[trigger] n.kids[k]).0.pid)
}

/// So are all frames.
pub open spec fn tidy(p: Plan, frames: Seq<Frame>, procs: nat) -> bool {
    forall|m: int|
        0 <= m < frames.len() ==> kempt(at(p, m as nat), #[trigger] frames[m], procs)
}

/// What the driver's stack always is.
#[verifier::opaque]
pub open spec fn stacked<O: Object, P: Process<Op = O::Op, Reply = O::Reply>>(
    w: WorldModel<O::Model, P::Model, P::Reply>,
    tree: Wut,
    frames: Seq<Frame>,
    prefix: Seq<Transition>,
) -> bool {
    &&& grounded::<O, P>(w, tree, frames, prefix)
    &&& reached::<O, P>(w, prefix).failure is None
    &&& tidy(plan(tree), frames, w.pnames.len())
}

/// The branches explored, by depth.
pub open spec fn tours(frames: Seq<Frame>) -> Seq<Word> {
    Seq::new(frames.len(), |m: int| frames[m].explored@)
}

/// The reach of a node depends on the nodes above it alone.
proof fn lemma_reaches(before: Wut, after: Wut, depth: nat, n: nat)
    requires
        reaches(before, n),
        depth <= n,
        reaches(after, depth),
        node(after, depth) == node(before, depth),
    ensures
        reaches(after, n),
        forall|m: nat| depth <= m <= n ==> #[trigger] node(after, m) == node(before, m),
    decreases n,
{
    if depth < n {
        lemma_reaches(before, after, depth, (n - 1) as nat);
        assert(node(after, (n - 1) as nat) == node(before, (n - 1) as nat));
    }
}

proof fn lemma_reaches_above(tree: Wut, n: nat, m: nat)
    requires
        reaches(tree, n),
        m <= n,
    ensures
        reaches(tree, m),
    decreases n,
{
    if m < n {
        lemma_reaches_above(tree, (n - 1) as nat, m);
    }
}

/// Changing the node at `depth` keeps the spine if its first child stays.
proof fn lemma_spine_kept(
    before: Wut,
    after: Wut,
    depth: nat,
    n: Wut,
    prefix: Seq<Transition>,
)
    requires
        spine(before, prefix),
        depth <= prefix.len(),
        replaced(before, after, depth, n),
        depth < prefix.len() ==> n.len() > 0 && n.children@[0] == node(before, depth).children@[0],
    ensures
        spine(after, prefix),
        forall|m: nat|
            depth < m <= prefix.len() ==> #[trigger] node(after, m) == node(before, m),
{
    if depth < prefix.len() {
        lemma_reaches_above(before, prefix.len(), depth + 1);
        assert(node(after, depth + 1) == node(after, depth).sub(0));
        assert(node(before, depth + 1) == node(before, depth).sub(0));
        assert(reaches(after, depth + 1));
        lemma_reaches(before, after, depth + 1, prefix.len());
    }
    assert forall|m: nat| m < prefix.len() implies #[trigger] node(after, m).len() > 0 && node(
        after,
        m,
    ).head(0) == prefix[m as int].pid by {
        assert(node(before, m).len() > 0);
        if m > depth {
            assert(node(after, m) == node(before, m));
        }
    }
}

/// The spine, in the tree's reading.
proof fn lemma_spine_plan(tree: Wut, prefix: Seq<Transition>)
    requires
        spine(tree, prefix),
    ensures
        forall|k: nat|
            k < prefix.len() ==> (#[trigger] at(plan(tree), k)).kids.len() > 0 && at(
                plan(tree),
                k,
            ).kids[0].0.pid == prefix[k as int].pid,
        forall|k: nat| k <= prefix.len() ==> #[trigger] at(plan(tree), k) == plan(node(tree, k)),
{
    assert forall|k: nat| k <= prefix.len() implies #[trigger] at(plan(tree), k) == plan(
        node(tree, k),
    ) by {
        lemma_reaches_above(tree, prefix.len(), k);
        lemma_plan_at(tree, k);
    }
    assert forall|k: nat| k < prefix.len() implies (#[trigger] at(plan(tree), k)).kids.len() > 0
        && at(plan(tree), k).kids[0].0.pid == prefix[k as int].pid by {
        assert(node(tree, k).len() > 0);
        lemma_plan(node(tree, k));
    }
}

/// Replacing a node on the spine keeps the frames tidy and the siblings apart, if its frame fits and,
/// above the top, its first child stays.
proof fn lemma_tidy_put(p: Plan, frames: Seq<Frame>, procs: nat, depth: nat, n: Plan)
    requires
        forked(p),
        forked(n),
        depth < frames.len(),
        forall|k: nat| k < depth ==> #[trigger] at(p, k).kids.len() > 0,
        depth + 1 < frames.len() ==> n.kids.len() > 0 && at(p, depth).kids.len() > 0 && n.kids[0]
            == at(p, depth).kids[0],
        kempt(n, frames[depth as int], procs),
        forall|m: int|
            0 <= m < frames.len() && m != depth ==> kempt(
                at(p, m as nat),
                #[trigger] frames[m],
                procs,
            ),
    ensures
        tidy(put(p, depth, n), frames, procs),
        forked(put(p, depth, n)),
{
    lemma_forked_put(p, depth, n);
    assert forall|m: int| 0 <= m < frames.len() implies kempt(
        at(put(p, depth, n), m as nat),
        #[trigger] frames[m],
        procs,
    ) by {
        lemma_at_put(p, depth, n, m as nat);
        if m != depth {
            assert(kempt(at(p, m as nat), frames[m], procs));
        }
        if m < depth {
            let q = at(put(p, depth, n), m as nat);
            assert forall|k: int| 0 <= k < q.kids.len() implies !frames[m].explored@.contains(
                (#[trigger] q.kids[k]).0.pid,
            ) by {
                assert(q.kids[k].0 == at(p, m as nat).kids[k].0);
            }
        }
    }
}

/// Pops the exhausted top frame: drops the finished (first) branch from the parent and sleeps
/// its head. Returns `true`, and leaves all as it is, when the top frame is the root, i.e. the
/// whole search is done.
fn pop_exhausted<'a, O, P, F, Ob>(
    tree: &mut Wut,
    frames: &mut Vec<Frame>,
    prefix: &mut Vec<Transition>,
    cur: &State<'a, O, P, F>,
    observer: &mut Ob,
) -> (over: bool) where
    O: Object,
    P: Process<Op = O::Op, Reply = O::Reply>,
    F: Fn(World<O, P>) -> World<O, P>,
    Ob: Observer<O, P, F>,

    requires
        cur.valid(),
        stacked::<O, P>(cur.program(), *old(tree), old(frames)@, old(prefix)@),
    ensures
        over == (old(prefix)@.len() == 0),
        stacked::<O, P>(cur.program(), *final(tree), final(frames)@, final(prefix)@),
        over ==> {
            &&& *final(tree) == *old(tree)
            &&& final(frames)@ == old(frames)@
            &&& final(prefix)@ == old(prefix)@
            &&& *final(observer) == *old(observer)
        },
        !over ==> {
            let d = (old(prefix)@.len() - 1) as nat;
            let before = stand(*old(tree), old(frames)@, old(prefix)@);
            &&& stand(*final(tree), final(frames)@, final(prefix)@) == backed(before)
            &&& informed::<O, P, F, Ob>(*old(observer), *final(observer), seq![pop_note(before)])
            &&& final(prefix)@ == old(prefix)@.drop_last()
            &&& replaced(*old(tree), *final(tree), d, node(*final(tree), d))
            &&& node(*final(tree), d).children@ == node(*old(tree), d).children@.remove(0)
            &&& final(frames)@.len() == old(frames)@.len() - 1
            &&& forall|m: int| 0 <= m < d ==> #[trigger] final(frames)@[m] == old(frames)@[m]
            &&& final(frames)@[d as int].sleep@ == old(frames)@[d as int].sleep@.push(
                old(prefix)@.last().pid,
            )
            &&& final(frames)@[d as int].explored@ == old(frames)@[d as int].explored@.push(
                old(prefix)@.last().pid,
            )
            &&& final(frames)@[d as int].pending == old(frames)@[d as int].pending
        },
{
    proof {
        reveal(stacked);
    }
    let ghost w = cur.program();
    let ghost frames0 = frames@;
    let ghost prefix0 = prefix@;
    let from_depth: usize = prefix.len();
    proof {
        cur.lemma_valid();
        lemma_reached_sound::<O, P>(w, prefix@);
    }
    let Some(finished_t) = prefix.pop() else {
        return true;
    };
    let _ = frames.pop();
    let finished: ProcessID = finished_t.pid;
    let depth: usize = prefix.len();
    proof {
        lemma_reaches_above(*tree, prefix0.len(), depth as nat);
        assert(node(*tree, depth as nat).len() > 0);
    }
    let ghost tree0 = *tree;
    let parent = node_at_mut(tree, depth);
    parent.children.remove(0);
    frames[depth].sleep.push(finished);
    let ghost was = frames@[depth as int].explored@;
    frames[depth].explored = Ghost(was.push(finished));
    proof {
        let procs = w.pnames.len();
        let d = depth as nat;
        let p = plan(tree0);
        let before = at(p, d);
        let n = plan(node(*tree, d));
        lemma_feasible_prefix::<O, P>(w, prefix0, depth as int);
        assert(prefix0.take(depth as int) =~= prefix@);
        assert(prefix@ == prefix0.drop_last());
        assert forall|m: nat| m < prefix@.len() implies #[trigger] node(*tree, m).len() > 0
            && node(*tree, m).head(0) == prefix@[m as int].pid by {
            assert(node(tree0, m).len() > 0);
        }
        lemma_spine_plan(tree0, prefix0);
        lemma_plan(node(tree0, d));
        lemma_plan(node(*tree, d));
        assert(n.kids =~= before.kids.remove(0));
        lemma_plan_put(tree0, *tree, d, node(*tree, d));
        lemma_forked_at(p, d);
        lemma_forked_less(before);
        assert(kempt(before, frames0[depth as int], procs));
        assert(before.kids[0].0.pid == finished);
        assert(prefix0[depth as int].pid < procs) by {
            let s = reached::<O, P>(w, prefix0);
            assert(s.trace[depth as int].pid < s.world.sched.procs.len());
        }
        lemma_kempt_less(before, n, frames0[depth as int], frames@[depth as int], procs);
        assert forall|m: int| 0 <= m < frames@.len() && m != d implies kempt(
            at(p, m as nat),
            #[trigger] frames@[m],
            procs,
        ) by {
            assert(frames@[m] == frames0[m]);
        }
        lemma_tidy_put(p, frames@, procs, d, n);
        assert forall|m: int| 0 <= m < frames@.len() implies (#[trigger] frames@[m]).pending@
            == ready_all::<O>(reached::<O, P>(w, prefix@.take(m)).world.objs) by {
            assert(frames0[m].pending@ == ready_all::<O>(
                reached::<O, P>(w, prefix0.take(m)).world.objs,
            ));
            assert(prefix@.take(m) =~= prefix0.take(m));
        }
        let b = backed(stand(tree0, frames0, prefix0));
        assert(sleeps(frames@) =~= b.sleeps);
        assert(before.kids.remove(0) == n.kids);
        assert(Plan { kids: before.kids.remove(0) } == n);
        assert(stand(*tree, frames@, prefix@) == b);
    }
    report(
        observer,
        Step::Pop { finished_pid: finished, from_depth, into_depth: from_depth - 1 },
        StepCx::new(tree, frames.as_slice(), prefix.as_slice(), cur),
    );
    false
}

/// Reports that the search is over.
fn conclude<'a, O, P, F, Ob>(
    tree: &Wut,
    frames: &Vec<Frame>,
    prefix: &Vec<Transition>,
    cur: &State<'a, O, P, F>,
    observer: &mut Ob,
) where
    O: Object,
    P: Process<Op = O::Op, Reply = O::Reply>,
    F: Fn(World<O, P>) -> World<O, P>,
    Ob: Observer<O, P, F>,

    requires
        cur.valid(),
        stacked::<O, P>(cur.program(), *tree, frames@, prefix@),
        prefix@.len() == 0,
        tree.len() == 0,
    ensures
        informed::<O, P, F, Ob>(
            *old(observer),
            *final(observer),
            seq![Note { told: Told::Done, stand: stand(*tree, frames@, prefix@) }],
        ),
{
    proof {
        reveal(stacked);
    }
    report(
        observer,
        Step::Done,
        StepCx::new(tree, frames.as_slice(), prefix.as_slice(), cur),
    );
}

/// A frame still fits when the first branch of its node is done.
proof fn lemma_kempt_less(before: Plan, n: Plan, f: Frame, g: Frame, procs: nat)
    requires
        forked(before),
        kempt(before, f, procs),
        before.kids.len() > 0,
        n.kids == before.kids.remove(0),
        before.kids[0].0.pid < procs,
        g.sleep@ == f.sleep@.push(before.kids[0].0.pid),
        g.explored@ == f.explored@.push(before.kids[0].0.pid),
    ensures
        kempt(n, g, procs),
{
    let h = before.kids[0].0.pid;
    lemma_push_contains(f.sleep@, h);
    lemma_push_contains(f.explored@, h);
    assert(g.explored@.no_duplicates()) by {
        assert forall|i: int| 0 <= i < f.explored@.len() implies #[trigger] f.explored@[i] != h by {
            assert(f.explored@.contains(f.explored@[i]));
        }
    }
    assert forall|i: int| 0 <= i < g.explored@.len() implies #[trigger] g.explored@[i] < procs by {
        if i < f.explored@.len() {
            assert(f.explored@[i] < procs);
        }
    }
    assert forall|k: int| 0 <= k < n.kids.len() implies !g.explored@.contains(
        (#[trigger] n.kids[k]).0.pid,
    ) by {
        assert(n.kids[k] == before.kids[k + 1]);
        assert(before.kids[0].0.pid != before.kids[k + 1].0.pid);
    }
}

/// Explores the first child of the top of the stack, whose operation is `t`: applies it and, unless
/// it fails, pushes the new prefix with the sleepers that stay asleep. Returns whether it failed.
fn descend<'a, O, P, F, Ob>(
    tree: &Wut,
    frames: &mut Vec<Frame>,
    prefix: &mut Vec<Transition>,
    cur: &mut State<'a, O, P, F>,
    t: Transition,
    observer: &mut Ob,
) -> (failed: bool) where
    O: Object,
    P: Process<Op = O::Op, Reply = O::Reply>,
    F: Fn(World<O, P>) -> World<O, P>,
    Ob: Observer<O, P, F>,

    requires
        old(cur).valid(),
        old(cur)@ == reached::<O, P>(old(cur).program(), old(prefix)@),
        stacked::<O, P>(old(cur).program(), *tree, old(frames)@, old(prefix)@),
        node(*tree, old(prefix)@.len()).len() > 0,
        node(*tree, old(prefix)@.len()).head(0) == t.pid,
        ready_all::<O>(old(cur)@.world.objs).contains(t),
        dependable::<O, P>(old(cur).program()) ==> !old(frames)@.last().sleep@.contains(t.pid),
    ensures
        final(cur).valid(),
        final(cur).program() == old(cur).program(),
        final(cur)@ == reached::<O, P>(old(cur).program(), old(prefix)@.push(t)),
        final(cur)@.trace == old(prefix)@.push(t),
        feasible::<O, P>(old(cur).program(), old(prefix)@.push(t)),
        failed == (final(cur)@.failure is Some),
        informed::<O, P, F, Ob>(
            *old(observer),
            *final(observer),
            descent_notes::<O, P>(
                old(cur).program(),
                stand(*tree, old(frames)@, old(prefix)@),
                t,
            ),
        ),
        failed ==> final(prefix)@ == old(prefix)@ && final(frames)@ == old(frames)@,
        !failed ==> {
            &&& final(prefix)@ == old(prefix)@.push(t)
            &&& stacked::<O, P>(old(cur).program(), *tree, final(frames)@, final(prefix)@)
            &&& final(frames)@.len() == old(frames)@.len() + 1
            &&& forall|m: int|
                0 <= m < old(frames)@.len() ==> #[trigger] final(frames)@[m] == old(frames)@[m]
            &&& final(frames)@.last().sleep@ == still_asleep(
                behaviour::<O, P>(old(cur)@.world),
                old(frames)@.last().sleep@,
                t.pid,
            )
            &&& final(frames)@.last().explored@.len() == 0
            &&& stand(*tree, final(frames)@, final(prefix)@) == lowered::<O, P>(
                old(cur).program(),
                stand(*tree, old(frames)@, old(prefix)@),
                t,
            )
        },
{
    proof {
        reveal(stacked);
    }
    let ghost w = cur.program();
    let ghost frames0 = frames@;
    let ghost prefix0 = prefix@;
    let ghost procs = w.pnames.len();
    let ghost b = behaviour::<O, P>(cur@.world);
    let ghost s0 = stand(*tree, frames0, prefix0);
    let ghost o0 = *observer;
    let depth: usize = prefix.len();
    let child_sleep = child_sleep_set(cur, &frames[depth].sleep, t);
    proof {
        cur.lemma_valid();
        lemma_reached_sound::<O, P>(w, prefix0);
    }
    cur.apply(t);
    proof {
        cur.lemma_valid();
        assert(cur@.trace =~= prefix0.push(t));
        assert(prefix0.push(t).drop_last() =~= prefix0);
    }
    report(
        observer,
        Step::Visit,
        StepCx::new(tree, frames.as_slice(), prefix.as_slice(), cur),
    );
    let ghost ns = descent_notes::<O, P>(w, s0, t);
    let ghost o1 = *observer;
    proof {
        assert(seq![ns[0]] + seq![ns[1]] =~= ns);
        assert(informed::<O, P, F, Ob>(o0, o1, seq![ns[0]]));
    }
    if cur.is_failed() {
        report(
            observer,
            Step::Maximal { trace: cur.trace(), failure: true },
            StepCx::new(tree, frames.as_slice(), prefix.as_slice(), cur),
        );
        proof {
            lemma_told_more::<O, P, F, Ob>(o0, o1, *observer, seq![ns[0]], seq![ns[1]]);
        }
        return true;
    }
    report(
        observer,
        Step::Descend {
            depth,
            committed: t,
            parent_sleep: frames[depth].sleep(),
            child_sleep: child_sleep.as_slice(),
        },
        StepCx::new(tree, frames.as_slice(), prefix.as_slice(), cur),
    );
    proof {
        lemma_told_more::<O, P, F, Ob>(o0, o1, *observer, seq![ns[0]], seq![ns[1]]);
    }
    frames.push(
        Frame {
            sleep: child_sleep,
            pending: slice_to_vec(cur.enabled()),
            explored: Ghost(Seq::empty()),
        },
    );
    prefix.push(t);
    proof {
        assert forall|m: nat| m < prefix@.len() implies #[trigger] node(*tree, m).len() > 0 && node(
            *tree,
            m,
        ).head(0) == prefix@[m as int].pid by {
            if m < prefix0.len() {
                assert(node(*tree, m).len() > 0);
            }
        }
        assert(reaches(*tree, prefix@.len()));
        assert forall|m: int| 0 <= m < frames@.len() implies (#[trigger] frames@[m]).pending@
            == ready_all::<O>(reached::<O, P>(w, prefix@.take(m)).world.objs) by {
            if m < frames0.len() {
                assert(frames@[m] == frames0[m]);
                assert(prefix@.take(m) =~= prefix0.take(m));
            } else {
                assert(prefix@.take(m) =~= prefix@);
            }
        }
        assert forall|m: int| 0 <= m < frames@.len() implies kempt(
            at(plan(*tree), m as nat),
            #[trigger] frames@[m],
            procs,
        ) by {
            if m < frames0.len() {
                assert(frames@[m] == frames0[m]);
            }
        }
        assert(sleeps(frames@) =~= lowered::<O, P>(w, s0, t).sleeps);
    }
    false
}

/// Seeds the child node with one enabled process, unless a race already planted a fragment there: one
/// that is awake, if there is one. The step reported is whatever process now heads the child node.
fn seed_child<'a, O, P, F, Ob>(
    tree: &mut Wut,
    cur: &State<'a, O, P, F>,
    frames: &Vec<Frame>,
    prefix: &Vec<Transition>,
    observer: &mut Ob,
) where
    O: Object,
    P: Process<Op = O::Op, Reply = O::Reply>,
    F: Fn(World<O, P>) -> World<O, P>,
    Ob: Observer<O, P, F>,

    requires
        cur.valid(),
        cur@.trace == prefix@,
        stacked::<O, P>(cur.program(), *old(tree), frames@, prefix@),
        frames@.last().explored@.len() == 0,
        dependable::<O, P>(cur.program()) && node(*old(tree), prefix@.len()).len() > 0
            ==> offers::<O>(cur@.world.objs, node(*old(tree), prefix@.len()).head(0)),
    ensures
        dependable::<O, P>(cur.program()) && node(*final(tree), prefix@.len()).len() > 0
            ==> offers::<O>(cur@.world.objs, node(*final(tree), prefix@.len()).head(0)),
        informed::<O, P, F, Ob>(
            *old(observer),
            *final(observer),
            seq![seed_note::<O, P>(cur.program(), stand(*old(tree), frames@, prefix@))],
        ),
        stand(*final(tree), frames@, prefix@) == fed::<O, P>(
            cur.program(),
            stand(*old(tree), frames@, prefix@),
        ),
        stacked::<O, P>(cur.program(), *final(tree), frames@, prefix@),
        replaced(*old(tree), *final(tree), prefix@.len(), node(*final(tree), prefix@.len())),
        node(*old(tree), prefix@.len()).len() > 0 ==> *final(tree) == *old(tree),
        seeded::<O, P>(
            cur@.world,
            frames@.last().sleep@,
            node(*old(tree), prefix@.len()),
            node(*final(tree), prefix@.len()),
        ),
{
    proof {
        reveal(stacked);
    }
    let depth: usize = prefix.len();
    let ghost w = cur.program();
    let ghost objs = cur@.world.objs;
    let ghost tree0 = *tree;
    let ghost s0 = stand(*tree, frames@, prefix@);
    let ghost procs = w.pnames.len();
    let empty = node_at(tree, depth).children.len() == 0;
    proof {
        cur.lemma_valid();
        lemma_replaced_self(*tree, depth as nat);
        lemma_ready_offers::<O>(objs);
        lemma_plan(node(tree0, depth as nat));
    }
    if empty {
        let next = seed(cur, &frames[depth].sleep);
        if let Some(q) = next {
            if let Some(q_t) = resolve(cur, q) {
                let branch = vec![q_t];
                let n = node_at_mut(tree, depth);
                n.graft(branch.as_slice());
                proof {
                    assert(branch@.drop_first() =~= Seq::empty());
                    assert(branch@ =~= seq![q_t]);
                    lemma_plan_chain(node(*tree, depth as nat), branch@);
                }
            }
        }
    }
    proof {
        let d = depth as nat;
        let n = plan(node(*tree, d));
        lemma_spine_kept(tree0, *tree, d, node(*tree, d), prefix@);
        lemma_spine_plan(tree0, prefix@);
        lemma_plan_put(tree0, *tree, d, node(*tree, d));
        lemma_plan(node(*tree, d));
        lemma_forked_at(s0.tree, d);
        if empty {
            if let Some(q) = seedling::<O>(objs, frames@[depth as int].sleep@) {
                lemma_forked_chain(seq![op_for::<O>(objs, q)]);
            }
        }
        assert(n == seeds::<O>(objs, s0.sleeps[d as int], at(s0.tree, d)));
        assert(kempt(at(s0.tree, d), frames@[d as int], procs));
        assert(kempt(n, frames@[d as int], procs));
        lemma_tidy_put(s0.tree, frames@, procs, d, n);
        lemma_at_put(s0.tree, d, n, d);
    }
    let n = node_at(tree, depth);
    let seeded = if n.children.len() > 0 {
        Some(n.children[0].0)
    } else {
        None
    };
    report(
        observer,
        Step::SeedChild { depth, seeded },
        StepCx::new(tree, frames.as_slice(), prefix.as_slice(), cur),
    );
}

proof fn lemma_replaced_self(tree: Wut, depth: nat)
    requires
        reaches(tree, depth),
    ensures
        replaced(tree, tree, depth, node(tree, depth)),
{
}

/// What seeding does to a node: nothing if it has children; otherwise it gets the operation of the
/// process to go on with as its one child, if there is one.
pub open spec fn seeded<O: Object, P: Process<Op = O::Op, Reply = O::Reply>>(
    w: WorldModel<O::Model, P::Model, P::Reply>,
    sleep: Word,
    before: Wut,
    after: Wut,
) -> bool {
    if before.len() > 0 {
        after == before
    } else {
        match seedling::<O>(w.objs, sleep) {
            Some(p) => {
                &&& foremost::<O>(w.objs, sleep, p)
                &&& after.len() == 1
                &&& after.sub(0).len() == 0
                &&& after.children@[0].0 == op_for::<O>(w.objs, p)
            },
            None => after == before,
        }
    }
}

/// The first process asleep at a prefix that is a weak initial of a fragment, or `None` if none is.
fn covered_by_sleeper(pre: &Frame, ws: &Vec<ProcessID>) -> (r: Option<ProcessID>)
    ensures
        match r {
            Some(q) => exists|i: int|
                0 <= i < pre.sleep@.len() && #[trigger] pre.sleep@[i] == q && ws@.contains(q)
                    && forall|j: int| 0 <= j < i ==> !ws@.contains(#[trigger] pre.sleep@[j]),
            None => forall|j: int|
                0 <= j < pre.sleep@.len() ==> !ws@.contains(#[trigger] pre.sleep@[j]),
        },
{
    let mut i: usize = 0;
    while i < pre.sleep.len()
        invariant
            i <= pre.sleep@.len(),
            forall|j: int| 0 <= j < i ==> !ws@.contains(#[trigger] pre.sleep@[j]),
        decreases pre.sleep@.len() - i,
    {
        let q: ProcessID = pre.sleep[i];
        if contains(ws, q) {
            assert(pre.sleep@[i as int] == q);
            return Some(q);
        }
        i = i + 1;
    }
    None
}

/// The first sleeper that covers a fragment, by its place.
proof fn lemma_coverer(b: Beh, sleep: Word, word: Word, i: int)
    requires
        0 <= i <= sleep.len(),
        forall|j: int| 0 <= j < i ==> !wi(b, word, #[trigger] sleep[j]),
        i < sleep.len() ==> wi(b, word, sleep[i]),
    ensures
        coverer(b, sleep, word) == if i < sleep.len() {
            Some(sleep[i])
        } else {
            None
        },
    decreases sleep.len(),
{
    if sleep.len() > 0 && i > 0 {
        assert(!wi(b, word, sleep[0]));
        let rest = sleep.drop_first();
        assert forall|j: int| 0 <= j < i - 1 implies !wi(b, word, #[trigger] rest[j]) by {
            assert(rest[j] == sleep[j + 1]);
        }
        lemma_coverer(b, rest, word, i - 1);
    }
}

/// Who is covered, and by whom.
proof fn lemma_coverer_asleep(b: Beh, sleep: Word, word: Word)
    ensures
        match coverer(b, sleep, word) {
            Some(q) => sleep.contains(q) && wi(b, word, q),
            None => forall|q: ProcessID| #[trigger] sleep.contains(q) ==> !wi(b, word, q),
        },
    decreases sleep.len(),
{
    if sleep.len() > 0 {
        let rest = sleep.drop_first();
        lemma_coverer_asleep(b, rest, word);
        assert forall|q: ProcessID| #[trigger] sleep.contains(q) implies q == sleep[0]
            || rest.contains(q) by {
            let i = choose|i: int| 0 <= i < sleep.len() && sleep[i] == q;
            if i > 0 {
                assert(rest[i - 1] == q);
            }
        }
        if let Some(q) = coverer(b, rest, word) {
            let i = choose|i: int| 0 <= i < rest.len() && rest[i] == q;
            assert(sleep[i + 1] == q);
        }
    }
}

/// Plans the reversal of every reversible race in the maximal trace of `state`: for a race
/// `(e, e')` it plants `v`, the events that do not happen after `e` followed by `e'`, in the
/// wakeup tree of the prefix just before `e`, unless `v` cannot be run there or a process
/// already asleep there covers it.
#[verifier::spinoff_prover]
fn plan_reversals<'a, O, P, F, Ob>(
    tree: &mut Wut,
    frames: &Vec<Frame>,
    trace: &Vec<Transition>,
    state: &State<'a, O, P, F>,
    view: &StateView<'a, O, P, F>,
    observer: &mut Ob,
    Ghost(led): Ghost<Ledger>,
) -> (out: Ghost<Ledger>) where
    O: Object,
    P: Process<Op = O::Op, Reply = O::Reply>,
    F: Fn(World<O, P>) -> World<O, P>,
    Ob: Observer<O, P, F>,

    requires
        state.valid(),
        view.valid(),
        view.program() == state.program(),
        state@.trace == trace@,
        stacked::<O, P>(state.program(), *old(tree), frames@, trace@),
        booked::<O, P>(state.program(), *old(tree), frames@, trace@, led),
    ensures
        ({
            let mended = mending::<O, P>(
                state.program(),
                stand(*old(tree), frames@, trace@),
                trace@.len() + 1,
                1,
            );
            &&& stand(*final(tree), frames@, trace@) == mended.0
            &&& informed::<O, P, F, Ob>(*old(observer), *final(observer), mended.1)
        }),
        stacked::<O, P>(state.program(), *final(tree), frames@, trace@),
        node(*final(tree), trace@.len()) == node(*old(tree), trace@.len()),
        booked::<O, P>(state.program(), *final(tree), frames@, trace@, out@),
        out@.xs == led.xs,
        dependable::<O, P>(state.program()) ==> forall|m: int, j: int|
            0 <= m < j < trace@.len() ==> #[trigger] mended::<O, P>(
                state.program(),
                trace@,
                out@,
                m,
                j,
            ),
{
    proof {
        reveal(stacked);
    }
    let ghost mut out = led;
    let ghost w = state.program();
    let n: usize = trace.len();
    let ghost s0 = stand(*tree, frames@, trace@);
    let ghost o0 = *observer;
    proof {
        state.lemma_valid();
        lemma_untold::<O, P, F, Ob>(o0);
    }
    assert(n + 1 == frames.len());
    let clocks = event_clocks(state);
    let mut j: usize = 1;
    while j <= n
        invariant
            1 <= j <= n + 1,
            n == trace@.len(),
            n + 1 == frames@.len(),
            n < usize::MAX,
            w == state.program(),
            state.valid(),
            view.valid(),
            view.program() == w,
            state@.trace == trace@,
            stacked::<O, P>(w, *tree, frames@, trace@),
            node(*tree, n as nat) == node(*old(tree), n as nat),
            stand(*tree, frames@, trace@) == mending::<O, P>(w, s0, j as nat, 1).0,
            informed::<O, P, F, Ob>(o0, *observer, mending::<O, P>(w, s0, j as nat, 1).1),
            s0.prefix == trace@,
            o0 == *old(observer),
            state@ == reached::<O, P>(w, trace@),
            world_sound::<O, P>(w),
            booked::<O, P>(w, *tree, frames@, trace@, out),
            out.xs == led.xs,
            dependable::<O, P>(w) ==> forall|m: int, k: int|
                0 <= m < k < n && k + 1 < j ==> #[trigger] mended::<O, P>(w, trace@, out, m, k),
            are_clocks::<O>(
                state@.world.objs,
                state@.trace,
                clocks@,
                state@.world.pnames.len(),
                n as int,
            ),
        decreases n + 1 - j,
    {
        let mut i: usize = 1;
        while i < j
            invariant
                1 <= i <= j <= n,
                n == trace@.len(),
                n + 1 == frames@.len(),
                n < usize::MAX,
                w == state.program(),
                state.valid(),
                view.valid(),
                view.program() == w,
                state@.trace == trace@,
                stacked::<O, P>(w, *tree, frames@, trace@),
                node(*tree, n as nat) == node(*old(tree), n as nat),
                stand(*tree, frames@, trace@) == mending::<O, P>(w, s0, j as nat, i as nat).0,
                informed::<O, P, F, Ob>(
                    o0,
                    *observer,
                    mending::<O, P>(w, s0, j as nat, i as nat).1,
                ),
                s0.prefix == trace@,
                state@ == reached::<O, P>(w, trace@),
                world_sound::<O, P>(w),
                booked::<O, P>(w, *tree, frames@, trace@, out),
                out.xs == led.xs,
                dependable::<O, P>(w) ==> forall|m: int, k: int|
                    0 <= m < k < n && (k + 1 < j || k + 1 == j && m + 1 < i) ==> #[trigger] mended::<
                        O,
                        P,
                    >(w, trace@, out, m, k),
                are_clocks::<O>(
                    state@.world.objs,
                    state@.trace,
                    clocks@,
                    state@.world.pnames.len(),
                    n as int,
                ),
            decreases j - i,
        {
            let ghost out0 = out;
            proof {
                reveal(stacked);
            }
            if reversible_race(state, &clocks, i, j) {
                let ghost tree0 = *tree;
                let ghost o1 = *observer;
                let mut v = notdep(state, &clocks, i);
                v.push(trace[j - 1]);
                let outcome = reverse(tree, frames, trace, view, i - 1, &v);
                proof {
                    if !(outcome is Disabling) {
                        out = lemma_book_race::<O, P>(
                            w,
                            tree0,
                            *tree,
                            frames@,
                            trace@,
                            out,
                            (i - 1) as usize,
                            v@,
                            outcome,
                        );
                    }
                    lemma_runs::<O, P>(w, trace@, i - 1);
                    assert(v@ =~= reversing::<O>(state@.world.objs, trace@, i - 1, j - 1));
                    if dependable::<O, P>(w) {
                        assert(mended::<O, P>(w, trace@, out, i - 1, j - 1));
                    }
                }
                let notdep_part = slice_subrange(v.as_slice(), 0, v.len() - 1);
                assert(notdep_part@.push(trace@[j - 1]) =~= v@);
                assert(notdep_part@ =~= unordered::<O>(
                    state@.world.objs,
                    trace@,
                    i - 1,
                    i as int,
                ));
                report(
                    observer,
                    Step::Race {
                        i,
                        j,
                        e: trace[i - 1],
                        ep: trace[j - 1],
                        notdep: notdep_part,
                        v: v.as_slice(),
                        outcome,
                    },
                    StepCx::new(tree, frames.as_slice(), trace.as_slice(), state),
                );
                proof {
                    let (s1, notes) = mending::<O, P>(w, s0, j as nat, i as nat);
                    let rn = race_note::<O, P>(w, s1, i as int, j as int);
                    assert(s1 == stand(tree0, frames@, trace@));
                    assert(rn.stand == stand(*tree, frames@, trace@));
                    assert(notes + seq![rn] =~= notes.push(rn));
                    lemma_told_more::<O, P, F, Ob>(o0, o1, *observer, notes, seq![rn]);
                }
            }
            proof {
                if dependable::<O, P>(w) {
                    assert forall|m: int, k: int|
                        0 <= m < k < n && (k + 1 < j || k + 1 == j && m < i) implies #[trigger] mended::<
                        O,
                        P,
                    >(w, trace@, out, m, k) by {
                        if k + 1 < j || m + 1 < i {
                            assert(mended::<O, P>(w, trace@, out0, m, k));
                        } else {
                            assert(m == i - 1 && k == j - 1);
                        }
                    }
                }
            }
            i = i + 1;
        }
        j = j + 1;
    }
    Ghost(out)
}


/// Plants the fragment `v` at `depth`, and says how it resolved.
fn reverse<'a, O, P, F>(
    tree: &mut Wut,
    frames: &Vec<Frame>,
    trace: &Vec<Transition>,
    view: &StateView<'a, O, P, F>,
    depth: usize,
    v: &Vec<Transition>,
) -> (outcome: RaceOutcome) where
    O: Object,
    P: Process<Op = O::Op, Reply = O::Reply>,
    F: Fn(World<O, P>) -> World<O, P>,

    requires
        view.valid(),
        depth < trace@.len(),
        v@.len() > 0,
        stacked::<O, P>(view.program(), *old(tree), frames@, trace@),
    ensures
        stacked::<O, P>(view.program(), *final(tree), frames@, trace@),
        reversed::<O, P>(
            behaviour::<O, P>(
                reached::<O, P>(view.program(), trace@.take(depth as int)).world,
            ),
            frames@[depth as int].sleep@,
            *old(tree),
            *final(tree),
            depth,
            v@,
            outcome,
        ),
        (outcome, plan(*final(tree))) == ruling(
            behaviour::<O, P>(
                reached::<O, P>(view.program(), trace@.take(depth as int)).world,
            ),
            plan(*old(tree)),
            frames@[depth as int].sleep@,
            depth as nat,
            v@,
        ),
        forall|m: nat|
            depth < m <= trace@.len() ==> #[trigger] node(*final(tree), m) == node(*old(tree), m),
{
    proof {
        reveal(stacked);
    }
    let ghost w = view.program();
    let ghost tree0 = *tree;
    let ghost pre = trace@.take(depth as int);
    let ghost b = behaviour::<O, P>(reached::<O, P>(w, pre).world);
    let path = slice_to_vec(slice_subrange(trace.as_slice(), 0, depth));
    proof {
        assert(trace@.subrange(0, depth as int) =~= pre);
        lemma_feasible_prefix::<O, P>(w, trace@, depth as int);
        lemma_feasible_prefix::<O, P>(w, trace@, depth + 1);
        assert(trace@.take(depth + 1).drop_last() =~= pre);
        lemma_reaches_above(*tree, trace@.len(), depth as nat);
        lemma_replaced_self(*tree, depth as nat);
        lemma_spine_kept(*tree, *tree, depth as nat, node(*tree, depth as nat), trace@);
    }
    let state = view.replay(path.as_slice());
    let Some(ws) = weak_initials(state, v.as_slice()) else {
        return RaceOutcome::Disabling;
    };
    let ghost sleep = frames@[depth as int].sleep@;
    let covering = covered_by_sleeper(&frames[depth], &ws);
    proof {
        match covering {
            Some(q) => {
                let i = choose|i: int|
                    0 <= i < sleep.len() && #[trigger] sleep[i] == q && ws@.contains(q) && forall|
                        j: int,
                    | 0 <= j < i ==> !ws@.contains(#[trigger] sleep[j]);
                lemma_coverer(b, sleep, pids(v@), i);
            },
            None => {
                lemma_coverer(b, sleep, pids(v@), sleep.len() as int);
            },
        }
        lemma_coverer_asleep(b, sleep, pids(v@));
    }
    if let Some(covering_pid) = covering {
        return RaceOutcome::CoveredBySleeper { insert_depth: depth, covering_pid };
    }
    let n = node_at_mut(tree, depth);
    let r = insert(n, true, &ws, view, &path, v.as_slice());
    proof {
        let before = node(tree0, depth as nat);
        let after = node(*tree, depth as nat);
        assert(before.len() > 0);
        lemma_grown_first(b, before, after, v@);
        lemma_spine_kept(tree0, *tree, depth as nat, after, trace@);
        lemma_spine_plan(tree0, trace@);
        lemma_plan_put(tree0, *tree, depth as nat, after);
        lemma_plan_grown(b, before, after, true, v@);
        lemma_plan(before);
        lemma_plan(after);
        lemma_forked_at(plan(tree0), depth as nat);
        lemma_forked_sown(b, plan(before), true, v@);
        let procs = w.pnames.len();
        let f = frames@[depth as int];
        assert(kempt(plan(before), f, procs));
        assert forall|k: int| 0 <= k < plan(after).kids.len() implies !f.explored@.contains(
            (#[trigger] plan(after).kids[k]).0.pid,
        ) by {
            if k < before.len() {
                assert(plan(after).kids[k].0 == plan(before).kids[k].0);
            }
        }
        lemma_tidy_put(plan(tree0), frames@, procs, depth as nat, plan(after));
    }
    match r {
        InsertResult::Grafted => RaceOutcome::Grafted { insert_depth: depth },
        InsertResult::ExistingLeaf => RaceOutcome::ExistingLeaf { insert_depth: depth },
    }
}

/// Planting at a node whose first child is being explored leaves that child alone.
proof fn lemma_grown_first(b: Beh, before: Wut, after: Wut, v: Seq<Transition>)
    requires
        before.len() > 0,
        grown(b, before, after, true, v),
    ensures
        after.len() > 0,
        after.children@[0] == before.children@[0],
{
    let k = pick(b, before, pids(v), 0);
    if k >= before.len() && v.len() > 0 {
        assert(after.children@.drop_last()[0] == after.children@[0]);
    }
}

/// How a fragment `v` resolved at `depth`, where the behaviour is `b` and `sleep` is asleep: it
/// cannot be run; a sleeper covers it; or it is planted.
pub open spec fn reversed<O: Object, P: Process<Op = O::Op, Reply = O::Reply>>(
    b: Beh,
    sleep: Word,
    before: Wut,
    after: Wut,
    depth: usize,
    v: Seq<Transition>,
    outcome: RaceOutcome,
) -> bool {
    match outcome {
        RaceOutcome::Disabling => after == before && !walkable(b, pids(v)),
        RaceOutcome::CoveredBySleeper { insert_depth, covering_pid } => {
            &&& after == before
            &&& walkable(b, pids(v))
            &&& insert_depth == depth
            &&& sleep.contains(covering_pid)
            &&& wi(b, pids(v), covering_pid)
            &&& coverer(b, sleep, pids(v)) == Some(covering_pid)
        },
        RaceOutcome::ExistingLeaf { insert_depth } => {
            &&& planted::<O, P>(b, sleep, before, after, depth, v)
            &&& insert_depth == depth
            &&& !grafts(b, node(before, depth as nat), true, v)
        },
        RaceOutcome::Grafted { insert_depth } => {
            &&& planted::<O, P>(b, sleep, before, after, depth, v)
            &&& insert_depth == depth
            &&& grafts(b, node(before, depth as nat), true, v)
        },
    }
}

/// No sleeper covers the fragment, which is planted in the node at `depth`.
pub open spec fn planted<O: Object, P: Process<Op = O::Op, Reply = O::Reply>>(
    b: Beh,
    sleep: Word,
    before: Wut,
    after: Wut,
    depth: usize,
    v: Seq<Transition>,
) -> bool {
    &&& walkable(b, pids(v))
    &&& coverer(b, sleep, pids(v)) is None
    &&& forall|q: ProcessID| #[trigger] sleep.contains(q) ==> !wi(b, pids(v), q)
    &&& replaced(before, after, depth as nat, node(after, depth as nat))
    &&& grown(b, node(before, depth as nat), node(after, depth as nat), true, v)
}

/// How a search ended: well, or with a failing schedule.
pub open spec fn ending<'a, O, P, F>(r: Result<(), FailedState<'a, O, P, F>>) -> Option<
    Seq<Transition>,
> where
    O: Object,
    P: Process<Op = O::Op, Reply = O::Reply>,
    F: Fn(World<O, P>) -> World<O, P>,
 {
    match r {
        Ok(_) => None,
        Err(f) => Some(f.schedule()),
    }
}

/// What the steps of a search that ended with `end` amount to. The states visited are those of a
/// tour, which ends with the failing schedule if there is one. The complete interleavings but for
/// the failing one, which comes last, ended cleanly. For a program whose dependency relation can be
/// relied on, no two of them are of one class, and a search that ended well has one of each; and the
/// process at the head of the frontier is the next to step whenever a step shows where to go on.
pub open spec fn chronicle<O: Object, P: Process<Op = O::Op, Reply = O::Reply>>(
    w: WorldModel<O::Model, P::Model, P::Reply>,
    notes: Seq<Note>,
    end: Option<Seq<Transition>>,
) -> bool {
    &&& toured::<O, P>(w, visits(notes))
    &&& dependable::<O, P>(w) ==> guided::<O, P>(w, notes)
    &&& match end {
        None => {
            &&& cleanly::<O, P>(w, maximals(notes))
            &&& dependable::<O, P>(w) ==> all_classes_visited::<O, P>(w, visits(notes))
            &&& dependable::<O, P>(w) && ready_all::<O>(started::<O, P>(w).world.objs).len() > 0
                ==> one_per_class::<O, P>(w, maximals(notes))
        },
        Some(trace) => {
            &&& visits(notes).last() == trace
            &&& if trace.len() == 0 {
                maximals(notes).len() == 0
            } else {
                &&& maximals(notes).len() > 0
                &&& maximals(notes).last() == trace
                &&& cleanly::<O, P>(w, maximals(notes).drop_last())
            }
        },
    }
}

/// The schedules `ts` are complete and ended cleanly and, where the dependency relation can be relied
/// on, no two are of one class.
pub open spec fn cleanly<O: Object, P: Process<Op = O::Op, Reply = O::Reply>>(
    w: WorldModel<O::Model, P::Model, P::Reply>,
    ts: Seq<Seq<Transition>>,
) -> bool {
    &&& forall|i: int| 0 <= i < ts.len() ==> finished::<O, P>(w, #[trigger] ts[i])
    &&& dependable::<O, P>(w) && ready_all::<O>(started::<O, P>(w).world.objs).len() > 0
        ==> forall|i: int, j: int|
        0 <= i < j < ts.len() ==> !same_class::<O, P>(w, #[trigger] ts[i], #[trigger] ts[j])
}

/// Runs the search from `root`, the starting state. The steps it reports and its outcome are those of
/// the one search that the program has.
#[verifier::rlimit(50)]
#[verifier::spinoff_prover]
pub fn run<'a, O, P, F, Ob>(root: State<'a, O, P, F>, observer: &mut Ob) -> (r: Result<
    (),
    FailedState<'a, O, P, F>,
>) where
    O: Object,
    P: Process<Op = O::Op, Reply = O::Reply>,
    F: Fn(World<O, P>) -> World<O, P>,
    Ob: Observer<O, P, F>,

    requires
        root.valid(),
        root@.trace.len() == 0,
    ensures
        r matches Err(f) ==> f.valid() && f.program() == root.program(),
        clean::<O, P>(root.program()) ==> r is Ok,
        root@.failure is Some ==> (r matches Err(f) && f.schedule().len() == 0),
        dependable::<O, P>(root.program()) ==> (r is Ok <==> clean::<O, P>(root.program())),
        exists|notes: Seq<Note>| #[trigger]
            tells::<O, P>(root.program(), notes, ending(r)) && chronicle::<O, P>(
                root.program(),
                notes,
                ending(r),
            ) && informed::<O, P, F, Ob>(*old(observer), *final(observer), notes),
{
    let ghost w = root.program();
    let ghost procs = w.pnames.len();
    let ghost height = weight::<P>(w.sched.procs);
    let ghost o0 = *observer;
    proof {
        root.lemma_valid();
    }
    let mut tree = Wut::new();
    let mut frames: Vec<Frame> = Vec::new();
    let mut prefix: Vec<Transition> = Vec::new();
    frames.push(
        Frame {
            sleep: Vec::new(),
            pending: slice_to_vec(root.enabled()),
            explored: Ghost(Seq::empty()),
        },
    );
    proof {
        lemma_outset::<O, P>(w, tree, frames@, prefix@);
        assert(prefix@ =~= root@.trace);
    }
    report(
        observer,
        Step::Visit,
        StepCx::new(&tree, frames.as_slice(), prefix.as_slice(), &root),
    );
    let ghost first = Note {
        told: Told::Visit { trace: Seq::empty() },
        stand: outset(),
    };
    let ghost mut notes: Seq<Note> = seq![first];
    proof {
        lemma_tour_start::<O, P>(w, root@.trace);
        lemma_one_note(first);
        assert(root@.trace =~= Seq::empty());
    }
    if root.is_failed() {
        let failed = FailedState::from_state(root);
        proof {
            failed.lemma_valid();
            assert(saga::<O, P>(w, 0).notes =~= notes);
            assert(saga::<O, P>(w, 0).end == Some(Some(failed.schedule())));
            assert(tells::<O, P>(w, notes, Some(failed.schedule())));
            lemma_sure_start::<O, P>(w, notes);
            lemma_sure_guided::<O, P>(w, notes, Some(failed.schedule()));
        }
        return Err(failed);
    }
    let view = root.to_view();
    proof {
        lemma_ready_offers::<O>(root@.world.objs);
    }
    match seed(&root, &frames[0].sleep) {
        Some(p) => {
            if let Some(seeded) = resolve(&root, p) {
                let branch = vec![seeded];
                tree.graft(branch.as_slice());
                let ghost o1 = *observer;
                proof {
                    assert(branch@.drop_first() =~= Seq::empty());
                    assert(branch@ =~= seq![seeded]);
                    assert(frames@[0].sleep@ =~= Seq::empty());
                    lemma_root_seeded::<O, P>(w, tree, frames@, prefix@, seeded);
                }
                report(
                    observer,
                    Step::RootSeed { seeded },
                    StepCx::new(&tree, frames.as_slice(), prefix.as_slice(), &root),
                );
                proof {
                    let more = Note {
                        told: Told::RootSeed { seeded },
                        stand: stand(tree, frames@, prefix@),
                    };
                    lemma_told_more::<O, P, F, Ob>(o0, o1, *observer, notes, seq![more]);
                    lemma_counts_push(notes, more);
                    assert(notes + seq![more] =~= notes.push(more));
                    notes = notes.push(more);
                }
            }
        },
        None => {
            let ghost o1 = *observer;
            report(
                observer,
                Step::RootEmpty,
                StepCx::new(&tree, frames.as_slice(), prefix.as_slice(), &root),
            );
            let ghost o2 = *observer;
            report(
                observer,
                Step::Done,
                StepCx::new(&tree, frames.as_slice(), prefix.as_slice(), &root),
            );
            proof {
                let e = Note { told: Told::RootEmpty, stand: outset() };
                let d = Note { told: Told::Done, stand: outset() };
                assert(frames@[0].sleep@ =~= Seq::empty());
                lemma_told_more::<O, P, F, Ob>(o0, o1, o2, notes, seq![e]);
                lemma_counts_push(notes, e);
                assert(notes + seq![e] =~= notes.push(e));
                lemma_told_more::<O, P, F, Ob>(o0, o2, *observer, notes.push(e), seq![d]);
                lemma_counts_push(notes.push(e), d);
                assert(notes.push(e) + seq![d] =~= notes.push(e).push(d));
                notes = notes.push(e).push(d);
            }
        },
    }
    let mut cur = root;
    let mut need_replay = false;
    let ghost mut turn: nat = 0;
    proof {
        lemma_stack_bounds::<O, P>(w, tree, frames@, prefix@);
        assert(saga::<O, P>(w, 0).notes =~= notes);
        assert(saga::<O, P>(w, 0).now == stand(tree, frames@, prefix@));
        assert(visits(notes) =~= seq![root@.trace]);
        assert(maximals(notes) =~= Seq::empty());
    }
    let ghost mut led = lemma_book_start::<O, P>(w, tree, frames@);
    proof {
        reveal(on_course);
        lemma_sure_start::<O, P>(w, notes);
        lemma_logged_start::<O, P>(w, notes, frames@, prefix@, led);
    }
    loop
        invariant
            world_sound::<O, P>(w),
            started::<O, P>(w).failure is None,
            root@ == started::<O, P>(w),
            booked::<O, P>(w, tree, frames@, prefix@, led),
            ahead::<O, P>(w, tree, frames@, prefix@, led),
            o0 == *old(observer),
            informed::<O, P, F, Ob>(o0, *observer, notes),
            on_course::<O, P>(w, turn, tree, frames@, prefix@, need_replay, notes),
            logged::<O, P>(w, notes, frames@, prefix@, led),
            sure::<O, P>(w, notes),
            view.valid(),
            view.program() == w,
            cur.valid(),
            cur.program() == w,
            w == root.program(),
            procs == w.pnames.len(),
            height == weight::<P>(w.sched.procs),
            stacked::<O, P>(w, tree, frames@, prefix@),
            !need_replay ==> cur@ == reached::<O, P>(w, prefix@),
            debt(procs, height, used(tours(frames@))) >= 0,
        decreases
                debt(procs, height, used(tours(frames@))),
                frames@.len(),
                node(tree, prefix@.len()).len(),
    {
        let ghost tree0 = tree;
        let ghost frames0 = frames@;
        let ghost prefix0 = prefix@;
        let ghost stale0 = need_replay;
        let ghost notes0 = notes;
        let ghost o1 = *observer;
        proof {
            cur.lemma_valid();
            lemma_stack_bounds::<O, P>(w, tree, frames@, prefix@);
            lemma_spine_plan(tree, prefix@);
            lemma_plan(node(tree, prefix@.len()));
        }
        let depth: usize = prefix.len();
        let exhausted = node_at(&tree, depth).children.len() == 0;
        if exhausted {
            if pop_exhausted(&mut tree, &mut frames, &mut prefix, &cur, observer) {
                conclude(&tree, &frames, &prefix, &cur, observer);
                proof {
                    let d = Note { told: Told::Done, stand: stand(tree, frames@, prefix@) };
                    lemma_told_more::<O, P, F, Ob>(o0, o1, *observer, notes, seq![d]);
                    assert(notes + seq![d] =~= notes.push(d));
                    assert(prefix0 =~= Seq::empty());
                    lemma_turn_over::<O, P>(w, turn, tree, frames@, prefix@, stale0, notes, led);
                }
                return Ok(());
            }
            need_replay = true;
            proof {
                let more = pop_note(stand(tree0, frames0, prefix0));
                lemma_told_more::<O, P, F, Ob>(o0, o1, *observer, notes, seq![more]);
                assert(notes + seq![more] =~= notes.push(more));
                notes = notes.push(more);
                lemma_sure_push::<O, P>(w, notes0, more);
                lemma_logged_up::<O, P>(w, notes0, more, frames0, frames@, prefix0, led);
                lemma_course_up::<O, P>(
                    w,
                    turn,
                    tree0,
                    frames0,
                    prefix0,
                    stale0,
                    notes0,
                    tree,
                    frames@,
                    prefix@,
                );
                led = lemma_book_up::<O, P>(w, tree0, tree, frames0, frames@, prefix0, led);
                turn = turn + 1;
                lemma_stack_bounds::<O, P>(w, tree, frames@, prefix@);
                lemma_used_pop(frames0, frames@);
                lemma_pop(procs, height, used(tours(frames0)));
            }
            continue;
        }
        proof {
            if dependable::<O, P>(w) {
                lemma_book_next::<O, P>(w, tree, frames@, prefix@, led);
            }
        }
        refresh(&tree, &frames, &prefix, &mut cur, &view, need_replay, observer);
        need_replay = false;
        proof {
            let here = stand(tree, frames@, prefix@);
            lemma_told_more::<O, P, F, Ob>(o0, o1, *observer, notes, replay_notes(here, stale0));
            lemma_logged_replay::<O, P>(w, notes, here, stale0, frames@, prefix@, led);
            lemma_sure_add::<O, P>(w, notes, replay_notes(here, stale0));
            notes = notes + replay_notes(here, stale0);
        }
        let ghost o2 = *observer;
        let ghost notes1 = notes;
        let p: ProcessID = node_at(&tree, depth).children[0].0.pid;
        let next = resolve(&cur, p);
        if next.is_none() {
            let n = node_at_mut(&mut tree, depth);
            n.children.remove(0);
            proof {
                lemma_book_void::<O, P>(w, tree, frames@, prefix@, led);
                lemma_forgone::<O, P>(w, tree0, tree, frames@, prefix@);
                lemma_course_forgone::<O, P>(
                    w,
                    turn,
                    tree0,
                    frames@,
                    prefix@,
                    stale0,
                    notes0,
                    tree,
                );
                turn = turn + 1;
            }
            continue;
        }
        let p_t = next.unwrap();
        let failed = descend(&tree, &mut frames, &mut prefix, &mut cur, p_t, observer);
        proof {
            let ns = descent_notes::<O, P>(w, stand(tree, frames0, prefix0), p_t);
            lemma_told_more::<O, P, F, Ob>(o0, o2, *observer, notes, ns);
            lemma_sure_pair::<O, P>(w, ns);
            lemma_sure_add::<O, P>(w, notes, ns);
            notes = notes + ns;
        }
        if failed {
            let failed = FailedState::from_state(cur);
            proof {
                failed.lemma_valid();
                lemma_turn_failed::<O, P>(
                    w,
                    turn,
                    tree,
                    frames0,
                    prefix0,
                    stale0,
                    notes0,
                    notes,
                    p_t,
                    led,
                );
            }
            return Err(failed);
        }
        proof {
            lemma_logged_down::<O, P>(w, tree, notes1, frames0, frames@, prefix0, p_t, led);
            lemma_stack_bounds::<O, P>(w, tree, frames@, prefix@);
            lemma_used_descend(frames0, frames@);
            lemma_descend(procs, height, used(tours(frames0)), 0);
            led = lemma_book_down::<O, P>(w, tree, frames0, frames@, prefix0, p_t, led);
        }
        let ghost o3 = *observer;
        let ghost notes2 = notes;
        let ghost down = stand(tree, frames@, prefix@);
        let arrived = arrive(&mut tree, &frames, &prefix, &cur, &view, observer, Ghost(led));
        need_replay = arrived.0;
        proof {
            let more = arrival_notes::<O, P>(w, down);
            lemma_told_more::<O, P, F, Ob>(o0, o3, *observer, notes, more);
            lemma_sure_add::<O, P>(w, notes, more);
            notes = notes + more;
            lemma_logged_arrived::<O, P>(w, notes2, down, frames@, prefix@, led, arrived.1@);
            lemma_course_down::<O, P>(
                w,
                turn,
                tree0,
                frames0,
                prefix0,
                stale0,
                notes0,
                p_t,
                tree,
                frames@,
                prefix@,
                notes,
            );
            led = arrived.1@;
            turn = turn + 1;
        }
    }
}

/// What is reported on arriving at a new state: the complete interleaving and its races, or how the
/// search goes on.
spec fn arrival_notes<O: Object, P: Process<Op = O::Op, Reply = O::Reply>>(
    w: WorldModel<O::Model, P::Model, P::Reply>,
    down: Stand,
) -> Seq<Note> {
    if ready_all::<O>(reached::<O, P>(w, down.prefix).world.objs).len() == 0 {
        seq![Note { told: Told::Maximal { trace: down.prefix, failure: false }, stand: down }]
            + mending::<O, P>(w, down, down.prefix.len() + 1, 1).1
    } else {
        seq![seed_note::<O, P>(w, down)]
    }
}

/// Sees to a new state: plans the reversals of a complete interleaving, or seeds the new node.
/// Returns whether the interleaving is complete.
fn arrive<'a, O, P, F, Ob>(
    tree: &mut Wut,
    frames: &Vec<Frame>,
    prefix: &Vec<Transition>,
    cur: &State<'a, O, P, F>,
    view: &StateView<'a, O, P, F>,
    observer: &mut Ob,
    Ghost(led): Ghost<Ledger>,
) -> (r: (bool, Ghost<Ledger>)) where
    O: Object,
    P: Process<Op = O::Op, Reply = O::Reply>,
    F: Fn(World<O, P>) -> World<O, P>,
    Ob: Observer<O, P, F>,

    requires
        cur.valid(),
        view.valid(),
        view.program() == cur.program(),
        cur@ == reached::<O, P>(cur.program(), prefix@),
        cur@.trace == prefix@,
        stacked::<O, P>(cur.program(), *old(tree), frames@, prefix@),
        frames@.last().explored@.len() == 0,
        booked::<O, P>(cur.program(), *old(tree), frames@, prefix@, led),
        dependable::<O, P>(cur.program()) ==> {
            &&& forall|i: int|
                0 <= i < led.xs.len() ==> !stems(#[trigger] led.xs[i], pids(prefix@))
            &&& node(*old(tree), prefix@.len()).len() == 0 ==> led.goals.last() == Set::<
                Word,
            >::empty() && frames@.last().sleep@.len() == 0
        },
    ensures
        r.0 == (ready_all::<O>(cur@.world.objs).len() == 0),
        stacked::<O, P>(cur.program(), *final(tree), frames@, prefix@),
        booked::<O, P>(cur.program(), *final(tree), frames@, prefix@, r.1@),
        ahead::<O, P>(cur.program(), *final(tree), frames@, prefix@, r.1@),
        informed::<O, P, F, Ob>(
            *old(observer),
            *final(observer),
            arrival_notes::<O, P>(cur.program(), stand(*old(tree), frames@, prefix@)),
        ),
        stand(*final(tree), frames@, prefix@) == if r.0 {
            mending::<O, P>(
                cur.program(),
                stand(*old(tree), frames@, prefix@),
                prefix@.len() + 1,
                1,
            ).0
        } else {
            fed::<O, P>(cur.program(), stand(*old(tree), frames@, prefix@))
        },
        r.1@.xs == if r.0 {
            led.xs.push(pids(prefix@))
        } else {
            led.xs
        },
        sure::<O, P>(
            cur.program(),
            arrival_notes::<O, P>(cur.program(), stand(*old(tree), frames@, prefix@)),
        ),
{
    proof {
        reveal(stacked);
    }
    let ghost w = cur.program();
    let ghost down = stand(*tree, frames@, prefix@);
    let ghost o0 = *observer;
    proof {
        cur.lemma_valid();
    }
    if cur.enabled().len() == 0 {
        report(
            observer,
            Step::Maximal { trace: prefix.as_slice(), failure: false },
            StepCx::new(tree, frames.as_slice(), prefix.as_slice(), cur),
        );
        let ghost o1 = *observer;
        let planned = plan_reversals(tree, frames, prefix, cur, view, observer, Ghost(led));
        let ghost led2 = lemma_book_end::<O, P>(w, *tree, frames@, prefix@, planned@);
        proof {
            let m = Note { told: Told::Maximal { trace: prefix@, failure: false }, stand: down };
            let races = mending::<O, P>(w, down, prefix@.len() + 1, 1).1;
            lemma_told_more::<O, P, F, Ob>(o0, o1, *observer, seq![m], races);
            lemma_mending::<O, P>(w, down, prefix@.len() + 1, 1);
            reveal(sure);
            let all = seq![m] + races;
            assert forall|k: int| 0 <= k < all.len() && points(#[trigger] all[k]) implies false by {
                if k > 0 {
                    assert(all[k] == races[k - 1]);
                    assert(races[k - 1].told is Race);
                }
            }
        }
        (true, Ghost(led2))
    } else {
        let ghost tree1 = *tree;
        proof {
            if dependable::<O, P>(w) && node(*tree, prefix@.len()).len() > 0 {
                lemma_book_next::<O, P>(w, *tree, frames@, prefix@, led);
            }
        }
        seed_child(tree, cur, frames, prefix, observer);
        proof {
            lemma_spine_plan(*tree, prefix@);
            lemma_plan(node(*tree, prefix@.len()));
            assert(sure::<O, P>(w, seq![seed_note::<O, P>(w, down)])) by {
                reveal(sure);
            }
            lemma_book_seed::<O, P>(w, tree1, *tree, frames@, prefix@, led);
        }
        (false, Ghost(led))
    }
}

/// What is counted on arriving: the complete interleaving, if it is one.
proof fn lemma_arrival_counts<O: Object, P: Process<Op = O::Op, Reply = O::Reply>>(
    w: WorldModel<O::Model, P::Model, P::Reply>,
    notes: Seq<Note>,
    down: Stand,
)
    ensures
        visits(notes + arrival_notes::<O, P>(w, down)) == visits(notes),
        maximals(notes + arrival_notes::<O, P>(w, down)) == if ready_all::<O>(
            reached::<O, P>(w, down.prefix).world.objs,
        ).len() == 0 {
            maximals(notes).push(down.prefix)
        } else {
            maximals(notes)
        },
{
    if ready_all::<O>(reached::<O, P>(w, down.prefix).world.objs).len() == 0 {
        let n = Note { told: Told::Maximal { trace: down.prefix, failure: false }, stand: down };
        let races = mending::<O, P>(w, down, down.prefix.len() + 1, 1).1;
        let all = notes.push(n) + races;
        assert(notes + (seq![n] + races) =~= all);
        lemma_counts_push(notes, n);
        lemma_mending::<O, P>(w, down, down.prefix.len() + 1, 1);
        lemma_counts_add(notes.push(n), races);
        assert(visits(all) =~= visits(notes));
        assert(maximals(all) =~= maximals(notes).push(down.prefix));
    } else {
        let n = seed_note::<O, P>(w, down);
        assert(notes + seq![n] =~= notes.push(n));
        lemma_counts_push(notes, n);
    }
}

/// Arriving is logged.
proof fn lemma_logged_arrived<O: Object, P: Process<Op = O::Op, Reply = O::Reply>>(
    w: WorldModel<O::Model, P::Model, P::Reply>,
    notes: Seq<Note>,
    down: Stand,
    frames: Seq<Frame>,
    prefix: Seq<Transition>,
    led: Ledger,
    led2: Ledger,
)
    requires
        world_sound::<O, P>(w),
        logged::<O, P>(w, notes, frames, prefix, led),
        down.prefix == prefix,
        feasible::<O, P>(w, prefix),
        reached::<O, P>(w, prefix).failure is None,
        led2.xs == if ready_all::<O>(reached::<O, P>(w, prefix).world.objs).len() == 0 {
            led.xs.push(pids(prefix))
        } else {
            led.xs
        },
    ensures
        logged::<O, P>(w, notes + arrival_notes::<O, P>(w, down), frames, prefix, led2),
{
    let complete = ready_all::<O>(reached::<O, P>(w, prefix).world.objs).len() == 0;
    lemma_arrival_counts::<O, P>(w, notes, down);
    let all = notes + arrival_notes::<O, P>(w, down);
    lemma_logged_more::<O, P>(w, notes, all, frames, prefix, led, led2, complete);
}

/// A complete interleaving more, or none, is logged.
#[verifier::spinoff_prover]
proof fn lemma_logged_more<O: Object, P: Process<Op = O::Op, Reply = O::Reply>>(
    w: WorldModel<O::Model, P::Model, P::Reply>,
    notes: Seq<Note>,
    all: Seq<Note>,
    frames: Seq<Frame>,
    prefix: Seq<Transition>,
    led: Ledger,
    led2: Ledger,
    complete: bool,
)
    requires
        world_sound::<O, P>(w),
        logged::<O, P>(w, notes, frames, prefix, led),
        feasible::<O, P>(w, prefix),
        reached::<O, P>(w, prefix).failure is None,
        complete ==> ready_all::<O>(reached::<O, P>(w, prefix).world.objs).len() == 0,
        visits(all) == visits(notes),
        maximals(all) == if complete {
            maximals(notes).push(prefix)
        } else {
            maximals(notes)
        },
        led2.xs == if complete {
            led.xs.push(pids(prefix))
        } else {
            led.xs
        },
    ensures
        logged::<O, P>(w, all, frames, prefix, led2),
{
    lemma_runs::<O, P>(w, prefix, 0);
    reveal(logged);
    let ts = maximals(notes);
    assert(ts.push(prefix).map_values(|t: Seq<Transition>| pids(t)) =~= ts.map_values(
        |t: Seq<Transition>| pids(t),
    ).push(pids(prefix)));
}

/// A turn up.
proof fn lemma_course_up<O: Object, P: Process<Op = O::Op, Reply = O::Reply>>(
    w: WorldModel<O::Model, P::Model, P::Reply>,
    turn: nat,
    tree: Wut,
    frames: Seq<Frame>,
    prefix: Seq<Transition>,
    stale: bool,
    notes: Seq<Note>,
    tree2: Wut,
    frames2: Seq<Frame>,
    prefix2: Seq<Transition>,
)
    requires
        on_course::<O, P>(w, turn, tree, frames, prefix, stale, notes),
        spine(tree, prefix),
        prefix.len() > 0,
        node(tree, prefix.len()).len() == 0,
        stand(tree2, frames2, prefix2) == backed(stand(tree, frames, prefix)),
    ensures
        on_course::<O, P>(
            w,
            turn + 1,
            tree2,
            frames2,
            prefix2,
            true,
            notes.push(pop_note(stand(tree, frames, prefix))),
        ),
{
    reveal(on_course);
    lemma_spine_plan(tree, prefix);
    lemma_plan(node(tree, prefix.len()));
    assert(saga::<O, P>(w, turn + 1) == onward::<O, P>(w, saga::<O, P>(w, turn)));
}

/// A turn that gives a branch up.
proof fn lemma_course_forgone<O: Object, P: Process<Op = O::Op, Reply = O::Reply>>(
    w: WorldModel<O::Model, P::Model, P::Reply>,
    turn: nat,
    tree: Wut,
    frames: Seq<Frame>,
    prefix: Seq<Transition>,
    stale: bool,
    notes: Seq<Note>,
    tree2: Wut,
)
    requires
        on_course::<O, P>(w, turn, tree, frames, prefix, stale, notes),
        spine(tree, prefix),
        node(tree, prefix.len()).len() > 0,
        !offers::<O>(
            reached::<O, P>(w, prefix).world.objs,
            node(tree, prefix.len()).head(0),
        ),
        stand(tree2, frames, prefix) == forgone(stand(tree, frames, prefix)),
    ensures
        on_course::<O, P>(
            w,
            turn + 1,
            tree2,
            frames,
            prefix,
            false,
            notes + replay_notes(stand(tree, frames, prefix), stale),
        ),
{
    reveal(on_course);
    lemma_replay_notes(saga::<O, P>(w, turn));
    lemma_spine_plan(tree, prefix);
    lemma_plan(node(tree, prefix.len()));
    assert(saga::<O, P>(w, turn + 1) == onward::<O, P>(w, saga::<O, P>(w, turn)));
}

/// What is reported of rebuilding the state, if it has to be.
spec fn replay_notes(s: Stand, stale: bool) -> Seq<Note> {
    if stale {
        seq![Note { told: Told::Replay { prefix: s.prefix }, stand: s }]
    } else {
        Seq::empty()
    }
}

/// Rebuilds the state of the prefix, if it has to be.
fn refresh<'a, O, P, F, Ob>(
    tree: &Wut,
    frames: &Vec<Frame>,
    prefix: &Vec<Transition>,
    cur: &mut State<'a, O, P, F>,
    view: &StateView<'a, O, P, F>,
    stale: bool,
    observer: &mut Ob,
) where
    O: Object,
    P: Process<Op = O::Op, Reply = O::Reply>,
    F: Fn(World<O, P>) -> World<O, P>,
    Ob: Observer<O, P, F>,

    requires
        old(cur).valid(),
        view.valid(),
        view.program() == old(cur).program(),
        stacked::<O, P>(old(cur).program(), *tree, frames@, prefix@),
        !stale ==> old(cur)@ == reached::<O, P>(old(cur).program(), prefix@),
        node(*tree, prefix@.len()).len() > 0,
        dependable::<O, P>(old(cur).program()) ==> offers::<O>(
            reached::<O, P>(old(cur).program(), prefix@).world.objs,
            node(*tree, prefix@.len()).head(0),
        ),
    ensures
        sure::<O, P>(
            old(cur).program(),
            replay_notes(stand(*tree, frames@, prefix@), stale),
        ),
        final(cur).valid(),
        final(cur).program() == old(cur).program(),
        final(cur)@ == reached::<O, P>(old(cur).program(), prefix@),
        informed::<O, P, F, Ob>(
            *old(observer),
            *final(observer),
            replay_notes(stand(*tree, frames@, prefix@), stale),
        ),
{
    proof {
        reveal(stacked);
    }
    proof {
        cur.lemma_valid();
        lemma_reached_sound::<O, P>(cur.program(), prefix@);
        lemma_untold::<O, P, F, Ob>(*observer);
        lemma_spine_plan(*tree, prefix@);
        lemma_plan(node(*tree, prefix@.len()));
        reveal(sure);
    }
    if stale {
        *cur = view.replay(prefix.as_slice());
        report(
            observer,
            Step::Replay { prefix: prefix.as_slice() },
            StepCx::new(tree, frames.as_slice(), prefix.as_slice(), cur),
        );
    }
}

/// A turn down.
proof fn lemma_course_down<O: Object, P: Process<Op = O::Op, Reply = O::Reply>>(
    w: WorldModel<O::Model, P::Model, P::Reply>,
    turn: nat,
    tree: Wut,
    frames: Seq<Frame>,
    prefix: Seq<Transition>,
    stale: bool,
    notes: Seq<Note>,
    t: Transition,
    tree2: Wut,
    frames2: Seq<Frame>,
    prefix2: Seq<Transition>,
    notes2: Seq<Note>,
)
    requires
        on_course::<O, P>(w, turn, tree, frames, prefix, stale, notes),
        spine(tree, prefix),
        node(tree, prefix.len()).len() > 0,
        node(tree, prefix.len()).head(0) == t.pid,
        offers::<O>(reached::<O, P>(w, prefix).world.objs, t.pid),
        t == op_for::<O>(reached::<O, P>(w, prefix).world.objs, t.pid),
        reached::<O, P>(w, prefix.push(t)).failure is None,
        ({
            let s = stand(tree, frames, prefix);
            let down = lowered::<O, P>(w, s, t);
            &&& notes2 == notes + replay_notes(s, stale) + descent_notes::<O, P>(w, s, t)
                + arrival_notes::<O, P>(w, down)
            &&& stand(tree2, frames2, prefix2) == if ready_all::<O>(
                reached::<O, P>(w, prefix.push(t)).world.objs,
            ).len() == 0 {
                mending::<O, P>(w, down, down.prefix.len() + 1, 1).0
            } else {
                fed::<O, P>(w, down)
            }
        }),
    ensures
        on_course::<O, P>(
            w,
            turn + 1,
            tree2,
            frames2,
            prefix2,
            ready_all::<O>(reached::<O, P>(w, prefix.push(t)).world.objs).len() == 0,
            notes2,
        ),
{
    reveal(on_course);
    let s = stand(tree, frames, prefix);
    let down = lowered::<O, P>(w, s, t);
    let r = refreshed(saga::<O, P>(w, turn));
    lemma_spine_plan(tree, prefix);
    lemma_plan(node(tree, prefix.len()));
    assert(saga::<O, P>(w, turn + 1) == onward::<O, P>(w, saga::<O, P>(w, turn)));
    assert(saga::<O, P>(w, turn + 1) == advance::<O, P>(w, r, t));
    lemma_replay_notes(saga::<O, P>(w, turn));
    let notes1 = notes + replay_notes(s, stale) + descent_notes::<O, P>(w, s, t);
    if ready_all::<O>(reached::<O, P>(w, prefix.push(t)).world.objs).len() == 0 {
        let m = Note { told: Told::Maximal { trace: down.prefix, failure: false }, stand: down };
        let races = mending::<O, P>(w, down, down.prefix.len() + 1, 1).1;
        assert(notes1 + (seq![m] + races) =~= notes1.push(m) + races);
    } else {
        assert(notes1 + seq![seed_note::<O, P>(w, down)] =~= notes1.push(
            seed_note::<O, P>(w, down),
        ));
    }
}

/// The driver is where the program's search is after `turn` turns, and has reported the same.
#[verifier::opaque]
spec fn on_course<O: Object, P: Process<Op = O::Op, Reply = O::Reply>>(
    w: WorldModel<O::Model, P::Model, P::Reply>,
    turn: nat,
    tree: Wut,
    frames: Seq<Frame>,
    prefix: Seq<Transition>,
    stale: bool,
    notes: Seq<Note>,
) -> bool {
    saga::<O, P>(w, turn) == (Saga {
        now: stand(tree, frames, prefix),
        stale,
        notes,
        end: None,
    })
}

/// The process at the head of the frontier can step whenever the search says that it goes on there, if
/// the dependency relation can be relied on.
#[verifier::opaque]
spec fn sure<O: Object, P: Process<Op = O::Op, Reply = O::Reply>>(
    w: WorldModel<O::Model, P::Model, P::Reply>,
    notes: Seq<Note>,
) -> bool {
    dependable::<O, P>(w) ==> surefooted::<O, P>(w, notes)
}

proof fn lemma_sure_add<O: Object, P: Process<Op = O::Op, Reply = O::Reply>>(
    w: WorldModel<O::Model, P::Model, P::Reply>,
    x: Seq<Note>,
    y: Seq<Note>,
)
    requires
        sure::<O, P>(w, x),
        sure::<O, P>(w, y),
    ensures
        sure::<O, P>(w, x + y),
{
    reveal(sure);
    let all = x + y;
    if dependable::<O, P>(w) {
        assert forall|k: int| 0 <= k < all.len() && points(#[trigger] all[k]) implies runnable::<
            O,
            P,
        >(w, all[k]) by {
            if k < x.len() {
                assert(all[k] == x[k]);
            } else {
                assert(all[k] == y[k - x.len()]);
            }
        }
    }
}

proof fn lemma_sure_push<O: Object, P: Process<Op = O::Op, Reply = O::Reply>>(
    w: WorldModel<O::Model, P::Model, P::Reply>,
    notes: Seq<Note>,
    n: Note,
)
    requires
        sure::<O, P>(w, notes),
        !points(n),
    ensures
        sure::<O, P>(w, notes.push(n)),
{
    reveal(sure);
    let all = notes.push(n);
    if dependable::<O, P>(w) {
        assert forall|k: int| 0 <= k < all.len() && points(#[trigger] all[k]) implies runnable::<
            O,
            P,
        >(w, all[k]) by {
            assert(all[k] == notes[k]);
        }
    }
}

proof fn lemma_sure_pair<O: Object, P: Process<Op = O::Op, Reply = O::Reply>>(
    w: WorldModel<O::Model, P::Model, P::Reply>,
    ns: Seq<Note>,
)
    requires
        ns.len() == 2,
        !points(ns[0]),
        !points(ns[1]),
    ensures
        sure::<O, P>(w, ns),
{
    reveal(sure);
}

proof fn lemma_sure_start<O: Object, P: Process<Op = O::Op, Reply = O::Reply>>(
    w: WorldModel<O::Model, P::Model, P::Reply>,
    notes: Seq<Note>,
)
    requires
        notes == opening::<O, P>(w).notes,
    ensures
        sure::<O, P>(w, notes),
{
    reveal(sure);
    let objs = started::<O, P>(w).world.objs;
    lemma_seedling_foremost::<O>(objs, Seq::empty());
    if let Some(p) = seedling::<O>(objs, Seq::empty()) {
        let t = op_for::<O>(objs, p);
        assert(ready_all::<O>(objs).contains(t) && t.pid == p);
        assert(chain(seq![t]).kids[0].0 == t);
    }
}

/// At the end, the process at the head of the frontier was the next to step.
proof fn lemma_sure_guided<O: Object, P: Process<Op = O::Op, Reply = O::Reply>>(
    w: WorldModel<O::Model, P::Model, P::Reply>,
    notes: Seq<Note>,
    end: Option<Seq<Transition>>,
)
    requires
        sure::<O, P>(w, notes),
        tells::<O, P>(w, notes, end),
    ensures
        dependable::<O, P>(w) ==> guided::<O, P>(w, notes),
{
    reveal(sure);
    if dependable::<O, P>(w) {
        lemma_guided::<O, P>(w, notes, end);
    }
}

/// What the steps reported so far amount to.
#[verifier::opaque]
spec fn logged<O: Object, P: Process<Op = O::Op, Reply = O::Reply>>(
    w: WorldModel<O::Model, P::Model, P::Reply>,
    notes: Seq<Note>,
    frames: Seq<Frame>,
    prefix: Seq<Transition>,
    led: Ledger,
) -> bool {
    let vs = visits(notes);
    let ts = maximals(notes);
    &&& toured::<O, P>(w, vs)
    &&& vs.contains(prefix)
    &&& mapped(vs, frames, prefix)
    &&& forall|i: int| 0 <= i < ts.len() ==> finished::<O, P>(w, #[trigger] ts[i])
    &&& forall|i: int| 0 <= i < ts.len() ==> vs.contains(#[trigger] ts[i])
    &&& dependable::<O, P>(w) && ready_all::<O>(started::<O, P>(w).world.objs).len() > 0 ==> led.xs
        == ts.map_values(|t: Seq<Transition>| pids(t))
}

proof fn lemma_one_note(n: Note)
    ensures
        visits(seq![n]) == match n.told {
            Told::Visit { trace } => seq![trace],
            _ => Seq::empty(),
        },
        maximals(seq![n]) == match n.told {
            Told::Maximal { trace, failure } => seq![trace],
            _ => Seq::empty(),
        },
{
    let none = Seq::<Note>::empty();
    assert(none.push(n) =~= seq![n]);
    lemma_counts_push(none, n);
    assert(visits(none) =~= Seq::empty());
    assert(maximals(none) =~= Seq::empty());
    if let Told::Visit { trace } = n.told {
        assert(visits(none).push(trace) =~= seq![trace]);
    }
    if let Told::Maximal { trace, failure } = n.told {
        assert(maximals(none).push(trace) =~= seq![trace]);
    }
}

/// The stack at the start.
proof fn lemma_outset<O: Object, P: Process<Op = O::Op, Reply = O::Reply>>(
    w: WorldModel<O::Model, P::Model, P::Reply>,
    tree: Wut,
    frames: Seq<Frame>,
    prefix: Seq<Transition>,
)
    requires
        tree.len() == 0,
        frames.len() == 1,
        frames[0].sleep@.len() == 0,
        frames[0].explored@.len() == 0,
        frames[0].pending@ == ready_all::<O>(started::<O, P>(w).world.objs),
        prefix.len() == 0,
    ensures
        grounded::<O, P>(w, tree, frames, prefix),
        stand(tree, frames, prefix) == outset(),
        started::<O, P>(w).failure is None ==> stacked::<O, P>(w, tree, frames, prefix),
{
    reveal(stacked);
    assert(prefix =~= Seq::empty());
    assert(prefix.take(0) =~= prefix);
    lemma_plan(tree);
    assert(plan(tree).kids =~= leaf().kids);
    assert(frames[0].sleep@ =~= Seq::empty());
    assert(sleeps(frames) =~= seq![Seq::empty()]);
    assert(at(plan(tree), 0) == plan(tree));
    assert(kempt(plan(tree), frames[0], w.pnames.len()));
}

/// The stack once the starting state is seeded.
proof fn lemma_root_seeded<O: Object, P: Process<Op = O::Op, Reply = O::Reply>>(
    w: WorldModel<O::Model, P::Model, P::Reply>,
    tree: Wut,
    frames: Seq<Frame>,
    prefix: Seq<Transition>,
    t: Transition,
)
    requires
        is_chain(tree, seq![t]),
        frames.len() == 1,
        frames[0].sleep@.len() == 0,
        frames[0].explored@.len() == 0,
        frames[0].pending@ == ready_all::<O>(started::<O, P>(w).world.objs),
        started::<O, P>(w).failure is None,
        prefix.len() == 0,
    ensures
        stacked::<O, P>(w, tree, frames, prefix),
        grounded::<O, P>(w, tree, frames, prefix),
        stand(tree, frames, prefix) == (Stand { tree: chain(seq![t]), ..outset() }),
{
    reveal(stacked);
    assert(prefix =~= Seq::empty());
    assert(prefix.take(0) =~= prefix);
    lemma_plan_chain(tree, seq![t]);
    lemma_forked_chain(seq![t]);
    assert(frames[0].sleep@ =~= Seq::empty());
    assert(sleeps(frames) =~= seq![Seq::empty()]);
    assert(kempt(plan(tree), frames[0], w.pnames.len()));
}

/// The stack when the first branch of its top node is given up.
proof fn lemma_forgone<O: Object, P: Process<Op = O::Op, Reply = O::Reply>>(
    w: WorldModel<O::Model, P::Model, P::Reply>,
    before: Wut,
    after: Wut,
    frames: Seq<Frame>,
    prefix: Seq<Transition>,
)
    requires
        stacked::<O, P>(w, before, frames, prefix),
        node(before, prefix.len()).len() > 0,
        replaced(before, after, prefix.len(), node(after, prefix.len())),
        node(after, prefix.len()).children@ == node(before, prefix.len()).children@.remove(0),
    ensures
        stacked::<O, P>(w, after, frames, prefix),
        stand(after, frames, prefix) == forgone(stand(before, frames, prefix)),
{
    reveal(stacked);
    let d = prefix.len();
    let p = plan(before);
    let n = plan(node(after, d));
    lemma_spine_kept(before, after, d, node(after, d), prefix);
    lemma_spine_plan(before, prefix);
    lemma_plan(node(before, d));
    lemma_plan(node(after, d));
    assert(n.kids =~= at(p, d).kids.remove(0));
    assert(n == Plan { kids: at(p, d).kids.remove(0) });
    lemma_plan_put(before, after, d, node(after, d));
    lemma_forked_at(p, d);
    lemma_forked_less(at(p, d));
    assert(kempt(at(p, d), frames[d as int], w.pnames.len()));
    assert(kempt(n, frames[d as int], w.pnames.len())) by {
        assert forall|k: int| 0 <= k < n.kids.len() implies !frames[d as int].explored@.contains(
            (#[trigger] n.kids[k]).0.pid,
        ) by {
            assert(n.kids[k] == at(p, d).kids[k + 1]);
        }
    }
    lemma_tidy_put(p, frames, w.pnames.len(), d, n);
}

/// The log at the start.
proof fn lemma_logged_start<O: Object, P: Process<Op = O::Op, Reply = O::Reply>>(
    w: WorldModel<O::Model, P::Model, P::Reply>,
    notes: Seq<Note>,
    frames: Seq<Frame>,
    prefix: Seq<Transition>,
    led: Ledger,
)
    requires
        visits(notes) == seq![prefix],
        maximals(notes).len() == 0,
        prefix.len() == 0,
        dependable::<O, P>(w) && ready_all::<O>(started::<O, P>(w).world.objs).len() > 0
            ==> led.xs.len() == 0,
    ensures
        logged::<O, P>(w, notes, frames, prefix, led),
{
    reveal(logged);
    lemma_tour_start::<O, P>(w, prefix);
    if led.xs.len() == 0 {
        assert(led.xs =~= maximals(notes).map_values(|t: Seq<Transition>| pids(t)));
    }
}

/// Rebuilding the state keeps the log.
proof fn lemma_logged_replay<O: Object, P: Process<Op = O::Op, Reply = O::Reply>>(
    w: WorldModel<O::Model, P::Model, P::Reply>,
    notes: Seq<Note>,
    s: Stand,
    stale: bool,
    frames: Seq<Frame>,
    prefix: Seq<Transition>,
    led: Ledger,
)
    requires
        logged::<O, P>(w, notes, frames, prefix, led),
    ensures
        logged::<O, P>(w, notes + replay_notes(s, stale), frames, prefix, led),
{
    lemma_replay_counts(notes, s, stale);
    reveal(logged);
}

/// Rebuilding the state counts for nothing.
proof fn lemma_replay_counts(notes: Seq<Note>, s: Stand, stale: bool)
    ensures
        visits(notes + replay_notes(s, stale)) == visits(notes),
        maximals(notes + replay_notes(s, stale)) == maximals(notes),
{
    let n = Note { told: Told::Replay { prefix: s.prefix }, stand: s };
    lemma_counts_push(notes, n);
    if stale {
        assert(notes + replay_notes(s, stale) =~= notes.push(n));
    } else {
        assert(notes + replay_notes(s, stale) =~= notes);
    }
}

/// Rebuilding the state, in the program's search.
proof fn lemma_replay_notes(s: Saga)
    ensures
        refreshed(s).notes == s.notes + replay_notes(s.now, s.stale),
{
    assert(refreshed(s).notes =~= s.notes + replay_notes(s.now, s.stale));
}

/// Backing out keeps the log.
proof fn lemma_logged_up<O: Object, P: Process<Op = O::Op, Reply = O::Reply>>(
    w: WorldModel<O::Model, P::Model, P::Reply>,
    notes: Seq<Note>,
    n: Note,
    frames: Seq<Frame>,
    frames2: Seq<Frame>,
    prefix: Seq<Transition>,
    led: Ledger,
)
    requires
        logged::<O, P>(w, notes, frames, prefix, led),
        n.told is Pop,
        prefix.len() > 0,
        frames.len() == prefix.len() + 1,
        frames2.len() == frames.len() - 1,
        forall|m: int| 0 <= m < prefix.len() - 1 ==> #[trigger] frames2[m] == frames[m],
        frames2.last().explored@ == frames[prefix.len() - 1].explored@.push(prefix.last().pid),
    ensures
        forall|led2: Ledger|
            led2.xs == led.xs ==> #[trigger] logged::<O, P>(
                w,
                notes.push(n),
                frames2,
                prefix.drop_last(),
                led2,
            ),
{
    reveal(logged);
    lemma_counts_push(notes, n);
    lemma_on_tour::<O, P>(w, visits(notes), prefix);
    lemma_mapped_up(visits(notes), frames, frames2, prefix);
}

/// Descending keeps the log.
#[verifier::spinoff_prover]
proof fn lemma_logged_down<O: Object, P: Process<Op = O::Op, Reply = O::Reply>>(
    w: WorldModel<O::Model, P::Model, P::Reply>,
    tree: Wut,
    notes: Seq<Note>,
    frames: Seq<Frame>,
    frames2: Seq<Frame>,
    prefix: Seq<Transition>,
    t: Transition,
    led: Ledger,
)
    requires
        logged::<O, P>(w, notes, frames, prefix, led),
        stacked::<O, P>(w, tree, frames, prefix),
        node(tree, prefix.len()).len() > 0,
        node(tree, prefix.len()).head(0) == t.pid,
        feasible::<O, P>(w, prefix.push(t)),
        reached::<O, P>(w, prefix.push(t)).failure is None,
        frames2.len() == frames.len() + 1,
        forall|m: int| 0 <= m < frames.len() ==> #[trigger] frames2[m] == frames[m],
    ensures
        forall|led2: Ledger|
            led2.xs == led.xs ==> #[trigger] logged::<O, P>(
                w,
                notes + descent_notes::<O, P>(w, stand(tree, frames, prefix), t),
                frames2,
                prefix.push(t),
                led2,
            ),
{
    reveal(stacked);
    reveal(logged);
    lemma_visited_next::<O, P>(w, tree, notes, frames, prefix, t, led);
    lemma_mapped_down::<O, P>(w, visits(notes), frames, frames2, prefix, t);
    let ts = maximals(notes);
    let vs = visits(notes);
    assert forall|i: int| 0 <= i < ts.len() implies vs.push(prefix.push(t)).contains(
        #[trigger] ts[i],
    ) by {
        assert(vs.contains(ts[i]));
    }
}

/// The state that the first branch of the top node leads to has not been visited.
#[verifier::spinoff_prover]
proof fn lemma_visited_next<O: Object, P: Process<Op = O::Op, Reply = O::Reply>>(
    w: WorldModel<O::Model, P::Model, P::Reply>,
    tree: Wut,
    notes: Seq<Note>,
    frames: Seq<Frame>,
    prefix: Seq<Transition>,
    t: Transition,
    led: Ledger,
)
    requires
        logged::<O, P>(w, notes, frames, prefix, led),
        stacked::<O, P>(w, tree, frames, prefix),
        node(tree, prefix.len()).len() > 0,
        node(tree, prefix.len()).head(0) == t.pid,
        feasible::<O, P>(w, prefix.push(t)),
    ensures
        !visits(notes).contains(prefix.push(t)),
        toured::<O, P>(w, visits(notes).push(prefix.push(t))),
        visits(notes).push(prefix.push(t)).contains(prefix.push(t)),
        forall|v: Seq<Transition>| #[trigger]
            visits(notes).contains(v) ==> visits(notes).push(prefix.push(t)).contains(v),
        visits(notes + descent_notes::<O, P>(w, stand(tree, frames, prefix), t)) == visits(
            notes,
        ).push(prefix.push(t)),
        maximals(notes + descent_notes::<O, P>(w, stand(tree, frames, prefix), t)) == if reached::<
            O,
            P,
        >(w, prefix.push(t)).failure is Some {
            maximals(notes).push(prefix.push(t))
        } else {
            maximals(notes)
        },
{
    reveal(stacked);
    reveal(logged);
    let d = prefix.len();
    let ns = descent_notes::<O, P>(w, stand(tree, frames, prefix), t);
    lemma_spine_plan(tree, prefix);
    lemma_plan(node(tree, d));
    assert(kempt(at(plan(tree), d), frames[d as int], w.pnames.len()));
    assert(at(plan(tree), d).kids[0].0.pid == t.pid);
    lemma_unmapped(visits(notes), frames, prefix, t);
    lemma_toured::<O, P>(w, visits(notes), prefix, t);
    lemma_counts_push(notes, ns[0]);
    lemma_counts_push(notes.push(ns[0]), ns[1]);
    assert(notes + ns =~= notes.push(ns[0]).push(ns[1]));
}

/// The search has ended well.
proof fn lemma_turn_over<O: Object, P: Process<Op = O::Op, Reply = O::Reply>>(
    w: WorldModel<O::Model, P::Model, P::Reply>,
    turn: nat,
    tree: Wut,
    frames: Seq<Frame>,
    prefix: Seq<Transition>,
    stale: bool,
    notes: Seq<Note>,
    led: Ledger,
)
    requires
        world_sound::<O, P>(w),
        started::<O, P>(w).failure is None,
        stacked::<O, P>(w, tree, frames, prefix),
        booked::<O, P>(w, tree, frames, prefix, led),
        ahead::<O, P>(w, tree, frames, prefix, led),
        on_course::<O, P>(w, turn, tree, frames, prefix, stale, notes),
        logged::<O, P>(w, notes, frames, prefix, led),
        sure::<O, P>(w, notes),
        prefix.len() == 0,
        node(tree, 0).len() == 0,
    ensures
        ({
            let all = notes.push(
                Note { told: Told::Done, stand: stand(tree, frames, prefix) },
            );
            &&& tells::<O, P>(w, all, None)
            &&& chronicle::<O, P>(w, all, None)
        }),
        dependable::<O, P>(w) ==> clean::<O, P>(w),
{
    reveal(stacked);
    reveal(on_course);
    reveal(logged);
    let d = Note { told: Told::Done, stand: stand(tree, frames, prefix) };
    let all = notes.push(d);
    lemma_counts_push(notes, d);
    lemma_spine_plan(tree, prefix);
    lemma_plan(node(tree, 0));
    assert(saga::<O, P>(w, turn + 1) == onward::<O, P>(w, saga::<O, P>(w, turn)));
    assert(saga::<O, P>(w, turn + 1).end == Some(None::<Seq<Transition>>));
    assert(saga::<O, P>(w, turn + 1).notes == all);
    lemma_sure_push::<O, P>(w, notes, d);
    lemma_sure_guided::<O, P>(w, all, None);
    assert(prefix =~= Seq::empty());
    if dependable::<O, P>(w) {
        lemma_book_over::<O, P>(w, tree, frames, led);
        if ready_all::<O>(started::<O, P>(w).world.objs).len() > 0 {
            lemma_one_per_class::<O, P>(w, led.xs, maximals(notes));
        }
        lemma_all_visited::<O, P>(w, visits(notes), maximals(notes));
    }
}

/// The search has ended with a failure.
#[verifier::spinoff_prover]
proof fn lemma_turn_failed<O: Object, P: Process<Op = O::Op, Reply = O::Reply>>(
    w: WorldModel<O::Model, P::Model, P::Reply>,
    turn: nat,
    tree: Wut,
    frames: Seq<Frame>,
    prefix: Seq<Transition>,
    stale: bool,
    notes: Seq<Note>,
    all: Seq<Note>,
    t: Transition,
    led: Ledger,
)
    requires
        world_sound::<O, P>(w),
        stacked::<O, P>(w, tree, frames, prefix),
        booked::<O, P>(w, tree, frames, prefix, led),
        on_course::<O, P>(w, turn, tree, frames, prefix, stale, notes),
        logged::<O, P>(w, notes, frames, prefix, led),
        sure::<O, P>(w, all),
        node(tree, prefix.len()).len() > 0,
        node(tree, prefix.len()).head(0) == t.pid,
        offers::<O>(reached::<O, P>(w, prefix).world.objs, t.pid),
        t == op_for::<O>(reached::<O, P>(w, prefix).world.objs, t.pid),
        feasible::<O, P>(w, prefix.push(t)),
        reached::<O, P>(w, prefix.push(t)).failure is Some,
        all == notes + replay_notes(stand(tree, frames, prefix), stale) + descent_notes::<O, P>(
            w,
            stand(tree, frames, prefix),
            t,
        ),
    ensures
        tells::<O, P>(w, all, Some(prefix.push(t))),
        chronicle::<O, P>(w, all, Some(prefix.push(t))),
{
    let here = stand(tree, frames, prefix);
    let r = notes + replay_notes(here, stale);
    lemma_course_failed::<O, P>(w, turn, tree, frames, prefix, stale, notes, t);
    lemma_replay_counts(notes, here, stale);
    lemma_logged_replay::<O, P>(w, notes, here, stale, frames, prefix, led);
    lemma_visited_next::<O, P>(w, tree, r, frames, prefix, t, led);
    assert(visits(all) == visits(r).push(prefix.push(t)));
    lemma_sure_guided::<O, P>(w, all, Some(prefix.push(t)));
    lemma_chronicle_failed::<O, P>(w, tree, frames, prefix, notes, all, t, led);
}

/// What a search that has ended with a failure amounts to.
proof fn lemma_chronicle_failed<O: Object, P: Process<Op = O::Op, Reply = O::Reply>>(
    w: WorldModel<O::Model, P::Model, P::Reply>,
    tree: Wut,
    frames: Seq<Frame>,
    prefix: Seq<Transition>,
    notes: Seq<Note>,
    all: Seq<Note>,
    t: Transition,
    led: Ledger,
)
    requires
        booked::<O, P>(w, tree, frames, prefix, led),
        logged::<O, P>(w, notes, frames, prefix, led),
        toured::<O, P>(w, visits(all)),
        visits(all).last() == prefix.push(t),
        maximals(all) == maximals(notes).push(prefix.push(t)),
        dependable::<O, P>(w) ==> guided::<O, P>(w, all),
    ensures
        chronicle::<O, P>(w, all, Some(prefix.push(t))),
{
    reveal(logged);
    let ts = maximals(notes);
    assert(maximals(all).drop_last() =~= ts);
    if dependable::<O, P>(w) && ready_all::<O>(started::<O, P>(w).world.objs).len() > 0 {
        lemma_book_fair::<O, P>(w, tree, frames, prefix, led);
        assert forall|i: int, j: int| 0 <= i < j < ts.len() implies !same_class::<O, P>(
            w,
            #[trigger] ts[i],
            #[trigger] ts[j],
        ) by {
            assert(led.xs[i] == pids(ts[i]) && led.xs[j] == pids(ts[j]));
        }
    }
}

/// A turn that fails.
proof fn lemma_course_failed<O: Object, P: Process<Op = O::Op, Reply = O::Reply>>(
    w: WorldModel<O::Model, P::Model, P::Reply>,
    turn: nat,
    tree: Wut,
    frames: Seq<Frame>,
    prefix: Seq<Transition>,
    stale: bool,
    notes: Seq<Note>,
    t: Transition,
)
    requires
        on_course::<O, P>(w, turn, tree, frames, prefix, stale, notes),
        stacked::<O, P>(w, tree, frames, prefix),
        node(tree, prefix.len()).len() > 0,
        node(tree, prefix.len()).head(0) == t.pid,
        offers::<O>(reached::<O, P>(w, prefix).world.objs, t.pid),
        t == op_for::<O>(reached::<O, P>(w, prefix).world.objs, t.pid),
        reached::<O, P>(w, prefix.push(t)).failure is Some,
    ensures
        tells::<O, P>(
            w,
            notes + replay_notes(stand(tree, frames, prefix), stale) + descent_notes::<O, P>(
                w,
                stand(tree, frames, prefix),
                t,
            ),
            Some(prefix.push(t)),
        ),
{
    reveal(stacked);
    reveal(on_course);
    let s = Saga { now: stand(tree, frames, prefix), stale, notes, end: None };
    lemma_spine_plan(tree, prefix);
    lemma_plan(node(tree, prefix.len()));
    lemma_replay_notes(s);
    assert(saga::<O, P>(w, turn + 1) == onward::<O, P>(w, s));
    assert(saga::<O, P>(w, turn + 1) == advance::<O, P>(w, refreshed(s), t));
    assert(saga::<O, P>(w, turn + 1).end == Some(Some(prefix.push(t))));
}

/// Nothing is ready exactly when no process has an operation to offer.
proof fn lemma_ready_offers<O: Object>(objs: Seq<O::Model>)
    ensures
        ready_all::<O>(objs).len() == 0 <==> forall|q: ProcessID| !#[trigger] offers::<O>(objs, q),
{
    if ready_all::<O>(objs).len() == 0 {
        assert forall|q: ProcessID| !#[trigger] offers::<O>(objs, q) by {
            if offers::<O>(objs, q) {
                assert(ready_all::<O>(objs).contains(op_for::<O>(objs, q)));
            }
        }
    } else {
        let t = ready_all::<O>(objs)[0];
        assert(ready_all::<O>(objs).contains(t));
        assert(offers::<O>(objs, t.pid));
    }
}

/// No node has more branches than there are processes, so the debt is not negative.
proof fn lemma_stack_bounds<O: Object, P: Process<Op = O::Op, Reply = O::Reply>>(
    w: WorldModel<O::Model, P::Model, P::Reply>,
    tree: Wut,
    frames: Seq<Frame>,
    prefix: Seq<Transition>,
)
    requires
        world_sound::<O, P>(w),
        stacked::<O, P>(w, tree, frames, prefix),
    ensures
        forall|m: int|
            0 <= m < frames.len() ==> #[trigger] used(tours(frames))[m] <= w.pnames.len(),
        debt(w.pnames.len(), weight::<P>(w.sched.procs), used(tours(frames))) >= 0,
        prefix.len() <= weight::<P>(w.sched.procs),
        feasible::<O, P>(w, prefix),
        reached::<O, P>(w, prefix).failure is None,
        frames.len() == prefix.len() + 1,
        spine(tree, prefix),
{
    reveal(stacked);
    let procs = w.pnames.len();
    lemma_reached_sound::<O, P>(w, prefix);
    lemma_spine_plan(tree, prefix);
    let s = reached::<O, P>(w, prefix);
    assert forall|m: int| 0 <= m < frames.len() implies #[trigger] used(tours(frames))[m]
        <= procs by {
        let explored = frames[m].explored@;
        assert(kempt(at(plan(tree), m as nat), frames[m], procs));
        if m < prefix.len() {
            let h = prefix[m].pid;
            let more = explored.push(h);
            assert(at(plan(tree), m as nat).kids.len() > 0);
            assert(at(plan(tree), m as nat).kids[0].0.pid == h);
            assert(s.trace[m].pid < s.world.sched.procs.len());
            assert(more.no_duplicates()) by {
                assert forall|i: int| 0 <= i < explored.len() implies #[trigger] explored[i]
                    != h by {
                    assert(explored.contains(explored[i]));
                }
            }
            assert forall|i: int| 0 <= i < more.len() implies #[trigger] more[i] < procs by {
                if i < explored.len() {
                    assert(explored[i] < procs);
                }
            }
            lemma_few(more, procs);
        } else {
            lemma_few(explored, procs);
        }
    }
    lemma_debt_nonneg(procs, weight::<P>(w.sched.procs), used(tours(frames)));
}

proof fn lemma_used_pop(before: Seq<Frame>, after: Seq<Frame>)
    requires
        before.len() >= 2,
        after.len() == before.len() - 1,
        forall|m: int| 0 <= m < after.len() - 1 ==> #[trigger] after[m] == before[m],
        after.last().explored@.len() == before[after.len() - 1].explored@.len() + 1,
    ensures
        used(tours(after)) == used(tours(before)).drop_last(),
{
    assert(used(tours(after)) =~= used(tours(before)).drop_last());
}

proof fn lemma_used_descend(before: Seq<Frame>, after: Seq<Frame>)
    requires
        before.len() >= 1,
        after.len() == before.len() + 1,
        forall|m: int| 0 <= m < before.len() ==> #[trigger] after[m] == before[m],
        after.last().explored@.len() == 0,
    ensures
        ({
            let u = used(tours(before));
            used(tours(after)) == u.update(u.len() - 1, u.last() + 1).push(0)
        }),
{
    let u = used(tours(before));
    assert(used(tours(after)) =~= u.update(u.len() - 1, u.last() + 1).push(0));
}

} // verus!
