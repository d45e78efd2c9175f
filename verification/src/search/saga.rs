//! The search as a function of the program: where the driver stands after so many turns, and every
//! step that it has reported by then.

use vstd::prelude::*;

use crate::model::object::{Object, Transition};
use crate::model::process::{Process, ProcessID};
use crate::model::state::{feasible, lemma_feasible_prefix, reached, started};
use crate::model::world::{ready_all, WorldModel};
use crate::search::clocks::{pids, race, unordered};
use crate::search::observer::RaceOutcome;
use crate::search::plan::{
    at, chain, forked, leaf, lemma_at_put, lemma_forked_at, lemma_forked_chain, lemma_forked_less,
    lemma_forked_put, lemma_forked_sown, lemma_sown_first, put, sown, takes_root, Plan,
};
use crate::search::reversal::{seedling, still_asleep, walkable};
use crate::theory::behaviour::{Beh, Word};
use crate::theory::initials::wi;
use crate::theory::program::{behaviour, offers, op_for};
use crate::theory::traces::reversing;

verus! {

/// Where the driver stands: its wakeup tree, the sleep set of every prefix, and the committed
/// prefix.
#[verifier::ext_equal]
pub struct Stand {
    /// The wakeup tree.
    pub tree: Plan,
    /// The sleep sets, by depth.
    pub sleeps: Seq<Word>,
    /// The committed prefix.
    pub prefix: Seq<Transition>,
}

/// What a step says.
#[allow(inconsistent_fields)]
pub enum Told {
    /// The state that `trace` leads to was reached.
    Visit { trace: Seq<Transition> },
    /// The first interleaving was seeded.
    RootSeed { seeded: Transition },
    /// There is nothing to explore.
    RootEmpty,
    /// A complete interleaving was run.
    Maximal { trace: Seq<Transition>, failure: bool },
    /// The search advanced.
    Descend { depth: int, committed: Transition, parent_sleep: Word, child_sleep: Word },
    /// The search chose how to go on.
    SeedChild { depth: int, seeded: Option<Transition> },
    /// A race was reversed, or not.
    Race {
        i: int,
        j: int,
        e: Transition,
        ep: Transition,
        notdep: Seq<Transition>,
        v: Seq<Transition>,
        outcome: RaceOutcome,
    },
    /// The search backtracked one level.
    Pop { finished_pid: ProcessID, from_depth: int, into_depth: int },
    /// The state was rebuilt.
    Replay { prefix: Seq<Transition> },
    /// The search is over.
    Done,
}

/// A step, and where the driver stood when it reported it.
pub struct Note {
    /// What the step says.
    pub told: Told,
    /// Where the driver stood.
    pub stand: Stand,
}

/// The traces of the states visited in `notes`, in order.
pub open spec fn visits(notes: Seq<Note>) -> Seq<Seq<Transition>>
    decreases notes.len(),
{
    if notes.len() == 0 {
        Seq::empty()
    } else {
        let rest = visits(notes.drop_last());
        match notes.last().told {
            Told::Visit { trace } => rest.push(trace),
            _ => rest,
        }
    }
}

/// The maximal traces in `notes`, in order.
pub open spec fn maximals(notes: Seq<Note>) -> Seq<Seq<Transition>>
    decreases notes.len(),
{
    if notes.len() == 0 {
        Seq::empty()
    } else {
        let rest = maximals(notes.drop_last());
        match notes.last().told {
            Told::Maximal { trace, failure } => rest.push(trace),
            _ => rest,
        }
    }
}

/// How often the search advanced in `notes`.
pub open spec fn descends(notes: Seq<Note>) -> nat
    decreases notes.len(),
{
    if notes.len() == 0 {
        0
    } else {
        descends(notes.drop_last()) + if notes.last().told is Descend {
            1nat
        } else {
            0nat
        }
    }
}

/// How often the search backtracked in `notes`.
pub open spec fn pops(notes: Seq<Note>) -> nat
    decreases notes.len(),
{
    if notes.len() == 0 {
        0
    } else {
        pops(notes.drop_last()) + if notes.last().told is Pop {
            1nat
        } else {
            0nat
        }
    }
}

/// The first in `sleep` that is a weak initial of `word`.
pub open spec fn coverer(b: Beh, sleep: Word, word: Word) -> Option<ProcessID>
    decreases sleep.len(),
{
    if sleep.len() == 0 {
        None
    } else if wi(b, word, sleep[0]) {
        Some(sleep[0])
    } else {
        coverer(b, sleep.drop_first(), word)
    }
}

/// How the fragment `v` resolves at `depth`, where the behaviour is `b`, and the tree after it: it
/// cannot be run; the first sleeper that can covers it; or it is planted.
pub open spec fn ruling(
    b: Beh,
    tree: Plan,
    sleep: Word,
    depth: nat,
    v: Seq<Transition>,
) -> (RaceOutcome, Plan) {
    let insert_depth = depth as usize;
    if !walkable(b, pids(v)) {
        (RaceOutcome::Disabling, tree)
    } else {
        match coverer(b, sleep, pids(v)) {
            Some(covering_pid) => (
                RaceOutcome::CoveredBySleeper { insert_depth, covering_pid },
                tree,
            ),
            None => {
                let n = at(tree, depth);
                let after = put(tree, depth, sown(b, n, true, v));
                if takes_root(b, n, true, v) {
                    (RaceOutcome::Grafted { insert_depth }, after)
                } else {
                    (RaceOutcome::ExistingLeaf { insert_depth }, after)
                }
            },
        }
    }
}

/// How the race of events `i` and `j` (1-based) of the stand's prefix resolves.
pub open spec fn settled<O: Object, P: Process<Op = O::Op, Reply = O::Reply>>(
    w: WorldModel<O::Model, P::Model, P::Reply>,
    s: Stand,
    i: int,
    j: int,
) -> (RaceOutcome, Plan) {
    ruling(
        behaviour::<O, P>(reached::<O, P>(w, s.prefix.take(i - 1)).world),
        s.tree,
        s.sleeps[i - 1],
        (i - 1) as nat,
        reversing::<O>(reached::<O, P>(w, s.prefix).world.objs, s.prefix, i - 1, j - 1),
    )
}

/// What is reported of that race.
pub open spec fn race_note<O: Object, P: Process<Op = O::Op, Reply = O::Reply>>(
    w: WorldModel<O::Model, P::Model, P::Reply>,
    s: Stand,
    i: int,
    j: int,
) -> Note {
    let objs = reached::<O, P>(w, s.prefix).world.objs;
    Note {
        told: Told::Race {
            i,
            j,
            e: s.prefix[i - 1],
            ep: s.prefix[j - 1],
            notdep: unordered::<O>(objs, s.prefix, i - 1, i),
            v: reversing::<O>(objs, s.prefix, i - 1, j - 1),
            outcome: settled::<O, P>(w, s, i, j).0,
        },
        stand: Stand { tree: settled::<O, P>(w, s, i, j).1, ..s },
    }
}

/// The stand once the races before the pair `(i, j)` are seen to, and what is reported of them:
/// one step for every reversible race, by the later event and then by the earlier one.
pub open spec fn mending<O: Object, P: Process<Op = O::Op, Reply = O::Reply>>(
    w: WorldModel<O::Model, P::Model, P::Reply>,
    s: Stand,
    j: nat,
    i: nat,
) -> (Stand, Seq<Note>)
    decreases j, i,
{
    if i <= 1 {
        if j <= 1 {
            (s, Seq::empty())
        } else {
            mending::<O, P>(w, s, (j - 1) as nat, (j - 1) as nat)
        }
    } else {
        let before = mending::<O, P>(w, s, j, (i - 1) as nat);
        if race::<O>(reached::<O, P>(w, s.prefix).world.objs, s.prefix, i - 2, j - 1) {
            let note = race_note::<O, P>(w, before.0, i - 1, j as int);
            (note.stand, before.1.push(note))
        } else {
            before
        }
    }
}

/// The search after some of its turns.
#[verifier::ext_equal]
pub struct Saga {
    /// Where the driver stands.
    pub now: Stand,
    /// The state is to be rebuilt before the search goes on.
    pub stale: bool,
    /// What has been reported.
    pub notes: Seq<Note>,
    /// Whether the search is over, and with which failing schedule, if any.
    pub end: Option<Option<Seq<Transition>>>,
}

/// The saga with one more step reported where the driver stands.
pub open spec fn reports(s: Saga, told: Told) -> Saga {
    Saga { notes: s.notes.push(Note { told, stand: s.now }), ..s }
}

/// The starting stand.
pub open spec fn outset() -> Stand {
    Stand { tree: leaf(), sleeps: seq![Seq::empty()], prefix: Seq::empty() }
}

/// The search before its first turn: the starting state is visited and, unless it has failed, seeded
/// with the least process that has an operation ready.
pub open spec fn opening<O: Object, P: Process<Op = O::Op, Reply = O::Reply>>(
    w: WorldModel<O::Model, P::Model, P::Reply>,
) -> Saga {
    let objs = started::<O, P>(w).world.objs;
    let none = Saga { now: outset(), stale: false, notes: Seq::empty(), end: None };
    let s = reports(none, Told::Visit { trace: Seq::empty() });
    if started::<O, P>(w).failure is Some {
        Saga { end: Some(Some(Seq::empty())), ..s }
    } else {
        match seedling::<O>(objs, Seq::empty()) {
            Some(p) => {
                let seeded = op_for::<O>(objs, p);
                reports(
                    Saga { now: Stand { tree: chain(seq![seeded]), ..s.now }, ..s },
                    Told::RootSeed { seeded },
                )
            },
            None => reports(reports(s, Told::RootEmpty), Told::Done),
        }
    }
}

/// The stand one level up: the finished branch is gone, and its process asleep.
pub open spec fn backed(s: Stand) -> Stand {
    let d = (s.prefix.len() - 1) as nat;
    Stand {
        tree: put(s.tree, d, Plan { kids: at(s.tree, d).kids.remove(0) }),
        sleeps: s.sleeps.drop_last().update(
            d as int,
            s.sleeps[d as int].push(s.prefix.last().pid),
        ),
        prefix: s.prefix.drop_last(),
    }
}

/// What is reported of backtracking from `s`.
pub open spec fn pop_note(s: Stand) -> Note {
    Note {
        told: Told::Pop {
            finished_pid: s.prefix.last().pid,
            from_depth: s.prefix.len() as int,
            into_depth: s.prefix.len() - 1,
        },
        stand: backed(s),
    }
}

/// The sleep set after the process of `t` has stepped from the stand.
pub open spec fn dozing<O: Object, P: Process<Op = O::Op, Reply = O::Reply>>(
    w: WorldModel<O::Model, P::Model, P::Reply>,
    s: Stand,
    t: Transition,
) -> Word {
    still_asleep(
        behaviour::<O, P>(reached::<O, P>(w, s.prefix).world),
        s.sleeps[s.prefix.len() as int],
        t.pid,
    )
}

/// What is reported of applying `t`: the visit, and then the failing interleaving or the descent.
pub open spec fn descent_notes<O: Object, P: Process<Op = O::Op, Reply = O::Reply>>(
    w: WorldModel<O::Model, P::Model, P::Reply>,
    s: Stand,
    t: Transition,
) -> Seq<Note> {
    let trace = s.prefix.push(t);
    seq![
        Note { told: Told::Visit { trace }, stand: s },
        Note {
            told: if reached::<O, P>(w, trace).failure is Some {
                Told::Maximal { trace, failure: true }
            } else {
                Told::Descend {
                    depth: s.prefix.len() as int,
                    committed: t,
                    parent_sleep: s.sleeps[s.prefix.len() as int],
                    child_sleep: dozing::<O, P>(w, s, t),
                }
            },
            stand: s,
        },
    ]
}

/// The stand one level down.
pub open spec fn lowered<O: Object, P: Process<Op = O::Op, Reply = O::Reply>>(
    w: WorldModel<O::Model, P::Model, P::Reply>,
    s: Stand,
    t: Transition,
) -> Stand {
    Stand {
        tree: s.tree,
        sleeps: s.sleeps.push(dozing::<O, P>(w, s, t)),
        prefix: s.prefix.push(t),
    }
}

/// The node after seeding: a node with children is left alone; otherwise it gets the operation of
/// the process to go on with, if there is one.
pub open spec fn seeds<O: Object>(objs: Seq<O::Model>, sleep: Word, n: Plan) -> Plan {
    if n.kids.len() > 0 {
        n
    } else {
        match seedling::<O>(objs, sleep) {
            Some(p) => chain(seq![op_for::<O>(objs, p)]),
            None => n,
        }
    }
}

/// The stand with its top node seeded.
pub open spec fn fed<O: Object, P: Process<Op = O::Op, Reply = O::Reply>>(
    w: WorldModel<O::Model, P::Model, P::Reply>,
    s: Stand,
) -> Stand {
    let d = s.prefix.len();
    Stand {
        tree: put(
            s.tree,
            d,
            seeds::<O>(
                reached::<O, P>(w, s.prefix).world.objs,
                s.sleeps[d as int],
                at(s.tree, d),
            ),
        ),
        ..s
    }
}

/// What is reported of that: the operation that now heads the node.
pub open spec fn seed_note<O: Object, P: Process<Op = O::Op, Reply = O::Reply>>(
    w: WorldModel<O::Model, P::Model, P::Reply>,
    s: Stand,
) -> Note {
    let n = at(fed::<O, P>(w, s).tree, s.prefix.len());
    Note {
        told: Told::SeedChild {
            depth: s.prefix.len() as int,
            seeded: if n.kids.len() > 0 {
                Some(n.kids[0].0)
            } else {
                None
            },
        },
        stand: fed::<O, P>(w, s),
    }
}

/// One turn up, from an exhausted node: the search is over at the root, and backtracks elsewhere.
pub open spec fn retreat(s: Saga) -> Saga {
    if s.now.prefix.len() == 0 {
        Saga { end: Some(None), ..reports(s, Told::Done) }
    } else {
        Saga {
            now: backed(s.now),
            stale: true,
            notes: s.notes.push(pop_note(s.now)),
            end: None,
        }
    }
}

/// The state is rebuilt if it has to be.
pub open spec fn refreshed(s: Saga) -> Saga {
    if s.stale {
        Saga { stale: false, ..reports(s, Told::Replay { prefix: s.now.prefix }) }
    } else {
        s
    }
}

/// The stand with the first branch of the top node given up.
pub open spec fn forgone(s: Stand) -> Stand {
    let d = s.prefix.len();
    Stand { tree: put(s.tree, d, Plan { kids: at(s.tree, d).kids.remove(0) }), ..s }
}

/// One turn down: the first branch's process steps. The interleaving that is complete with that has
/// its races seen to; any other is seeded.
pub open spec fn advance<O: Object, P: Process<Op = O::Op, Reply = O::Reply>>(
    w: WorldModel<O::Model, P::Model, P::Reply>,
    s: Saga,
    t: Transition,
) -> Saga {
    let trace = s.now.prefix.push(t);
    let notes = s.notes + descent_notes::<O, P>(w, s.now, t);
    let down = lowered::<O, P>(w, s.now, t);
    if reached::<O, P>(w, trace).failure is Some {
        Saga { notes, end: Some(Some(trace)), ..s }
    } else if ready_all::<O>(reached::<O, P>(w, trace).world.objs).len() == 0 {
        let mended = mending::<O, P>(w, down, trace.len() + 1, 1);
        Saga {
            now: mended.0,
            stale: true,
            notes: notes.push(
                Note { told: Told::Maximal { trace, failure: false }, stand: down },
            ) + mended.1,
            end: None,
        }
    } else {
        Saga {
            now: fed::<O, P>(w, down),
            stale: false,
            notes: notes.push(seed_note::<O, P>(w, down)),
            end: None,
        }
    }
}

/// One turn of the search. A branch whose process has nothing ready is given up.
pub open spec fn onward<O: Object, P: Process<Op = O::Op, Reply = O::Reply>>(
    w: WorldModel<O::Model, P::Model, P::Reply>,
    s: Saga,
) -> Saga {
    let n = at(s.now.tree, s.now.prefix.len());
    if s.end is Some {
        s
    } else if n.kids.len() == 0 {
        retreat(s)
    } else {
        let p = n.kids[0].0.pid;
        let objs = reached::<O, P>(w, s.now.prefix).world.objs;
        let r = refreshed(s);
        if offers::<O>(objs, p) {
            advance::<O, P>(w, r, op_for::<O>(objs, p))
        } else {
            Saga { now: forgone(r.now), ..r }
        }
    }
}

/// The search after `n` turns.
pub open spec fn saga<O: Object, P: Process<Op = O::Op, Reply = O::Reply>>(
    w: WorldModel<O::Model, P::Model, P::Reply>,
    n: nat,
) -> Saga
    decreases n,
{
    if n == 0 {
        opening::<O, P>(w)
    } else {
        onward::<O, P>(w, saga::<O, P>(w, (n - 1) as nat))
    }
}

/// The search of the program `w` comes to its end with `notes` reported and the outcome `end`: the
/// failing schedule, if any.
pub open spec fn tells<O: Object, P: Process<Op = O::Op, Reply = O::Reply>>(
    w: WorldModel<O::Model, P::Model, P::Reply>,
    notes: Seq<Note>,
    end: Option<Seq<Transition>>,
) -> bool {
    exists|n: nat|
        (#[trigger] saga::<O, P>(w, n)).end == Some(end) && saga::<O, P>(w, n).notes == notes
}

/// A search that is over stays as it is.
proof fn lemma_over<O: Object, P: Process<Op = O::Op, Reply = O::Reply>>(
    w: WorldModel<O::Model, P::Model, P::Reply>,
    n: nat,
    m: nat,
)
    requires
        n <= m,
        saga::<O, P>(w, n).end is Some,
    ensures
        saga::<O, P>(w, m) == saga::<O, P>(w, n),
    decreases m,
{
    if n < m {
        lemma_over::<O, P>(w, n, (m - 1) as nat);
    }
}

/// A program has one search: whoever watches it, the steps reported and the outcome are the same.
pub proof fn lemma_told_once<O: Object, P: Process<Op = O::Op, Reply = O::Reply>>(
    w: WorldModel<O::Model, P::Model, P::Reply>,
    notes1: Seq<Note>,
    end1: Option<Seq<Transition>>,
    notes2: Seq<Note>,
    end2: Option<Seq<Transition>>,
)
    requires
        tells::<O, P>(w, notes1, end1),
        tells::<O, P>(w, notes2, end2),
    ensures
        notes1 == notes2,
        end1 == end2,
{
    let n = choose|n: nat|
        (#[trigger] saga::<O, P>(w, n)).end == Some(end1) && saga::<O, P>(w, n).notes == notes1;
    let m = choose|m: nat|
        (#[trigger] saga::<O, P>(w, m)).end == Some(end2) && saga::<O, P>(w, m).notes == notes2;
    if n <= m {
        lemma_over::<O, P>(w, n, m);
    } else {
        lemma_over::<O, P>(w, m, n);
    }
}

/// The note `k` reports an interleaving that failed.
pub open spec fn failing(n: Note) -> bool {
    n.told matches Told::Maximal { trace, failure } && failure
}

/// What holds of the steps reported so far: every descent is still under way or has been backed out
/// of, no interleaving has failed before the search is over, and only a search with nothing to
/// explore is said to be over before it is.
spec fn orderly(s: Saga) -> bool {
    &&& descends(s.notes) == pops(s.notes) + s.now.prefix.len()
    &&& match s.end {
        None => {
            &&& forall|k: int| 0 <= k < s.notes.len() ==> !failing(#[trigger] s.notes[k])
            &&& s.now.prefix.len() == 0 && s.now.tree.kids.len() == 0 || forall|k: int|
                0 <= k < s.notes.len() ==> !((#[trigger] s.notes[k]).told is Done)
        },
        Some(None) => {
            &&& s.now.prefix.len() == 0
            &&& s.notes.len() > 0
            &&& s.notes.last().told is Done
            &&& forall|k: int| 0 <= k < s.notes.len() ==> !failing(#[trigger] s.notes[k])
        },
        Some(Some(trace)) => {
            &&& s.notes.len() > 0
            &&& if trace.len() == 0 {
                s.notes.len() == 1 && s.notes[0].told == (Told::Visit { trace })
            } else {
                s.notes.last().told == (Told::Maximal { trace, failure: true })
            }
            &&& forall|k: int|
                0 <= k < s.notes.len() - 1 ==> !failing(#[trigger] s.notes[k])
            &&& forall|k: int|
                0 <= k < s.notes.len() ==> !((#[trigger] s.notes[k]).told is Done)
        },
    }
}

/// A step more in the counts.
pub proof fn lemma_counts_push(notes: Seq<Note>, n: Note)
    ensures
        visits(notes.push(n)) == match n.told {
            Told::Visit { trace } => visits(notes).push(trace),
            _ => visits(notes),
        },
        maximals(notes.push(n)) == match n.told {
            Told::Maximal { trace, failure } => maximals(notes).push(trace),
            _ => maximals(notes),
        },
        descends(notes.push(n)) == descends(notes) + if n.told is Descend {
            1nat
        } else {
            0nat
        },
        pops(notes.push(n)) == pops(notes) + if n.told is Pop {
            1nat
        } else {
            0nat
        },
{
    assert(notes.push(n).drop_last() =~= notes);
}

/// The counts of two stretches of steps add up.
pub proof fn lemma_counts_add(x: Seq<Note>, y: Seq<Note>)
    ensures
        visits(x + y) == visits(x) + visits(y),
        maximals(x + y) == maximals(x) + maximals(y),
        descends(x + y) == descends(x) + descends(y),
        pops(x + y) == pops(x) + pops(y),
    decreases y.len(),
{
    if y.len() == 0 {
        assert(x + y =~= x);
        assert(visits(x) + visits(y) =~= visits(x));
        assert(maximals(x) + maximals(y) =~= maximals(x));
    } else {
        lemma_counts_add(x, y.drop_last());
        assert((x + y).drop_last() =~= x + y.drop_last());
        assert(visits(x + y) =~= visits(x) + visits(y));
        assert(maximals(x + y) =~= maximals(x) + maximals(y));
    }
}

/// Seeing to races reports races alone, and moves neither the prefix nor the sleep sets.
pub proof fn lemma_mending<O: Object, P: Process<Op = O::Op, Reply = O::Reply>>(
    w: WorldModel<O::Model, P::Model, P::Reply>,
    s: Stand,
    j: nat,
    i: nat,
)
    ensures
        ({
            let (s2, notes) = mending::<O, P>(w, s, j, i);
            &&& s2.prefix == s.prefix
            &&& s2.sleeps == s.sleeps
            &&& forall|k: int| 0 <= k < notes.len() ==> (#[trigger] notes[k]).told is Race
            &&& visits(notes).len() == 0
            &&& maximals(notes).len() == 0
            &&& descends(notes) == 0
            &&& pops(notes) == 0
        }),
    decreases j, i,
{
    if i <= 1 {
        if j > 1 {
            lemma_mending::<O, P>(w, s, (j - 1) as nat, (j - 1) as nat);
        }
    } else {
        lemma_mending::<O, P>(w, s, j, (i - 1) as nat);
        let before = mending::<O, P>(w, s, j, (i - 1) as nat);
        lemma_counts_push(before.1, race_note::<O, P>(w, before.0, i - 1, j as int));
    }
}

proof fn lemma_orderly<O: Object, P: Process<Op = O::Op, Reply = O::Reply>>(
    w: WorldModel<O::Model, P::Model, P::Reply>,
    n: nat,
)
    ensures
        orderly(saga::<O, P>(w, n)),
    decreases n,
{
    if n == 0 {
        lemma_orderly_start::<O, P>(w);
    } else {
        let s = saga::<O, P>(w, (n - 1) as nat);
        lemma_orderly::<O, P>(w, (n - 1) as nat);
        if s.end is None {
            let top = at(s.now.tree, s.now.prefix.len());
            if top.kids.len() == 0 {
                let d = Note { told: Told::Done, stand: s.now };
                lemma_counts_push(s.notes, d);
                lemma_counts_push(s.notes, pop_note(s.now));
            } else {
                let r = refreshed(s);
                lemma_counts_push(
                    s.notes,
                    Note { told: Told::Replay { prefix: s.now.prefix }, stand: s.now },
                );
                assert(orderly(r));
                let objs = reached::<O, P>(w, s.now.prefix).world.objs;
                let p = top.kids[0].0.pid;
                if offers::<O>(objs, p) {
                    lemma_orderly_down::<O, P>(w, r, op_for::<O>(objs, p));
                }
            }
        }
    }
}

proof fn lemma_orderly_start<O: Object, P: Process<Op = O::Op, Reply = O::Reply>>(
    w: WorldModel<O::Model, P::Model, P::Reply>,
)
    ensures
        orderly(opening::<O, P>(w)),
{
    let s = opening::<O, P>(w);
    reveal_with_fuel(descends, 4);
    reveal_with_fuel(pops, 4);
    let none = Seq::<Note>::empty();
    let visit = Note { told: Told::Visit { trace: Seq::empty() }, stand: outset() };
    lemma_counts_push(none, visit);
    let one = none.push(visit);
    if started::<O, P>(w).failure is None {
        match seedling::<O>(started::<O, P>(w).world.objs, Seq::empty()) {
            Some(p) => {
                lemma_counts_push(one, s.notes.last());
            },
            None => {
                let e = Note { told: Told::RootEmpty, stand: outset() };
                lemma_counts_push(one, e);
                lemma_counts_push(one.push(e), s.notes.last());
            },
        }
    }
}

proof fn lemma_orderly_down<O: Object, P: Process<Op = O::Op, Reply = O::Reply>>(
    w: WorldModel<O::Model, P::Model, P::Reply>,
    s: Saga,
    t: Transition,
)
    requires
        orderly(s),
        s.end is None,
        s.now.prefix.len() > 0 || s.now.tree.kids.len() > 0,
    ensures
        orderly(advance::<O, P>(w, s, t)),
{
    let r = advance::<O, P>(w, s, t);
    let trace = s.now.prefix.push(t);
    let down = lowered::<O, P>(w, s.now, t);
    let ns = descent_notes::<O, P>(w, s.now, t);
    lemma_counts_push(s.notes, ns[0]);
    lemma_counts_push(s.notes.push(ns[0]), ns[1]);
    let notes = s.notes + ns;
    assert(notes =~= s.notes.push(ns[0]).push(ns[1]));
    if reached::<O, P>(w, trace).failure is None {
        if ready_all::<O>(reached::<O, P>(w, trace).world.objs).len() == 0 {
            let m = Note { told: Told::Maximal { trace, failure: false }, stand: down };
            let mended = mending::<O, P>(w, down, trace.len() + 1, 1);
            lemma_counts_push(notes, m);
            lemma_mending::<O, P>(w, down, trace.len() + 1, 1);
            lemma_counts_add(notes.push(m), mended.1);
            assert forall|k: int| 0 <= k < r.notes.len() implies !failing(#[trigger] r.notes[k]) && !(
            r.notes[k].told is Done) by {
                if k > notes.len() {
                    assert(r.notes[k] == mended.1[k - notes.len() - 1]);
                    assert(mended.1[k - notes.len() - 1].told is Race);
                } else if k < notes.len() {
                    assert(r.notes[k] == notes[k]);
                }
            }
        } else {
            lemma_counts_push(notes, seed_note::<O, P>(w, down));
        }
    }
}

/// A search that ends well reports `Done` last, no failing interleaving, and backs out of every
/// level that it descends into. A search that ends with a failure reports the failing interleaving
/// last, no other failing one and no `Done`; if the starting state has failed, it reports its visit
/// alone. Either way the steps begin with the visit of the starting state and, unless it has failed,
/// with the seed: the operation of the least process that has one ready.
pub proof fn lemma_told_in_order<O: Object, P: Process<Op = O::Op, Reply = O::Reply>>(
    w: WorldModel<O::Model, P::Model, P::Reply>,
    notes: Seq<Note>,
    end: Option<Seq<Transition>>,
)
    requires
        tells::<O, P>(w, notes, end),
    ensures
        notes.len() > 0,
        forall|k: int| 0 <= k < notes.len() - 1 ==> !failing(#[trigger] notes[k]),
        match end {
            None => notes.last().told is Done && !failing(notes.last()) && descends(notes) == pops(
                notes,
            ),
            Some(trace) => {
                &&& forall|k: int| 0 <= k < notes.len() ==> !((#[trigger] notes[k]).told is Done)
                &&& if trace.len() == 0 {
                    notes.len() == 1 && notes[0].told == (Told::Visit { trace })
                } else {
                    notes.last().told == (Told::Maximal { trace, failure: true })
                }
            },
        },
        opening::<O, P>(w).notes.is_prefix_of(notes),
        notes[0].told == (Told::Visit { trace: Seq::empty() }),
        started::<O, P>(w).failure is None ==> notes.len() > 1 && match seedling::<O>(
            started::<O, P>(w).world.objs,
            Seq::empty(),
        ) {
            Some(p) => notes[1].told == (Told::RootSeed {
                seeded: op_for::<O>(started::<O, P>(w).world.objs, p),
            }),
            None => notes[1].told is RootEmpty,
        },
{
    let n = choose|n: nat|
        (#[trigger] saga::<O, P>(w, n)).end == Some(end) && saga::<O, P>(w, n).notes == notes;
    lemma_orderly::<O, P>(w, n);
    lemma_opened_with::<O, P>(w, n);
    let o = opening::<O, P>(w).notes;
    assert(o[0] == notes[0]) by {
        assert(notes.subrange(0, o.len() as int)[0] == notes[0]);
    }
    if started::<O, P>(w).failure is None {
        assert(notes.subrange(0, o.len() as int)[1] == notes[1]);
    }
}

/// What has been reported stays reported.
proof fn lemma_opened_with<O: Object, P: Process<Op = O::Op, Reply = O::Reply>>(
    w: WorldModel<O::Model, P::Model, P::Reply>,
    n: nat,
)
    ensures
        opening::<O, P>(w).notes.is_prefix_of(saga::<O, P>(w, n).notes),
    decreases n,
{
    let o = opening::<O, P>(w).notes;
    if n == 0 {
        assert(o.subrange(0, o.len() as int) =~= o);
    } else {
        lemma_opened_with::<O, P>(w, (n - 1) as nat);
        let s = saga::<O, P>(w, (n - 1) as nat).notes;
        let t = saga::<O, P>(w, n).notes;
        assert(s.len() <= t.len() && t.subrange(0, s.len() as int) =~= s);
        assert forall|k: int| 0 <= k < o.len() implies o[k] == t.subrange(0, o.len() as int)[k] by {
            assert(s.subrange(0, o.len() as int)[k] == s[k]);
            assert(t.subrange(0, s.len() as int)[k] == t[k]);
        }
        assert(o =~= t.subrange(0, o.len() as int));
    }
}

/// The step says where the search goes on: the first interleaving or the new state has been seeded,
/// or the state has been rebuilt for the next branch.
pub open spec fn points(n: Note) -> bool {
    match n.told {
        Told::RootSeed { seeded } => true,
        Told::SeedChild { depth, seeded } => seeded is Some,
        Told::Replay { prefix } => true,
        _ => false,
    }
}

/// The frontier of the wakeup tree shown with a step: the node that the prefix leads to.
pub open spec fn frontier(n: Note) -> Plan {
    at(n.stand.tree, n.stand.prefix.len())
}

/// The process at the head of the frontier has an operation ready.
pub open spec fn runnable<O: Object, P: Process<Op = O::Op, Reply = O::Reply>>(
    w: WorldModel<O::Model, P::Model, P::Reply>,
    n: Note,
) -> bool {
    offers::<O>(
        reached::<O, P>(w, n.stand.prefix).world.objs,
        frontier(n).kids[0].0.pid,
    )
}

/// The steps after the `k`-th are a visit and then the descent, or the failing interleaving, that
/// commits the operation of the process at the head of the frontier.
pub open spec fn followed<O: Object, P: Process<Op = O::Op, Reply = O::Reply>>(
    w: WorldModel<O::Model, P::Model, P::Reply>,
    notes: Seq<Note>,
    k: int,
) -> bool {
    let p = frontier(notes[k]).kids[0].0.pid;
    let t = op_for::<O>(reached::<O, P>(w, notes[k].stand.prefix).world.objs, p);
    let trace = notes[k].stand.prefix.push(t);
    &&& k + 2 < notes.len()
    &&& t.pid == p
    &&& notes[k + 1].told == (Told::Visit { trace })
    &&& match notes[k + 2].told {
        Told::Descend { depth, committed, parent_sleep, child_sleep } => committed == t,
        Told::Maximal { trace: whole, failure } => failure && whole == trace,
        _ => false,
    }
}

/// What the `k`-th step, which says where the search goes on, shows: a frontier with branches, of
/// different processes, whose first is the seed. If the process at its head has an operation ready,
/// it is the next to step.
pub open spec fn heralds<O: Object, P: Process<Op = O::Op, Reply = O::Reply>>(
    w: WorldModel<O::Model, P::Model, P::Reply>,
    notes: Seq<Note>,
    k: int,
) -> bool {
    &&& shown(notes[k])
    &&& runnable::<O, P>(w, notes[k]) ==> followed::<O, P>(w, notes, k)
}

/// The frontier shown with a step that says where the search goes on.
pub open spec fn shown(n: Note) -> bool {
    let f = frontier(n);
    &&& f.kids.len() > 0
    &&& forked(f)
    &&& match n.told {
        Told::RootSeed { seeded } => seeded == f.kids[0].0,
        Told::SeedChild { depth, seeded } => seeded == Some(f.kids[0].0),
        _ => true,
    }
}

/// The tree has a node for every prefix, and siblings are of different processes.
spec fn hale(s: Stand) -> bool {
    &&& forked(s.tree)
    &&& forall|m: nat| m < s.prefix.len() ==> #[trigger] at(s.tree, m).kids.len() > 0
}

/// The last step reported says where the search goes on, and it has not gone on yet.
spec fn about(s: Saga, k: int) -> bool {
    k == s.notes.len() - 1 && s.end is None && !s.stale && s.notes[k].stand == s.now
}

/// All steps that say where the search goes on are right, or about to be.
spec fn heralded<O: Object, P: Process<Op = O::Op, Reply = O::Reply>>(
    w: WorldModel<O::Model, P::Model, P::Reply>,
    s: Saga,
) -> bool {
    &&& hale(s.now)
    &&& forall|k: int|
        0 <= k < s.notes.len() && points(#[trigger] s.notes[k]) ==> shown(s.notes[k]) && (
        runnable::<O, P>(w, s.notes[k]) ==> followed::<O, P>(w, s.notes, k) || about(s, k))
}

proof fn lemma_hale_put(s: Stand, depth: nat, n: Plan)
    requires
        hale(s),
        depth <= s.prefix.len(),
        forked(n),
        depth < s.prefix.len() ==> n.kids.len() > 0 && n.kids[0] == at(s.tree, depth).kids[0],
    ensures
        hale(Stand { tree: put(s.tree, depth, n), ..s }),
        at(put(s.tree, depth, n), depth) == n,
{
    let tree = put(s.tree, depth, n);
    lemma_forked_put(s.tree, depth, n);
    lemma_at_put(s.tree, depth, n, depth);
    assert forall|m: nat| m < s.prefix.len() implies #[trigger] at(tree, m).kids.len() > 0 by {
        assert(at(s.tree, m).kids.len() > 0);
        if depth < s.prefix.len() {
            assert(at(s.tree, depth).kids.len() > 0);
        }
        lemma_at_put(s.tree, depth, n, m);
    }
}

proof fn lemma_hale_backed(s: Stand)
    requires
        hale(s),
        s.prefix.len() > 0,
    ensures
        hale(backed(s)),
{
    let d = (s.prefix.len() - 1) as nat;
    let up = Stand { prefix: s.prefix.drop_last(), ..s };
    assert(at(s.tree, d).kids.len() > 0);
    lemma_forked_at(s.tree, d);
    lemma_forked_less(at(s.tree, d));
    lemma_hale_put(up, d, Plan { kids: at(s.tree, d).kids.remove(0) });
    let b = backed(s);
    assert forall|m: nat| m < b.prefix.len() implies #[trigger] at(b.tree, m).kids.len() > 0 by {
    }
}

proof fn lemma_hale_mending<O: Object, P: Process<Op = O::Op, Reply = O::Reply>>(
    w: WorldModel<O::Model, P::Model, P::Reply>,
    s: Stand,
    j: nat,
    i: nat,
)
    requires
        hale(s),
        i <= j,
        i <= 1 && j == s.prefix.len() + 1 || j <= s.prefix.len(),
    ensures
        hale(mending::<O, P>(w, s, j, i).0),
    decreases j, i,
{
    if i <= 1 {
        if j > 1 {
            lemma_hale_mending::<O, P>(w, s, (j - 1) as nat, (j - 1) as nat);
        }
    } else {
        lemma_hale_mending::<O, P>(w, s, j, (i - 1) as nat);
        lemma_mending::<O, P>(w, s, j, (i - 1) as nat);
        let r = mending::<O, P>(w, s, j, (i - 1) as nat).0;
        lemma_hale_settled::<O, P>(w, r, i - 1, j as int);
    }
}

proof fn lemma_hale_settled<O: Object, P: Process<Op = O::Op, Reply = O::Reply>>(
    w: WorldModel<O::Model, P::Model, P::Reply>,
    s: Stand,
    i: int,
    j: int,
)
    requires
        hale(s),
        1 <= i < j <= s.prefix.len(),
    ensures
        hale(race_note::<O, P>(w, s, i, j).stand),
{
    let d = (i - 1) as nat;
    let b = behaviour::<O, P>(reached::<O, P>(w, s.prefix.take(i - 1)).world);
    let v = reversing::<O>(reached::<O, P>(w, s.prefix).world.objs, s.prefix, i - 1, j - 1);
    let n = at(s.tree, d);
    assert(n.kids.len() > 0);
    lemma_forked_at(s.tree, d);
    lemma_sown_first(b, n, v);
    if walkable(b, pids(v)) {
        lemma_forked_sown(b, n, true, v);
        lemma_hale_put(s, d, sown(b, n, true, v));
    }
}

/// The steps reported are right about where the search goes on, turn by turn.
proof fn lemma_heralded<O: Object, P: Process<Op = O::Op, Reply = O::Reply>>(
    w: WorldModel<O::Model, P::Model, P::Reply>,
    n: nat,
)
    ensures
        heralded::<O, P>(w, saga::<O, P>(w, n)),
    decreases n,
{
    if n == 0 {
        lemma_heralded_start::<O, P>(w);
    } else {
        let s = saga::<O, P>(w, (n - 1) as nat);
        lemma_heralded::<O, P>(w, (n - 1) as nat);
        if s.end is None {
            let top = at(s.now.tree, s.now.prefix.len());
            if top.kids.len() == 0 {
                lemma_heralded_up::<O, P>(w, s);
            } else {
                let objs = reached::<O, P>(w, s.now.prefix).world.objs;
                let p = top.kids[0].0.pid;
                if offers::<O>(objs, p) {
                    lemma_heralded_down::<O, P>(w, s);
                } else {
                    lemma_heralded_forgone::<O, P>(w, s);
                }
            }
        }
    }
}

proof fn lemma_heralded_start<O: Object, P: Process<Op = O::Op, Reply = O::Reply>>(
    w: WorldModel<O::Model, P::Model, P::Reply>,
)
    ensures
        heralded::<O, P>(w, opening::<O, P>(w)),
{
    let objs = started::<O, P>(w).world.objs;
    if started::<O, P>(w).failure is None {
        if let Some(p) = seedling::<O>(objs, Seq::empty()) {
            lemma_forked_chain(seq![op_for::<O>(objs, p)]);
        }
    }
}

/// Steps that have been followed stay followed.
proof fn lemma_followed<O: Object, P: Process<Op = O::Op, Reply = O::Reply>>(
    w: WorldModel<O::Model, P::Model, P::Reply>,
    notes: Seq<Note>,
    all: Seq<Note>,
    k: int,
)
    requires
        0 <= k < notes.len(),
        notes.is_prefix_of(all),
        followed::<O, P>(w, notes, k),
    ensures
        followed::<O, P>(w, all, k),
{
    let n = notes.len() as int;
    assert(all.subrange(0, n)[k] == all[k]);
    assert(all.subrange(0, n)[k + 1] == all[k + 1]);
    assert(all.subrange(0, n)[k + 2] == all[k + 2]);
}

proof fn lemma_heralded_up<O: Object, P: Process<Op = O::Op, Reply = O::Reply>>(
    w: WorldModel<O::Model, P::Model, P::Reply>,
    s: Saga,
)
    requires
        heralded::<O, P>(w, s),
        s.end is None,
        at(s.now.tree, s.now.prefix.len()).kids.len() == 0,
    ensures
        heralded::<O, P>(w, retreat(s)),
{
    let r = retreat(s);
    if s.now.prefix.len() > 0 {
        lemma_hale_backed(s.now);
    }
    assert(r.notes.subrange(0, s.notes.len() as int) =~= s.notes);
    assert forall|k: int| 0 <= k < r.notes.len() && points(#[trigger] r.notes[k]) implies shown(
        r.notes[k],
    ) && (runnable::<O, P>(w, r.notes[k]) ==> followed::<O, P>(w, r.notes, k) || about(r, k)) by {
        assert(k < s.notes.len());
        assert(r.notes[k] == s.notes[k]);
        if followed::<O, P>(w, s.notes, k) {
            lemma_followed::<O, P>(w, s.notes, r.notes, k);
        }
    }
}

proof fn lemma_heralded_forgone<O: Object, P: Process<Op = O::Op, Reply = O::Reply>>(
    w: WorldModel<O::Model, P::Model, P::Reply>,
    s: Saga,
)
    requires
        heralded::<O, P>(w, s),
        s.end is None,
        at(s.now.tree, s.now.prefix.len()).kids.len() > 0,
        !offers::<O>(
            reached::<O, P>(w, s.now.prefix).world.objs,
            at(s.now.tree, s.now.prefix.len()).kids[0].0.pid,
        ),
    ensures
        heralded::<O, P>(w, onward::<O, P>(w, s)),
{
    let r = onward::<O, P>(w, s);
    let d = s.now.prefix.len();
    let top = at(s.now.tree, d);
    lemma_forked_at(s.now.tree, d);
    lemma_forked_less(top);
    lemma_hale_put(s.now, d, Plan { kids: top.kids.remove(0) });
    assert(r.notes.subrange(0, s.notes.len() as int) =~= s.notes);
    assert forall|k: int| 0 <= k < r.notes.len() && points(#[trigger] r.notes[k]) implies shown(
        r.notes[k],
    ) && (runnable::<O, P>(w, r.notes[k]) ==> followed::<O, P>(w, r.notes, k) || about(r, k)) by {
        if k < s.notes.len() {
            assert(r.notes[k] == s.notes[k]);
            if followed::<O, P>(w, s.notes, k) {
                lemma_followed::<O, P>(w, s.notes, r.notes, k);
            }
        }
    }
}

proof fn lemma_heralded_down<O: Object, P: Process<Op = O::Op, Reply = O::Reply>>(
    w: WorldModel<O::Model, P::Model, P::Reply>,
    s: Saga,
)
    requires
        heralded::<O, P>(w, s),
        s.end is None,
        at(s.now.tree, s.now.prefix.len()).kids.len() > 0,
        offers::<O>(
            reached::<O, P>(w, s.now.prefix).world.objs,
            at(s.now.tree, s.now.prefix.len()).kids[0].0.pid,
        ),
    ensures
        heralded::<O, P>(w, onward::<O, P>(w, s)),
{
    let r = onward::<O, P>(w, s);
    let q = refreshed(s);
    let d = s.now.prefix.len();
    let top = at(s.now.tree, d);
    let objs = reached::<O, P>(w, s.now.prefix).world.objs;
    let t = op_for::<O>(objs, top.kids[0].0.pid);
    let down = lowered::<O, P>(w, s.now, t);
    let ns = descent_notes::<O, P>(w, s.now, t);
    let m = q.notes.len() as int;
    assert(ready_all::<O>(objs).contains(t) && t.pid == top.kids[0].0.pid);
    lemma_forked_at(s.now.tree, d);
    lemma_down::<O, P>(w, q, t);
    assert(r == advance::<O, P>(w, q, t));
    assert(q.notes.is_prefix_of(r.notes));
    assert(r.notes[m] == ns[0] && r.notes[m + 1] == ns[1]);
    assert(s.notes.is_prefix_of(r.notes)) by {
        assert forall|k: int| 0 <= k < s.notes.len() implies s.notes[k] == r.notes[k] by {
            assert(s.notes[k] == q.notes[k]);
            assert(r.notes.subrange(0, m)[k] == r.notes[k]);
        }
        assert(s.notes =~= r.notes.subrange(0, s.notes.len() as int));
    }
    assert forall|k: int| 0 <= k < r.notes.len() && points(#[trigger] r.notes[k]) implies shown(
        r.notes[k],
    ) && (runnable::<O, P>(w, r.notes[k]) ==> followed::<O, P>(w, r.notes, k) || about(r, k)) by {
        if k < s.notes.len() {
            assert(r.notes.subrange(0, s.notes.len() as int)[k] == r.notes[k]);
            if followed::<O, P>(w, s.notes, k) {
                lemma_followed::<O, P>(w, s.notes, r.notes, k);
            } else if about(s, k) {
                assert(m == k + 1);
                assert(followed::<O, P>(w, r.notes, k));
            }
        } else if k < m {
            assert(r.notes.subrange(0, m)[k] == r.notes[k]);
            assert(s.stale && k == m - 1);
            assert(followed::<O, P>(w, r.notes, k));
        }
    }
}

/// What a turn down adds: the notes of the descent, and then nothing that says where the search goes
/// on but the seed, which comes last.
proof fn lemma_down<O: Object, P: Process<Op = O::Op, Reply = O::Reply>>(
    w: WorldModel<O::Model, P::Model, P::Reply>,
    q: Saga,
    t: Transition,
)
    requires
        hale(q.now),
        q.end is None,
        !q.stale,
        at(q.now.tree, q.now.prefix.len()).kids.len() > 0,
    ensures
        ({
            let r = advance::<O, P>(w, q, t);
            let ns = descent_notes::<O, P>(w, q.now, t);
            let m = q.notes.len() as int;
            &&& hale(r.now)
            &&& q.notes.is_prefix_of(r.notes)
            &&& r.notes.len() >= m + 2
            &&& r.notes[m] == ns[0]
            &&& r.notes[m + 1] == ns[1]
            &&& forall|k: int|
                m <= k < r.notes.len() && points(#[trigger] r.notes[k]) ==> shown(r.notes[k])
                    && about(r, k)
        }),
{
    let r = advance::<O, P>(w, q, t);
    let ns = descent_notes::<O, P>(w, q.now, t);
    let m = q.notes.len() as int;
    let trace = q.now.prefix.push(t);
    let down = lowered::<O, P>(w, q.now, t);
    let after = reached::<O, P>(w, trace);
    assert(r.notes.subrange(0, m) =~= q.notes);
    assert(hale(down)) by {
        assert forall|k: nat| k < down.prefix.len() implies #[trigger] at(down.tree, k).kids.len()
            > 0 by {
            if k < q.now.prefix.len() {
                assert(at(q.now.tree, k).kids.len() > 0);
            }
        }
    }
    if after.failure is None {
        if ready_all::<O>(after.world.objs).len() == 0 {
            let races = mending::<O, P>(w, down, trace.len() + 1, 1).1;
            lemma_mending::<O, P>(w, down, trace.len() + 1, 1);
            lemma_hale_mending::<O, P>(w, down, trace.len() + 1, 1);
            assert forall|k: int| m <= k < r.notes.len() && points(
                #[trigger] r.notes[k],
            ) implies false by {
                if k >= m + 3 {
                    assert(r.notes[k] == races[k - m - 3]);
                    assert(races[k - m - 3].told is Race);
                }
            }
        } else {
            let d = down.prefix.len();
            let n = at(down.tree, d);
            lemma_forked_at(down.tree, d);
            if let Some(p) = seedling::<O>(after.world.objs, down.sleeps[d as int]) {
                lemma_forked_chain(seq![op_for::<O>(after.world.objs, p)]);
            }
            lemma_hale_put(
                down,
                d,
                seeds::<O>(after.world.objs, down.sleeps[d as int], n),
            );
        }
    }
}

/// The step of a search that says where it goes on shows a frontier with branches, of different
/// processes, whose first is the seed. If the process at the head of the frontier has an operation
/// ready, it is the next to step: the next step reported is the visit of the state that it leads to,
/// and the one after that its descent or its failure.
pub proof fn lemma_told_where<O: Object, P: Process<Op = O::Op, Reply = O::Reply>>(
    w: WorldModel<O::Model, P::Model, P::Reply>,
    notes: Seq<Note>,
    end: Option<Seq<Transition>>,
    k: int,
)
    requires
        tells::<O, P>(w, notes, end),
        0 <= k < notes.len(),
        points(notes[k]),
    ensures
        heralds::<O, P>(w, notes, k),
{
    let n = choose|n: nat|
        (#[trigger] saga::<O, P>(w, n)).end == Some(end) && saga::<O, P>(w, n).notes == notes;
    lemma_heralded::<O, P>(w, n);
}

/// In `notes`, the process at the head of the frontier has an operation ready whenever a step says
/// where the search goes on.
pub open spec fn surefooted<O: Object, P: Process<Op = O::Op, Reply = O::Reply>>(
    w: WorldModel<O::Model, P::Model, P::Reply>,
    notes: Seq<Note>,
) -> bool {
    forall|k: int|
        0 <= k < notes.len() && points(#[trigger] notes[k]) ==> runnable::<O, P>(w, notes[k])
}

/// In `notes`, the process at the head of the frontier is the next to step whenever a step says where
/// the search goes on.
#[verifier::opaque]
pub open spec fn guided<O: Object, P: Process<Op = O::Op, Reply = O::Reply>>(
    w: WorldModel<O::Model, P::Model, P::Reply>,
    notes: Seq<Note>,
) -> bool {
    forall|k: int|
        0 <= k < notes.len() && points(#[trigger] notes[k]) ==> shown(notes[k]) && followed::<O, P>(
            w,
            notes,
            k,
        )
}

/// Where the head of the frontier can step, it is the next to step.
pub proof fn lemma_guided<O: Object, P: Process<Op = O::Op, Reply = O::Reply>>(
    w: WorldModel<O::Model, P::Model, P::Reply>,
    notes: Seq<Note>,
    end: Option<Seq<Transition>>,
)
    requires
        tells::<O, P>(w, notes, end),
        surefooted::<O, P>(w, notes),
    ensures
        guided::<O, P>(w, notes),
{
    reveal(guided);
    assert forall|k: int| 0 <= k < notes.len() && points(#[trigger] notes[k]) implies shown(
        notes[k],
    ) && followed::<O, P>(w, notes, k) by {
        lemma_told_where::<O, P>(w, notes, end, k);
    }
}

/// A program with nothing to do has one schedule, the empty one, which the search visits, and no
/// other state: it reports the visit, that there is nothing to explore, and that it is over.
pub proof fn lemma_told_idle<O: Object, P: Process<Op = O::Op, Reply = O::Reply>>(
    w: WorldModel<O::Model, P::Model, P::Reply>,
    notes: Seq<Note>,
    end: Option<Seq<Transition>>,
)
    requires
        tells::<O, P>(w, notes, end),
        started::<O, P>(w).failure is None,
        ready_all::<O>(started::<O, P>(w).world.objs).len() == 0,
    ensures
        end is None,
        visits(notes) == seq![Seq::<Transition>::empty()],
        maximals(notes).len() == 0,
        notes.len() == 4,
        notes[1].told is RootEmpty,
        notes[2].told is Done,
        notes[3].told is Done,
        forall|trace: Seq<Transition>| #[trigger] feasible::<O, P>(w, trace) ==> trace.len() == 0,
{
    let objs = started::<O, P>(w).world.objs;
    let s = opening::<O, P>(w);
    assert forall|q: ProcessID| !#[trigger] offers::<O>(objs, q) by {
        if offers::<O>(objs, q) {
            assert(ready_all::<O>(objs).contains(op_for::<O>(objs, q)));
        }
    }
    assert(saga::<O, P>(w, 1) == onward::<O, P>(w, saga::<O, P>(w, 0)));
    assert(saga::<O, P>(w, 0) == s);
    assert(saga::<O, P>(w, 1) == retreat(s));
    assert(saga::<O, P>(w, 1).end == Some(None::<Seq<Transition>>));
    assert(tells::<O, P>(w, retreat(s).notes, None));
    lemma_told_once::<O, P>(w, notes, end, retreat(s).notes, None);
    let none = Seq::<Note>::empty();
    let visit = Note { told: Told::Visit { trace: Seq::empty() }, stand: outset() };
    let empty = Note { told: Told::RootEmpty, stand: outset() };
    let over = Note { told: Told::Done, stand: outset() };
    lemma_counts_push(none, visit);
    lemma_counts_push(none.push(visit), empty);
    lemma_counts_push(none.push(visit).push(empty), over);
    lemma_counts_push(none.push(visit).push(empty).push(over), over);
    assert(notes == none.push(visit).push(empty).push(over).push(over));
    assert(visits(notes) =~= seq![Seq::<Transition>::empty()]);
    assert forall|trace: Seq<Transition>| #[trigger] feasible::<O, P>(w, trace) implies trace.len()
        == 0 by {
        if trace.len() > 0 {
            lemma_feasible_prefix::<O, P>(w, trace, 1);
            let first = trace.take(1);
            assert(first.drop_last() =~= Seq::<Transition>::empty());
            assert(feasible::<O, P>(w, first));
        }
    }
}

} // verus!
