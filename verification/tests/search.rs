use std::cell::RefCell;
use std::collections::{BTreeMap, BTreeSet};
use std::future::{Future, poll_fn};
use std::pin::Pin;
use std::rc::Rc;
use std::sync::Arc;
use std::sync::atomic::{AtomicBool, Ordering};
use std::task::{Context, Poll, Wake, Waker};

use interweave::model::failure::FailureReason;
use interweave::model::object::{Object, Transition};
use interweave::model::machine::Machine;
use interweave::model::process::{Outcome, Process};
use interweave::model::state::{State, StateView};
use interweave::model::world::World;
use interweave::search::clocks::{event_clocks, happens_before};
use interweave::search::exhaustive::explore_exhaustively;
use interweave::search::explore::explore;
use interweave::search::reversal::seed;
use interweave::search::observer::{
    Interleavings, Observer, RaceOutcome, Step, StepCx, Visits, WakeupNode,
};
use interweave::sync::channel::Reply;
use interweave::sync::shared::{Answer, Handle, Receiver, Sender, Shared, SharedOp, exchanged};
use interweave::sync::value::{Render, Value};

type W<A, M> = World<Shared<A, M>, Task<A, M>>;
type Outcomes<A, M> = Outcome<SharedOp<A, M>>;

struct Woken(AtomicBool);

impl Wake for Woken {
    fn wake(self: Arc<Self>) {
        self.0.store(true, Ordering::SeqCst);
    }
}

// What a process and the executor hand each other: the operation asked for, and its reply.
struct Slot<A, M> {
    request: Option<Outcomes<A, M>>,
    reply: Option<Answer<A, M>>,
}

struct Me<A, M>(Rc<RefCell<Slot<A, M>>>);

impl<A, M> Clone for Me<A, M> {
    fn clone(&self) -> Self {
        Me(Rc::clone(&self.0))
    }
}

impl<A: Value, M: Render> Me<A, M> {
    fn new() -> Self {
        Me(Rc::new(RefCell::new(Slot { request: None, reply: None })))
    }

    // First poll registers the operation and yields; the commit fills in the reply, and the
    // next poll reads it back.
    async fn call(&self, request: Outcomes<A, M>) -> Answer<A, M> {
        let mut request = Some(request);
        poll_fn(move |_| {
            if let Some(r) = request.take() {
                self.0.borrow_mut().request = Some(r);
                return Poll::Pending;
            }
            match self.0.borrow_mut().reply.take() {
                Some(r) => Poll::Ready(r),
                None => Poll::Pending,
            }
        })
        .await
    }

    async fn atomic(&self, request: Outcomes<A, M>) -> A {
        match self.call(request).await {
            Answer::Observed(v) => v,
            Answer::Channel(_) => unreachable!(),
        }
    }

    async fn store(&self, x: &Handle<A>, v: A) -> A {
        self.atomic(x.store(v)).await
    }

    async fn load(&self, x: &Handle<A>) -> A {
        self.atomic(x.load()).await
    }

    async fn compare_exchange(&self, x: &Handle<A>, current: A, new: A) -> Result<A, A> {
        exchanged(current, self.atomic(x.compare_exchange(current, new)).await)
    }

    async fn send(&self, tx: &Sender<M>, v: M) {
        self.call(tx.send(v)).await;
    }

    async fn recv(&self, rx: &Receiver<M>) -> M {
        match self.call(rx.recv()).await {
            Answer::Channel(Reply::Received(v)) => v,
            _ => unreachable!(),
        }
    }
}

// A process written as a future.
struct Code<A, M> {
    future: Pin<Box<dyn Future<Output = Result<(), String>>>>,
    me: Me<A, M>,
}

type StepFn<A, M> = fn(Code<A, M>, Option<Answer<A, M>>) -> (Code<A, M>, Outcomes<A, M>);
type Task<A, M> = Machine<Code<A, M>, SharedOp<A, M>, Answer<A, M>, StepFn<A, M>>;

fn resume<A: Value, M: Render>(
    mut code: Code<A, M>,
    reply: Option<Answer<A, M>>,
) -> (Code<A, M>, Outcomes<A, M>) {
    code.me.0.borrow_mut().reply = reply;
    let woken = Arc::new(Woken(AtomicBool::new(false)));
    let waker = Waker::from(woken.clone());
    let outcome = match code.future.as_mut().poll(&mut Context::from_waker(&waker)) {
        Poll::Ready(Ok(())) => Outcome::Done,
        Poll::Ready(Err(e)) => Outcome::Failed(e),
        Poll::Pending => match code.me.0.borrow_mut().request.take() {
            Some(r) => r,
            None if woken.0.load(Ordering::SeqCst) => Outcome::Yield,
            None => Outcome::Blocked,
        },
    };
    (code, outcome)
}

fn task<A: Value, M: Render, Fut>(code: impl FnOnce(Me<A, M>) -> Fut) -> Task<A, M>
where
    Fut: Future<Output = Result<(), String>> + 'static,
{
    let me = Me::new();
    let code = Code { future: Box::pin(code(me.clone())), me };
    Machine::new(code, resume::<A, M> as StepFn<A, M>)
}

// --- spawn helpers ----------------------------------------------------------------
// Each fixture is a fixed set of processes, each a short sequence of operations ending in
// `Ok(())`.

fn spawn<A: Value, M: Render, Fut>(
    world: &mut W<A, M>,
    name: &str,
    code: impl FnOnce(Me<A, M>) -> Fut,
) where
    Fut: Future<Output = Result<(), String>> + 'static,
{
    world.spawn(name, task(code));
}

fn spawn_store<A: Value + 'static, M: Render + 'static>(
    world: &mut W<A, M>,
    name: &str,
    cell: Handle<A>,
    value: A,
) {
    spawn(world, name, move |me| async move {
        me.store(&cell, value).await;
        Ok(())
    });
}

fn spawn_load<A: Value + 'static, M: Render + 'static>(
    world: &mut W<A, M>,
    name: &str,
    cell: Handle<A>,
) {
    spawn(world, name, move |me| async move {
        me.load(&cell).await;
        Ok(())
    });
}

fn spawn_send(world: &mut W<i32, i32>, name: &str, tx: Sender<i32>, values: Vec<i32>) {
    spawn(world, name, move |me| async move {
        for v in values {
            me.send(&tx, v).await;
        }
        Ok(())
    });
}

fn spawn_recv(world: &mut W<i32, i32>, name: &str, rx: Receiver<i32>, count: usize) {
    spawn(world, name, move |me| async move {
        for _ in 0..count {
            me.recv(&rx).await;
        }
        Ok(())
    });
}

// A writer publishing `load(src) + 1` into `dst`.
fn spawn_increment(world: &mut W<i32, i32>, name: &str, src: Handle<i32>, dst: Handle<i32>) {
    spawn(world, name, move |me| async move {
        let v = me.load(&src).await;
        me.store(&dst, v + 1).await;
        Ok(())
    });
}

// `count` distinct zero-initialized atomics.
fn cells(world: &mut W<i32, i32>, prefix: &str, count: usize) -> Vec<Handle<i32>> {
    (0..count).map(|i| world.atomic(&format!("{prefix}{i}"), 0)).collect()
}

// --- observers / metrics ----------------------------------------------------------

// Counts the leaves (maximal interleavings) a search reaches.
#[derive(Default)]
struct Leaves(usize);

impl<O, P, F> Observer<O, P, F> for Leaves
where
    O: Object,
    P: Process<Op = O::Op, Reply = O::Reply>,
    F: Fn(World<O, P>) -> World<O, P>,
{
    fn step(&mut self, step: Step<'_>, cx: StepCx<'_, '_, O, P, F>) {
        if matches!(step, Step::Visit) && cx.state().is_terminal() {
            self.0 += 1;
        }
    }
}

fn leaves<A: Value, M: Render>(setup: &impl Fn(W<A, M>) -> W<A, M>) -> usize {
    let mut obs = Leaves::default();
    let _ = explore(setup, &mut obs);
    obs.0
}

fn dfs_leaves<A: Value, M: Render>(setup: &impl Fn(W<A, M>) -> W<A, M>) -> usize {
    let mut obs = Leaves::default();
    let _ = explore_exhaustively(setup, &mut obs);
    obs.0
}

// Ground-truth class count: run exhaustive DFS and canonicalize each maximal trace by its
// happens-before relation over stable event labels. Equivalent interleavings share one
// canonical form, so the number of distinct forms is the exact number Optimal DPOR must
// explore.
type Label = (usize, usize, usize); // (pid, the process's own operation index, oid)
type Canon = BTreeSet<(Label, Label)>;

fn canon<O, P, F>(state: &State<'_, O, P, F>) -> Canon
where
    O: Object,
    P: Process<Op = O::Op, Reply = O::Reply>,
    F: Fn(World<O, P>) -> World<O, P>,
{
    let trace = state.trace();
    let n = trace.len();
    let clocks = event_clocks(state);
    let mut seen = BTreeMap::<usize, usize>::new();
    let mut label = vec![(0usize, 0usize, 0usize); n + 1];
    for k in 1..=n {
        let t = trace[k - 1];
        let idx = seen.entry(t.pid).or_default();
        label[k] = (t.pid, *idx, t.oid);
        *idx += 1;
    }
    let mut hb = Canon::new();
    for j in 1..=n {
        for i in 1..j {
            if happens_before(&clocks, trace, i, j) {
                hb.insert((label[i], label[j]));
            }
        }
    }
    hb
}

#[derive(Default)]
struct Classes(BTreeSet<Canon>);

impl<O, P, F> Observer<O, P, F> for Classes
where
    O: Object,
    P: Process<Op = O::Op, Reply = O::Reply>,
    F: Fn(World<O, P>) -> World<O, P>,
{
    fn step(&mut self, step: Step<'_>, cx: StepCx<'_, '_, O, P, F>) {
        if matches!(step, Step::Visit) && cx.state().is_terminal() {
            self.0.insert(canon(cx.state()));
        }
    }
}

fn classes<A: Value, M: Render>(setup: &impl Fn(W<A, M>) -> W<A, M>) -> usize {
    let mut obs = Classes::default();
    let _ = explore_exhaustively(setup, &mut obs);
    obs.0.len()
}

// Optimal explores exactly one trace per class, and never more than DFS.
fn assert_optimal<A: Value, M: Render>(setup: &impl Fn(W<A, M>) -> W<A, M>) {
    let opt = leaves(setup);
    assert_eq!(opt, classes(setup), "Optimal must explore one trace per class");
    assert!(opt <= dfs_leaves(setup), "Optimal must never explore more than DFS");
}

// DFS sees `dfs` leaves, Optimal sees `optimal`, and Optimal is one-per-class.
fn assert_leaves<A: Value, M: Render>(
    setup: &impl Fn(W<A, M>) -> W<A, M>,
    dfs: usize,
    optimal: usize,
) {
    assert_eq!(dfs_leaves(setup), dfs, "DFS leaf count");
    assert_eq!(leaves(setup), optimal, "Optimal leaf count");
    assert_optimal(setup);
}

// --- fixtures ---------------------------------------------------------------------

type Cells = W<u32, i32>;
type Mixed = W<i32, i32>;

// Two loads of one atomic: read/read independent.
fn two_loaders(mut world: Cells) -> Cells {
    let x = world.atomic("x", 0);
    spawn_load(&mut world, "reader-1", x);
    spawn_load(&mut world, "reader-2", x);
    world
}

// Stores to two different atomics: independent (different objects).
fn two_objects(mut world: Cells) -> Cells {
    let x = world.atomic("x", 0);
    let y = world.atomic("y", 0);
    spawn_store(&mut world, "writer-x", x, 1);
    spawn_store(&mut world, "writer-y", y, 1);
    world
}

// Two stores to one atomic: dependent (the cell value differs by order).
fn two_writers(mut world: Cells) -> Cells {
    let x = world.atomic("x", 0);
    spawn_store(&mut world, "writer-1", x, 1);
    spawn_store(&mut world, "writer-2", x, 2);
    world
}

// The reader errors unless it observes the writer's store.
fn racy(mut world: Cells) -> Cells {
    let x = world.atomic("x", 0);
    spawn_store(&mut world, "writer", x, 1);
    spawn(&mut world, "reader", move |me| async move {
        if me.load(&x).await == 1 {
            Ok(())
        } else {
            Err("unexpected value".to_string())
        }
    });
    world
}

fn never_finishes(mut world: Cells) -> Cells {
    spawn(&mut world, "stuck", |_| async {
        std::future::pending::<()>().await;
        Ok(())
    });
    world
}

// Three stores to one cell: all 3! orders inequivalent, so Optimal == DFS.
fn three_writers(mut world: Cells) -> Cells {
    let x = world.atomic("x", 0);
    for i in 1..=3u32 {
        spawn_store(&mut world, &format!("w{i}"), x, i);
    }
    world
}

// A writer racing two readers on one cell: the readers commute, each races the writer.
fn one_writer_two_readers(mut world: Cells) -> Cells {
    let x = world.atomic("x", 0);
    spawn_store(&mut world, "writer", x, 1);
    spawn_load(&mut world, "reader-1", x);
    spawn_load(&mut world, "reader-2", x);
    world
}

// Flipping the x-race changes *which operations the reader issues*: on x == 0 it loads y, on
// x == 1 it stores y (itself racing write-y).
fn branch_changes_ops(mut world: Cells) -> Cells {
    let x = world.atomic("x", 0);
    let y = world.atomic("y", 0);
    spawn_store(&mut world, "write-x", x, 1);
    spawn_store(&mut world, "write-y", y, 1);
    spawn(&mut world, "reader", move |me| async move {
        if me.load(&x).await == 0 {
            me.load(&y).await;
        } else {
            me.store(&y, 2).await;
        }
        Ok(())
    });
    world
}

// Two producers send one value each into one MPSC channel; a consumer recvs both.
fn producer_consumer(mut world: Mixed) -> Mixed {
    let (tx, rx) = world.channel("ch");
    spawn_send(&mut world, "producer-1", tx, vec![1]);
    spawn_send(&mut world, "producer-2", tx, vec![2]);
    spawn_recv(&mut world, "consumer", rx, 2);
    world
}

// Callers share one connection and the reader routes by a shared in_flight slot, so a reply can
// be delivered to the wrong call when a second caller overwrites the slot first.
fn rpc_mux(mut world: W<i32, (i32, i32)>) -> W<i32, (i32, i32)> {
    let in_flight = world.atomic("in_flight", -1);
    let (conn, reader) = world.channel("conn");
    for id in 0..2 {
        spawn(&mut world, &format!("caller-{id}"), move |me| async move {
            me.store(&in_flight, id).await;
            me.send(&conn, (id, id * 10)).await;
            Ok(())
        });
    }
    spawn(&mut world, "reader", move |me| async move {
        for _ in 0..2 {
            let (id, result) = me.recv(&reader).await;
            let routed_to = me.load(&in_flight).await;
            if result != routed_to * 10 {
                return Err(format!("call {routed_to} received call {id}'s result ({result})"));
            }
        }
        Ok(())
    });
    world
}

// Three producers send one value each; the consumer recvs all three.
fn three_producers(mut world: Mixed) -> Mixed {
    let (tx, rx) = world.channel("ch");
    for i in 1..=3i32 {
        spawn_send(&mut world, &format!("producer-{i}"), tx, vec![i]);
    }
    spawn_recv(&mut world, "consumer", rx, 3);
    world
}

// Producer-a sends 1 then 2 (program order fixes 1 before 2); producer-b sends 3. The consumer
// recvs three times.
fn interleaved(mut world: Mixed) -> Mixed {
    let (tx, rx) = world.channel("ch");
    spawn_send(&mut world, "producer-a", tx, vec![1, 2]);
    spawn_send(&mut world, "producer-b", tx, vec![3]);
    spawn_recv(&mut world, "consumer", rx, 3);
    world
}

// Two writers race an atomic `x` while two producers race a channel; the consumer recvs both
// messages.
fn mixed(mut world: Mixed) -> Mixed {
    let x = world.atomic("x", 0);
    spawn_store(&mut world, "writer-1", x, 1);
    spawn_store(&mut world, "writer-2", x, 2);
    let (tx, rx) = world.channel("ch");
    spawn_send(&mut world, "producer-1", tx, vec![1]);
    spawn_send(&mut world, "producer-2", tx, vec![2]);
    spawn_recv(&mut world, "consumer", rx, 2);
    world
}

// The consumer's control flow depends on which message it recvs first: a sentinel makes it load
// the atomic, otherwise it stores it, racing a writer on that atomic.
fn branch_consumer(mut world: Mixed) -> Mixed {
    let x = world.atomic("x", 0);
    spawn_store(&mut world, "writer", x, 5);
    let (tx, rx) = world.channel("ch");
    spawn_send(&mut world, "producer-1", tx, vec![0]);
    spawn_send(&mut world, "producer-2", tx, vec![1]);
    spawn(&mut world, "consumer", move |me| async move {
        if me.recv(&rx).await == 0 {
            me.load(&x).await;
        } else {
            me.store(&x, 9).await;
        }
        Ok(())
    });
    world
}

// A racy atomic read sits between sends, so a later send's per-object seq drifts with the g
// load/store order.
fn seq_drift(mut world: Mixed) -> Mixed {
    let g = world.atomic("g", 0);
    let (tx, rx) = world.channel("ch");
    spawn_send(&mut world, "p1", tx, vec![1]);
    spawn_store(&mut world, "writer-g", g, 5);
    spawn(&mut world, "p3", move |me| async move {
        me.load(&g).await;
        me.send(&tx, 3).await;
        Ok(())
    });
    spawn_send(&mut world, "p2", tx, vec![2]);
    spawn_recv(&mut world, "consumer", rx, 3);
    world
}

// readers(N): one writer to `x`, N readers of it.
fn readers(mut world: Cells, n: usize) -> Cells {
    let x = world.atomic("x", 0);
    spawn_store(&mut world, "writer", x, 42);
    for i in 1..=n {
        spawn_load(&mut world, &format!("reader-{i}"), x);
    }
    world
}

// lastzero(N): the reader scans the cells top-down until it reads zero; writer j stores
// `load(a[j-1]) + 1` into `a[j]`.
fn lastzero(mut world: Mixed, n: usize) -> Mixed {
    let cells = cells(&mut world, "a", n + 1);
    let rc = cells.to_vec();
    spawn(&mut world, "reader", move |me| async move {
        let mut i = n;
        loop {
            if me.load(&rc[i]).await == 0 {
                break;
            }
            if i == 0 {
                break;
            }
            i -= 1;
        }
        Ok(())
    });
    for j in 1..=n {
        spawn_increment(&mut world, &format!("writer-{j}"), cells[j - 1], cells[j]);
    }
    world
}

// indexer(NUM_THREADS): 128 hash-table cells, each thread inserts 4 values with
// `w = (++m)*11 + tid`, `h = (w*7) % 128`, probing h+1 on CAS failure.
fn indexer(mut world: Mixed, num_threads: usize) -> Mixed {
    let table = cells(&mut world, "t", 128);
    for tid in 0..num_threads {
        let tab = table.to_vec();
        spawn(&mut world, &format!("thread-{tid}"), move |me| async move {
            let mut m = 0i32;
            for _ in 0..10 {
                if m < 4 {
                    m += 1;
                    let w = m * 11 + tid as i32;
                    let mut h = ((w * 7) % 128) as usize;
                    loop {
                        match me.compare_exchange(&tab[h], 0, w).await {
                            Ok(_) => break,
                            Err(_) => h = (h + 1) % 128,
                        }
                    }
                } else {
                    break;
                }
            }
            Ok(())
        });
    }
    world
}

// Two threads CAS the same cell with distinct values, the loser probes the next cell.
fn indexer_collision(mut world: Mixed, n: usize) -> Mixed {
    let cells = cells(&mut world, "c", n + 1);
    for tid in 0..2 {
        let tab = cells.to_vec();
        spawn(&mut world, &format!("t{tid}"), move |me| async move {
            let w = tid + 1;
            let mut h = 0usize;
            loop {
                match me.compare_exchange(&tab[h], 0, w).await {
                    Ok(_) => break,
                    Err(_) => h += 1,
                }
            }
            Ok(())
        });
    }
    world
}

// --- reduction / optimality -------------------------------------------------------

#[test]
fn reduces_read_read() {
    assert_leaves(&two_loaders, 2, 1);
}

#[test]
fn reduces_disjoint_objects() {
    assert_leaves(&two_objects, 2, 1);
}

#[test]
fn keeps_dependent_writes() {
    // Two stores to one atomic are inequivalent in either order: no reduction.
    assert_leaves(&two_writers, 2, 2);
}

#[test]
fn keeps_three_writers() {
    // 3! inequivalent orders: Optimal matches DFS exactly (6), none pruned.
    assert_leaves(&three_writers, 6, 6);
}

#[test]
fn reduces_writer_two_readers() {
    assert!(leaves(&one_writer_two_readers) < 6);
    assert_optimal(&one_writer_two_readers);
}

#[test]
fn handles_branch_changing_ops() {
    // Reversing a race changes which operations exist downstream.
    assert_optimal(&branch_changes_ops);
}

// A read and a write of one cell in each of two processes, in opposite orders: five classes,
// since all of them differ in what the loads see or in who writes last.
#[test]
fn crossed_reads_and_writes() {
    let setup = |mut world: Cells| {
        let x = world.atomic("x", 0);
        spawn(&mut world, "load-store", move |me| async move {
            me.load(&x).await;
            me.store(&x, 2).await;
            Ok(())
        });
        spawn(&mut world, "store-load", move |me| async move {
            me.store(&x, 1).await;
            me.load(&x).await;
            Ok(())
        });
        world
    };
    assert_leaves(&setup, 6, 5);
}

// --- completeness / soundness -----------------------------------------------------

#[test]
fn finds_the_race() {
    // Optimal still reaches the stale-read failure DFS finds, identically.
    let dfs = explore_exhaustively(&racy, &mut ()).unwrap_err();
    let opt = explore(&racy, &mut ()).unwrap_err();
    assert_eq!(opt.to_string(), dfs.to_string());
}

#[test]
fn detects_deadlock() {
    let failed = explore(&never_finishes, &mut ()).unwrap_err();
    assert_eq!(failed.to_string(), "deadlock");
}

// --- channels ---------------------------------------------------------------------

#[test]
fn channel_one_per_class() {
    // Two producers + one consumer: only the enqueue order matters (2 classes).
    assert_optimal(&producer_consumer);
}

#[test]
fn rpc_mux_bug_found_identically() {
    // DFS and Optimal both find the reply-misrouting bug and report the same failing state.
    let dfs = explore_exhaustively(&rpc_mux, &mut ()).unwrap_err();
    let opt = explore(&rpc_mux, &mut ()).unwrap_err();
    assert_eq!(opt.to_string(), dfs.to_string());
}

#[test]
fn channel_three_producers() {
    // 3! enqueue orders: 6 classes.
    assert_leaves(&three_producers, 30, 6);
}

#[test]
fn channel_interleaved_independent_count() {
    // 3 is the number of linearizations of {1<2, 3 free}.
    assert_leaves(&interleaved, 15, 3);
}

#[test]
fn channel_mixed_objects() {
    // Cross-object independence: 2 store orders x 2 send orders = 4 classes.
    assert_leaves(&mixed, 120, 4);
}

#[test]
fn channel_branch_consumer() {
    // The received value flips which atomic operation the consumer issues.
    assert_optimal(&branch_consumer);
}

#[test]
fn channel_seq_drift_no_panic() {
    // 3! send orders x 2 for the g load/store race.
    assert_optimal(&seq_drift);
    assert_leaves(&seq_drift, 608, 12);
}

// --- benchmark counts -------------------------------------------------------------

#[test]
fn readers_small() {
    for n in 2..=4 {
        assert_optimal(&|w| readers(w, n));
    }
    assert_eq!(leaves(&|w| readers(w, 2)), 4);
}

#[test]
fn readers_paper_counts() {
    // 2^N classes.
    assert_eq!(leaves(&|w| readers(w, 8)), 256);
    assert_eq!(leaves(&|w| readers(w, 13)), 8192);
}

#[test]
fn lastzero_small() {
    // classes: lastzero(2) = 5, lastzero(3) = 12.
    assert_optimal(&|w| lastzero(w, 2));
    assert_optimal(&|w| lastzero(w, 3));
    assert_eq!(leaves(&|w| lastzero(w, 2)), 5);
    assert_eq!(leaves(&|w| lastzero(w, 3)), 12);
}

#[test]
fn lastzero_paper_counts() {
    // (N+3)*2^(N-2) classes.
    assert_eq!(leaves(&|w| lastzero(w, 5)), 64);
    assert_eq!(leaves(&|w| lastzero(w, 10)), 3328);
}

// The CAS-collision logic indexer relies on, checked against ground truth.
#[test]
fn indexer_collision_ground_truth() {
    assert_optimal(&|w| indexer_collision(w, 2));
    assert_optimal(&|w| indexer_collision(w, 3));
}

#[test]
fn indexer_paper_counts() {
    assert_eq!(leaves(&|w| indexer(w, 12)), 8);
}

// --- the entry point --------------------------------------------------------------

#[test]
fn explore_play_reproduces_failure() {
    let failed = explore(&racy, &mut ()).unwrap_err();
    let again = failed.play();
    assert_eq!(failed.to_string(), again.to_string());
    assert_eq!(failed.trace(), again.trace());
    assert_eq!(failed.to_string(), "process reader failed: unexpected value");
}

#[test]
fn explore_explores_clean_program() {
    assert!(explore(&two_writers, &mut ()).is_ok());
    assert!(explore_exhaustively(&two_writers, &mut ()).is_ok());
}

#[test]
fn explore_deadlock_is_detected() {
    let failed = explore(&never_finishes, &mut ()).unwrap_err();
    assert_eq!(failed.to_string(), "deadlock");
    assert!(matches!(failed.reason(), FailureReason::Deadlock));
    failed.play();
}

// The flag goes up before the value is written: the consumer can read the stale value.
fn publish(mut world: Mixed, value_first: bool) -> Mixed {
    let data = world.atomic("data", 0);
    let ready = world.atomic("ready", 0);
    spawn(&mut world, "producer", move |me| async move {
        if value_first {
            me.store(&data, 42).await;
            me.store(&ready, 1).await;
        } else {
            me.store(&ready, 1).await;
            me.store(&data, 42).await;
        }
        Ok(())
    });
    spawn(&mut world, "consumer", move |me| async move {
        if me.load(&ready).await == 1 {
            let v = me.load(&data).await;
            if v != 42 {
                return Err(format!("read the value before it was published: {v}"));
            }
        }
        Ok(())
    });
    world
}

#[test]
fn unsafe_publication_is_found() {
    let failed = explore(&|w| publish(w, false), &mut ()).unwrap_err();
    assert_eq!(
        failed.to_string(),
        "process consumer failed: read the value before it was published: 0"
    );
    assert!(explore(&|w| publish(w, true), &mut ()).is_ok());
}

// Money in flight between two accounts is missing from their sum.
fn bank(mut world: Mixed) -> Mixed {
    let a = world.atomic("a", 100);
    let b = world.atomic("b", 0);
    spawn(&mut world, "transfer", move |me| async move {
        let av = me.load(&a).await;
        me.store(&a, av - 10).await;
        let bv = me.load(&b).await;
        me.store(&b, bv + 10).await;
        Ok(())
    });
    spawn(&mut world, "audit", move |me| async move {
        let av = me.load(&a).await;
        let bv = me.load(&b).await;
        let total = av + bv;
        if total != 100 {
            return Err(format!("invariant violated: a={av} + b={bv} = {total}, expected 100"));
        }
        Ok(())
    });
    world
}

#[test]
fn money_in_flight_is_noticed() {
    let failed = explore(&bank, &mut ()).unwrap_err();
    assert!(failed.to_string().starts_with("process audit failed: invariant violated: a="));
    assert_eq!(failed.play().to_string(), failed.to_string());
}

// A store and a load behind it are not one step: the other writer can run between them.
fn racing_writers(mut world: Mixed) -> Mixed {
    let reg = world.atomic("reg", 0);
    for id in 1..=2 {
        spawn(&mut world, &format!("writer-{id}"), move |me| async move {
            me.store(&reg, id).await;
            let seen = me.load(&reg).await;
            if seen != id {
                return Err(format!("writer-{id} expected {id}, observed {seen}"));
            }
            Ok(())
        });
    }
    world
}

#[test]
fn racing_writers_collide() {
    let failed = explore(&racing_writers, &mut ()).unwrap_err();
    let text = failed.to_string();
    assert!(
        text == "process writer-1 failed: writer-1 expected 1, observed 2"
            || text == "process writer-2 failed: writer-2 expected 2, observed 1"
    );
}

// The exhaustive search reports the same failures.

#[test]
fn play_reproduces_failure() {
    let failed = explore_exhaustively(&racy, &mut ()).unwrap_err();
    let again = failed.play();
    assert_eq!(failed.to_string(), again.to_string());
}

#[test]
fn explores_clean_program() {
    assert!(explore_exhaustively(&two_writers, &mut ()).is_ok());
}

#[test]
fn deadlock_is_detected() {
    let failed = explore_exhaustively(&never_finishes, &mut ()).unwrap_err();
    assert_eq!(failed.to_string(), "deadlock");
    failed.play();
}

// Every state on the way to a visited state has been visited, the starting state first; the
// failing state is the last one.
#[test]
fn visits_lead_from_the_start() {
    let mut visits = Visits::new();
    let failed = explore(&racy, &mut visits).unwrap_err();
    assert!(visits.get(0).is_empty());
    assert_eq!(visits.get(visits.len() - 1).as_slice(), failed.trace());
    let all: Vec<&Vec<Transition>> = (0..visits.len()).map(|i| visits.get(i)).collect();
    for v in &all {
        for m in 0..v.len() {
            assert!(all.iter().any(|u| u.as_slice() == &v[..m]));
        }
    }
}

// A consumer recvs more than the single producer sends: after the one message the second recv
// blocks forever with no producer left.
fn starved_consumer(mut world: Mixed) -> Mixed {
    let (tx, rx) = world.channel("ch");
    spawn_send(&mut world, "producer", tx, vec![1]);
    spawn_recv(&mut world, "consumer", rx, 2);
    world
}

#[test]
fn channel_starvation_is_deadlock() {
    let failed = explore(&starved_consumer, &mut ()).unwrap_err();
    assert_eq!(failed.to_string(), "deadlock");
}

// A process that fails before its first scheduling point fails the starting state.
#[test]
fn failing_start_is_reported() {
    let setup = |mut world: Cells| {
        spawn(&mut world, "bad", |_| async { Err("no".to_string()) });
        world
    };
    let failed = explore(&setup, &mut ()).unwrap_err();
    assert_eq!(failed.to_string(), "process bad failed: no");
    assert!(failed.trace().is_empty());
}

#[test]
fn nothing_to_explore() {
    let mut rec = Recorder::default();
    assert!(explore(&|world: Cells| world, &mut rec).is_ok());
    assert_eq!(rec.lines, ["Visit d0 terminal=true", "RootEmpty", "Done", "Done"]);
}

// Every complete interleaving is kept once, and no two of them are of one class.
#[test]
fn interleavings_are_recorded() {
    let mut seen = Interleavings::new();
    assert!(explore(&one_writer_two_readers, &mut seen).is_ok());
    let kept: Vec<Vec<usize>> = (0..seen.len())
        .map(|i| seen.get(i).iter().map(|t| t.pid()).collect())
        .collect();
    assert_eq!(kept, [vec![0, 1, 2], vec![1, 0, 2], vec![1, 2, 0], vec![2, 0, 1]]);
}

// --- the step stream --------------------------------------------------------------

// Records each step as one compact line, resolving pids to process names.
#[derive(Default)]
struct Recorder {
    lines: Vec<String>,
}

fn names<O, P, F>(cx: &StepCx<'_, '_, O, P, F>, pids: &[usize]) -> String
where
    O: Object,
    P: Process<Op = O::Op, Reply = O::Reply>,
    F: Fn(World<O, P>) -> World<O, P>,
{
    let names: Vec<&str> = pids.iter().map(|&p| cx.process(p)).collect();
    format!("[{}]", names.join(","))
}

fn proc_names<O, P, F>(cx: &StepCx<'_, '_, O, P, F>, ts: &[Transition]) -> String
where
    O: Object,
    P: Process<Op = O::Op, Reply = O::Reply>,
    F: Fn(World<O, P>) -> World<O, P>,
{
    names(cx, &ts.iter().map(|t| t.pid()).collect::<Vec<_>>())
}

impl<O, P, F> Observer<O, P, F> for Recorder
where
    O: Object,
    P: Process<Op = O::Op, Reply = O::Reply>,
    F: Fn(World<O, P>) -> World<O, P>,
{
    fn step(&mut self, step: Step<'_>, cx: StepCx<'_, '_, O, P, F>) {
        let line = match step {
            Step::Visit => format!(
                "Visit d{} terminal={}",
                cx.state().trace().len(),
                cx.state().is_terminal()
            ),
            Step::RootSeed { seeded } => format!("RootSeed {}", cx.process(seeded.pid())),
            Step::RootEmpty => "RootEmpty".to_string(),
            Step::Descend { depth, committed, parent_sleep, child_sleep } => {
                let dropped: Vec<usize> =
                    parent_sleep.iter().copied().filter(|p| !child_sleep.contains(p)).collect();
                format!(
                    "Descend d{depth} {} parent_sleep={} child_sleep={} dropped={}",
                    cx.process(committed.pid()),
                    names(&cx, parent_sleep),
                    names(&cx, child_sleep),
                    names(&cx, &dropped),
                )
            }
            Step::SeedChild { depth, seeded } => match seeded {
                Some(q_t) => format!("SeedChild d{depth} {}", cx.process(q_t.pid())),
                None => format!("SeedChild d{depth} -"),
            },
            Step::Maximal { trace, failure } => {
                format!("Maximal {} failure={failure}", proc_names(&cx, trace))
            }
            Step::Race { i, j, e, ep, notdep: _, v, outcome } => {
                let outcome = match outcome {
                    RaceOutcome::Disabling => "disabling".to_string(),
                    RaceOutcome::CoveredBySleeper { insert_depth, covering_pid } => {
                        format!("covered@{insert_depth} by {}", cx.process(covering_pid))
                    }
                    RaceOutcome::ExistingLeaf { insert_depth } => {
                        format!("existingleaf@{insert_depth}")
                    }
                    RaceOutcome::Grafted { insert_depth } => format!("grafted@{insert_depth}"),
                };
                format!(
                    "Race i{i} j{j} ({},{}) v={} -> {outcome}",
                    cx.process(e.pid()),
                    cx.process(ep.pid()),
                    proc_names(&cx, v),
                )
            }
            Step::Pop { finished_pid, from_depth, into_depth } => {
                format!("Pop {} {from_depth}->{into_depth}", cx.process(finished_pid))
            }
            Step::Replay { prefix } => format!("Replay {}", proc_names(&cx, prefix)),
            Step::Done => "Done".to_string(),
        };
        self.lines.push(line);
    }
}

#[test]
fn observer_one_writer_two_readers_step_stream() {
    let mut rec = Recorder::default();
    let res = explore(&one_writer_two_readers, &mut rec);
    assert!(res.is_ok(), "fixture explores cleanly");
    let expected = [
        "Visit d0 terminal=false",
        "RootSeed writer",
        "Visit d1 terminal=false",
        "Descend d0 writer parent_sleep=[] child_sleep=[] dropped=[]",
        "SeedChild d1 reader-1",
        "Visit d2 terminal=false",
        "Descend d1 reader-1 parent_sleep=[] child_sleep=[] dropped=[]",
        "SeedChild d2 reader-2",
        "Visit d3 terminal=true",
        "Descend d2 reader-2 parent_sleep=[] child_sleep=[] dropped=[]",
        "Maximal [writer,reader-1,reader-2] failure=false",
        "Race i1 j2 (writer,reader-1) v=[reader-1] -> grafted@0",
        "Race i1 j3 (writer,reader-2) v=[reader-2] -> existingleaf@0",
        "Pop reader-2 3->2",
        "Pop reader-1 2->1",
        "Pop writer 1->0",
        "Replay []",
        "Visit d1 terminal=false",
        "Descend d0 reader-1 parent_sleep=[writer] child_sleep=[] dropped=[writer]",
        "SeedChild d1 writer",
        "Visit d2 terminal=false",
        "Descend d1 writer parent_sleep=[] child_sleep=[] dropped=[]",
        "SeedChild d2 reader-2",
        "Visit d3 terminal=true",
        "Descend d2 reader-2 parent_sleep=[] child_sleep=[] dropped=[]",
        "Maximal [reader-1,writer,reader-2] failure=false",
        "Race i1 j2 (reader-1,writer) v=[writer] -> covered@0 by writer",
        "Race i2 j3 (writer,reader-2) v=[reader-2] -> grafted@1",
        "Pop reader-2 3->2",
        "Pop writer 2->1",
        "Replay [reader-1]",
        "Visit d2 terminal=false",
        "Descend d1 reader-2 parent_sleep=[writer] child_sleep=[] dropped=[writer]",
        "SeedChild d2 writer",
        "Visit d3 terminal=true",
        "Descend d2 writer parent_sleep=[] child_sleep=[] dropped=[]",
        "Maximal [reader-1,reader-2,writer] failure=false",
        "Race i1 j3 (reader-1,writer) v=[reader-2,writer] -> grafted@0",
        "Race i2 j3 (reader-2,writer) v=[writer] -> covered@1 by writer",
        "Pop writer 3->2",
        "Pop reader-2 2->1",
        "Pop reader-1 1->0",
        "Replay []",
        "Visit d1 terminal=false",
        "Descend d0 reader-2 parent_sleep=[writer,reader-1] child_sleep=[reader-1] dropped=[writer]",
        "SeedChild d1 writer",
        "Visit d2 terminal=false",
        "Descend d1 writer parent_sleep=[reader-1] child_sleep=[] dropped=[reader-1]",
        "SeedChild d2 reader-1",
        "Visit d3 terminal=true",
        "Descend d2 reader-1 parent_sleep=[] child_sleep=[] dropped=[]",
        "Maximal [reader-2,writer,reader-1] failure=false",
        "Race i1 j2 (reader-2,writer) v=[writer] -> covered@0 by writer",
        "Race i2 j3 (writer,reader-1) v=[reader-1] -> covered@1 by reader-1",
        "Pop reader-1 3->2",
        "Pop writer 2->1",
        "Pop reader-2 1->0",
        "Done",
    ];
    assert_eq!(rec.lines, expected);
}

// The decisions alone, without the visits.
#[test]
fn step_one_writer_two_readers_step_stream() {
    let mut rec = Recorder::default();
    let res = explore(&one_writer_two_readers, &mut rec);
    assert!(res.is_ok(), "fixture explores cleanly");
    let decisions: Vec<String> =
        rec.lines.into_iter().filter(|l| !l.starts_with("Visit")).collect();
    let expected = [
        "RootSeed writer",
        "Descend d0 writer parent_sleep=[] child_sleep=[] dropped=[]",
        "SeedChild d1 reader-1",
        "Descend d1 reader-1 parent_sleep=[] child_sleep=[] dropped=[]",
        "SeedChild d2 reader-2",
        "Descend d2 reader-2 parent_sleep=[] child_sleep=[] dropped=[]",
        "Maximal [writer,reader-1,reader-2] failure=false",
        "Race i1 j2 (writer,reader-1) v=[reader-1] -> grafted@0",
        "Race i1 j3 (writer,reader-2) v=[reader-2] -> existingleaf@0",
        "Pop reader-2 3->2",
        "Pop reader-1 2->1",
        "Pop writer 1->0",
        "Replay []",
        "Descend d0 reader-1 parent_sleep=[writer] child_sleep=[] dropped=[writer]",
        "SeedChild d1 writer",
        "Descend d1 writer parent_sleep=[] child_sleep=[] dropped=[]",
        "SeedChild d2 reader-2",
        "Descend d2 reader-2 parent_sleep=[] child_sleep=[] dropped=[]",
        "Maximal [reader-1,writer,reader-2] failure=false",
        "Race i1 j2 (reader-1,writer) v=[writer] -> covered@0 by writer",
        "Race i2 j3 (writer,reader-2) v=[reader-2] -> grafted@1",
        "Pop reader-2 3->2",
        "Pop writer 2->1",
        "Replay [reader-1]",
        "Descend d1 reader-2 parent_sleep=[writer] child_sleep=[] dropped=[writer]",
        "SeedChild d2 writer",
        "Descend d2 writer parent_sleep=[] child_sleep=[] dropped=[]",
        "Maximal [reader-1,reader-2,writer] failure=false",
        "Race i1 j3 (reader-1,writer) v=[reader-2,writer] -> grafted@0",
        "Race i2 j3 (reader-2,writer) v=[writer] -> covered@1 by writer",
        "Pop writer 3->2",
        "Pop reader-2 2->1",
        "Pop reader-1 1->0",
        "Replay []",
        "Descend d0 reader-2 parent_sleep=[writer,reader-1] child_sleep=[reader-1] dropped=[writer]",
        "SeedChild d1 writer",
        "Descend d1 writer parent_sleep=[reader-1] child_sleep=[] dropped=[reader-1]",
        "SeedChild d2 reader-1",
        "Descend d2 reader-1 parent_sleep=[] child_sleep=[] dropped=[]",
        "Maximal [reader-2,writer,reader-1] failure=false",
        "Race i1 j2 (reader-2,writer) v=[writer] -> covered@0 by writer",
        "Race i2 j3 (writer,reader-1) v=[reader-1] -> covered@1 by reader-1",
        "Pop reader-1 3->2",
        "Pop writer 2->1",
        "Pop reader-2 1->0",
        "Done",
    ];
    assert_eq!(decisions, expected);
}

// What the context shows at a decision: the depths, the sleep sets, the pending operations and
// the wakeup tree.
#[derive(Default)]
struct Peek {
    pops: Vec<String>,
    grafts: Vec<Vec<usize>>,
}

fn front(node: WakeupNode<'_>) -> Vec<usize> {
    node.children().iter().map(|(t, _)| t.pid()).collect()
}

impl<O, P, F> Observer<O, P, F> for Peek
where
    O: Object,
    P: Process<Op = O::Op, Reply = O::Reply>,
    F: Fn(World<O, P>) -> World<O, P>,
{
    fn step(&mut self, step: Step<'_>, cx: StepCx<'_, '_, O, P, F>) {
        assert_eq!(cx.depth(), cx.prefix().len() + 1);
        match step {
            Step::Pop { into_depth, .. } => self.pops.push(format!(
                "{into_depth} {:?} {}",
                cx.sleep(into_depth),
                cx.pending(into_depth).len()
            )),
            Step::Race { outcome: RaceOutcome::Grafted { insert_depth: 0 }, .. } => {
                self.grafts.push(front(cx.wakeup()));
            }
            Step::Maximal { trace, .. } => {
                let last = trace[trace.len() - 1];
                assert!(!cx.label(last).is_empty());
                assert_eq!(cx.object(last.oid()), "x");
            }
            _ => {}
        }
    }
}

#[test]
fn context_shows_the_frontier() {
    let mut peek = Peek::default();
    assert!(explore(&two_writers, &mut peek).is_ok());
    assert_eq!(peek.pops, ["1 [1] 1", "0 [0] 2", "1 [0] 1", "0 [0, 1] 2"]);
    assert_eq!(peek.grafts, [vec![0, 1]]);
}

// The exhaustive search comes upon the failing schedules in the order of the enabled operations,
// and shows the context of every state.
#[derive(Default)]
struct Contexts {
    depths: Vec<(usize, usize, usize)>,
    pending: Vec<usize>,
}

impl<O, P, F> Observer<O, P, F> for Contexts
where
    O: Object,
    P: Process<Op = O::Op, Reply = O::Reply>,
    F: Fn(World<O, P>) -> World<O, P>,
{
    fn step(&mut self, step: Step<'_>, cx: StepCx<'_, '_, O, P, F>) {
        assert!(matches!(step, Step::Visit));
        self.depths.push((cx.depth(), cx.prefix().len(), cx.state().trace().len()));
        self.pending.push(cx.pending(cx.depth() - 1).len());
        assert!((0..cx.depth()).all(|m| cx.sleep(m).is_empty()));
    }
}

#[test]
fn exhaustive_search_shows_the_context() {
    let mut contexts = Contexts::default();
    assert!(explore_exhaustively(&two_writers, &mut contexts).is_ok());
    assert_eq!(contexts.depths, [(1, 0, 0), (1, 0, 1), (2, 1, 2), (1, 0, 1), (2, 1, 2)]);
    assert_eq!(contexts.pending, [2, 2, 1, 2, 1]);
}

#[test]
fn exhaustive_search_returns_the_first_failure() {
    let mut visits = Visits::new();
    let Err(failed) = explore_exhaustively(&racy, &mut visits) else {
        panic!("the race is there");
    };
    let last = visits.get(visits.len() - 1);
    assert_eq!(failed.trace(), last.as_slice());
    assert_eq!(failed.play().trace(), last.as_slice());
    let schedule: Vec<usize> = last.iter().map(|t| t.pid()).collect();
    for v in 0..visits.len() - 1 {
        let earlier: Vec<usize> = visits.get(v).iter().map(|t| t.pid()).collect();
        assert!(earlier < schedule);
    }
}

// Two observers of one program are told the same.
#[test]
fn observers_are_told_the_same() {
    let mut first = Interleavings::new();
    let mut second = Interleavings::new();
    assert!(explore(&one_writer_two_readers, &mut first).is_ok());
    assert!(explore(&one_writer_two_readers, &mut second).is_ok());
    assert_eq!(first.len(), 4);
    assert_eq!(second.len(), 4);
    for i in 0..4 {
        assert_eq!(first.get(i), second.get(i));
    }
    let mut quiet = ();
    assert_eq!(
        explore(&racy, &mut quiet).err().map(|f| f.trace().to_vec()),
        explore(&racy, &mut first).err().map(|f| f.trace().to_vec()),
    );
}

// The process to go on with: the least that is awake, or the least if all are asleep.
#[test]
fn seed_prefers_the_awake() {
    let root = StateView::new(&three_writers).state();
    assert_eq!(seed(&root, &vec![]), Some(0));
    assert_eq!(seed(&root, &vec![0]), Some(1));
    assert_eq!(seed(&root, &vec![2, 0]), Some(1));
    assert_eq!(seed(&root, &vec![0, 1]), Some(2));
    assert_eq!(seed(&root, &vec![2, 1, 0]), Some(0));
    let idle = |world: Cells| world;
    let nothing = StateView::new(&idle).state();
    assert_eq!(seed(&nothing, &vec![0]), None);
}

// At the frontier, the first branch is of the process that steps next.
#[derive(Default)]
struct Frontier {
    head: Option<usize>,
    told: usize,
}

impl<O, P, F> Observer<O, P, F> for Frontier
where
    O: Object,
    P: Process<Op = O::Op, Reply = O::Reply>,
    F: Fn(World<O, P>) -> World<O, P>,
{
    fn step(&mut self, step: Step<'_>, cx: StepCx<'_, '_, O, P, F>) {
        match step {
            Step::RootSeed { .. } | Step::SeedChild { .. } | Step::Replay { .. } => {
                let mut node = cx.wakeup();
                for _ in 0..cx.prefix().len() {
                    node = node.children().swap_remove(0).1;
                }
                let heads = front(node);
                assert!(!heads.is_empty());
                assert_eq!(heads.iter().collect::<BTreeSet<_>>().len(), heads.len());
                assert!(self.head.is_none());
                self.head = Some(heads[0]);
                self.told += 1;
            }
            Step::Descend { committed, .. } => {
                assert_eq!(self.head.take(), Some(committed.pid()));
            }
            Step::Maximal { trace, failure: true } => {
                assert_eq!(self.head.take(), Some(trace[trace.len() - 1].pid()));
            }
            _ => {}
        }
    }
}

#[test]
fn frontier_heads_the_next_step() {
    let mut frontier = Frontier::default();
    assert!(explore(&one_writer_two_readers, &mut frontier).is_ok());
    assert_eq!(frontier.told, 11);
    assert!(explore(&mixed, &mut Frontier::default()).is_ok());
    assert!(explore(&seq_drift, &mut Frontier::default()).is_ok());
    assert!(explore(&rpc_mux, &mut Frontier::default()).is_err());
    assert!(explore(&racy, &mut Frontier::default()).is_err());
}

// What is told of a program with nothing to do.
#[derive(Default)]
struct Kinds(Vec<&'static str>);

impl<O, P, F> Observer<O, P, F> for Kinds
where
    O: Object,
    P: Process<Op = O::Op, Reply = O::Reply>,
    F: Fn(World<O, P>) -> World<O, P>,
{
    fn step(&mut self, step: Step<'_>, _: StepCx<'_, '_, O, P, F>) {
        self.0.push(match step {
            Step::Visit => "visit",
            Step::RootEmpty => "empty",
            Step::Done => "done",
            _ => "other",
        });
    }
}

#[test]
fn idle_program_is_visited() {
    let idle = |world: Cells| world;
    let mut kinds = Kinds::default();
    assert!(explore(&idle, &mut kinds).is_ok());
    assert_eq!(kinds.0, ["visit", "empty", "done", "done"]);
}
