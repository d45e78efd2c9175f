use std::cell::{Cell, RefCell};
use std::future::{Future, poll_fn};
use std::pin::Pin;
use std::rc::Rc;
use std::sync::Arc;
use std::sync::atomic::{AtomicBool, Ordering};
use std::task::{Context, Poll, Wake, Waker};

use interweave::model::executor::{Executor, RawProcessError};
use interweave::model::failure::FailureReason;
use interweave::model::object::{Object, Transition};
use interweave::model::machine::Machine;
use interweave::model::metered::Metered;
use interweave::model::process::{Outcome, Process};
use interweave::model::script::Script;
use interweave::model::state::{State, StateView};
use interweave::model::world::World;
use interweave::search::explore::explore;
use interweave::sync::atomic::{self, Atomic};
use interweave::sync::channel::{Channel, Reply};
use interweave::sync::shared::{
    Answer, Handle, Receiver, Sender, Shared, SharedOp, exchanged, split,
};
use interweave::sync::value::{Render, Value};

type W<A, M> = World<Shared<A, M>, Task<A, M>>;
type Outcomes<A, M> = Outcome<SharedOp<A, M>>;

struct Woken(AtomicBool);

impl Wake for Woken {
    fn wake(self: Arc<Self>) {
        self.0.store(true, Ordering::SeqCst);
    }
}

// What a process and the executor hand each other: the operation asked for, and its reply.
struct Slot<A, M> {
    request: Option<Outcomes<A, M>>,
    reply: Option<Answer<A, M>>,
}

struct Me<A, M>(Rc<RefCell<Slot<A, M>>>);

impl<A, M> Clone for Me<A, M> {
    fn clone(&self) -> Self {
        Me(Rc::clone(&self.0))
    }
}

impl<A: Value, M: Render> Me<A, M> {
    fn new() -> Self {
        Me(Rc::new(RefCell::new(Slot { request: None, reply: None })))
    }

    // First poll registers the operation and yields; the commit fills in the reply, and the
    // next poll reads it back.
    async fn call(&self, request: Outcomes<A, M>) -> Answer<A, M> {
        let mut request = Some(request);
        poll_fn(move |_| {
            if let Some(r) = request.take() {
                self.0.borrow_mut().request = Some(r);
                return Poll::Pending;
            }
            match self.0.borrow_mut().reply.take() {
                Some(r) => Poll::Ready(r),
                None => Poll::Pending,
            }
        })
        .await
    }

    async fn atomic(&self, request: Outcomes<A, M>) -> A {
        match self.call(request).await {
            Answer::Observed(v) => v,
            Answer::Channel(_) => unreachable!(),
        }
    }

    async fn store(&self, x: &Handle<A>, v: A) -> A {
        self.atomic(x.store(v)).await
    }

    async fn load(&self, x: &Handle<A>) -> A {
        self.atomic(x.load()).await
    }

    async fn compare_exchange(&self, x: &Handle<A>, current: A, new: A) -> Result<A, A> {
        exchanged(current, self.atomic(x.compare_exchange(current, new)).await)
    }

    async fn send(&self, tx: &Sender<M>, v: M) {
        self.call(tx.send(v)).await;
    }

    async fn recv(&self, rx: &Receiver<M>) -> M {
        match self.call(rx.recv()).await {
            Answer::Channel(Reply::Received(v)) => v,
            _ => unreachable!(),
        }
    }
}

// A process written as a future.
struct Code<A, M> {
    future: Pin<Box<dyn Future<Output = Result<(), String>>>>,
    me: Me<A, M>,
}

type StepFn<A, M> = fn(Code<A, M>, Option<Answer<A, M>>) -> (Code<A, M>, Outcomes<A, M>);
type Task<A, M> = Machine<Code<A, M>, SharedOp<A, M>, Answer<A, M>, StepFn<A, M>>;

fn resume<A: Value, M: Render>(
    mut code: Code<A, M>,
    reply: Option<Answer<A, M>>,
) -> (Code<A, M>, Outcomes<A, M>) {
    code.me.0.borrow_mut().reply = reply;
    let woken = Arc::new(Woken(AtomicBool::new(false)));
    let waker = Waker::from(woken.clone());
    let outcome = match code.future.as_mut().poll(&mut Context::from_waker(&waker)) {
        Poll::Ready(Ok(())) => Outcome::Done,
        Poll::Ready(Err(e)) => Outcome::Failed(e),
        Poll::Pending => match code.me.0.borrow_mut().request.take() {
            Some(r) => r,
            None if woken.0.load(Ordering::SeqCst) => Outcome::Yield,
            None => Outcome::Blocked,
        },
    };
    (code, outcome)
}

fn task<A: Value, M: Render, Fut>(code: impl FnOnce(Me<A, M>) -> Fut) -> Task<A, M>
where
    Fut: Future<Output = Result<(), String>> + 'static,
{
    let me = Me::new();
    let code = Code { future: Box::pin(code(me.clone())), me };
    Machine::new(code, resume::<A, M> as StepFn<A, M>)
}

// --- the executor ---------------------------------------------------------------

#[test]
fn executor_completes_ok() {
    let mut exec = Executor::new();
    let mut none: Vec<Shared<u32, i32>> = Vec::new();
    exec.schedule(task(|_| async { Ok(()) }));
    assert!(exec.execute(&mut none).is_ok());
}

#[test]
fn executor_process_error() {
    let mut exec = Executor::new();
    let mut none: Vec<Shared<u32, i32>> = Vec::new();
    exec.schedule(task(|_| async { Err("boom".to_string()) }));
    let err = exec.execute(&mut none).unwrap_err();
    assert!(matches!(err, RawProcessError { pid: 0, .. }));
    assert_eq!(err.source, "boom");
}

// A process that wakes itself while returning Pending must be re-queued and polled again
// rather than dropped: the run must still terminate cleanly.
#[test]
fn executor_self_yield() {
    let mut exec = Executor::new();
    let mut none: Vec<Shared<u32, i32>> = Vec::new();
    let mut yielded = false;
    exec.schedule(task(move |_| {
        poll_fn(move |cx| {
            if yielded {
                Poll::Ready(Ok(()))
            } else {
                yielded = true;
                cx.waker().wake_by_ref();
                Poll::Pending
            }
        })
    }));
    assert!(exec.execute(&mut none).is_ok());
    assert_eq!(exec.pending(), 0);
}

// A process that waits for something nobody delivers stays live and is not polled again.
#[test]
fn executor_blocked_process_stays_pending() {
    let mut exec = Executor::new();
    let mut none: Vec<Shared<u32, i32>> = Vec::new();
    exec.schedule(task(|_| async {
        std::future::pending::<()>().await;
        Ok(())
    }));
    exec.schedule(task(|_| async { Ok(()) }));
    assert!(exec.execute(&mut none).is_ok());
    assert_eq!(exec.scheduled(), 2);
    assert_eq!(exec.pending(), 1);
}

// The same on a world of its own: the starting state has run every process as far as it goes.

#[test]
fn completes_ok() {
    let setup = |mut world: W<u32, i32>| {
        world.spawn("p", task(|_| async { Ok(()) }));
        world
    };
    let state = StateView::new(&setup).state();
    assert!(state.failure_reason().is_none());
    assert!(state.is_terminal());
    assert_eq!(state.pending(), 0);
}

#[test]
fn process_error() {
    let setup = |mut world: W<u32, i32>| {
        world.spawn("p", task(|_| async { Err("boom".to_string()) }));
        world
    };
    let state = StateView::new(&setup).state();
    match state.failure_reason() {
        Some(FailureReason::Process(e)) => {
            assert_eq!(e.process(), "p");
            assert_eq!(e.source(), "boom");
            assert_eq!(e.to_string(), "process p failed: boom");
        }
        _ => panic!("the process erred"),
    }
}

#[test]
fn self_yield() {
    let setup = |mut world: W<u32, i32>| {
        let mut yielded = false;
        world.spawn(
            "p",
            task(move |_| {
                poll_fn(move |cx| {
                    if yielded {
                        Poll::Ready(Ok(()))
                    } else {
                        yielded = true;
                        cx.waker().wake_by_ref();
                        Poll::Pending
                    }
                })
            }),
        );
        world
    };
    let state = StateView::new(&setup).state();
    assert!(state.failure_reason().is_none());
    assert_eq!(state.pending(), 0);
}

// --- the atomic cell -------------------------------------------------------------

type Exec = Executor<Task<u32, i32>>;
type Objects = Vec<Shared<u32, i32>>;

fn commit(exec: &mut Exec, objects: &mut Objects, t: Transition) {
    let reply = objects[0].apply(t);
    exec.wake(t.pid(), reply);
    assert!(exec.execute(objects).is_ok());
}

// Drives the strategy by hand: keep committing the first enabled transition and resuming the
// executor until every process finishes.
fn drive(exec: &mut Exec, objects: &mut Objects) {
    assert!(exec.execute(objects).is_ok());
    while let Some(&t) = objects[0].enabled().first() {
        commit(exec, objects, t);
    }
}

fn enabled_of(objects: &Objects, pid: usize) -> Transition {
    *objects[0].enabled().iter().find(|t| t.pid() == pid).unwrap()
}

fn cell(value: u32) -> (Objects, Handle<u32>) {
    (vec![Shared::Atomic(Atomic::new(0, value))], Handle::new(0))
}

fn slot<T: Copy>(init: T) -> Rc<Cell<T>> {
    Rc::new(Cell::new(init))
}

#[test]
fn atomic_load_observes_initial_value() {
    let (mut objects, a) = cell(42);
    let seen = slot(0);
    let dst = seen.clone();
    let mut exec = Executor::new();
    exec.schedule(task(|me| async move {
        dst.set(me.load(&a).await);
        Ok(())
    }));
    drive(&mut exec, &mut objects);
    assert_eq!(seen.get(), 42);
}

#[test]
fn atomic_store_writes_and_returns_previous() {
    let (mut objects, a) = cell(1);
    let (prev, after) = (slot(0), slot(0));
    let (p, af) = (prev.clone(), after.clone());
    let mut exec = Executor::new();
    exec.schedule(task(|me| async move {
        p.set(me.store(&a, 9).await);
        af.set(me.load(&a).await);
        Ok(())
    }));
    drive(&mut exec, &mut objects);
    assert_eq!(prev.get(), 1);
    assert_eq!(after.get(), 9);
}

#[test]
fn atomic_compare_exchange_swaps_on_match() {
    let (mut objects, a) = cell(1);
    let (res, after) = (slot(Err(0)), slot(0));
    let (r, af) = (res.clone(), after.clone());
    let mut exec = Executor::new();
    exec.schedule(task(|me| async move {
        r.set(me.compare_exchange(&a, 1, 9).await);
        af.set(me.load(&a).await);
        Ok(())
    }));
    drive(&mut exec, &mut objects);
    assert_eq!(res.get(), Ok(1));
    assert_eq!(after.get(), 9);
}

// The compare happens at commit, not at registration. Both operations are registered first;
// committing the store *before* the CAS makes the CAS see the fresh value and report the
// mismatch.
#[test]
fn atomic_compare_exchange_observes_commit_time_value() {
    let (mut objects, a) = cell(1);
    let res = slot(Ok(0));
    let r = res.clone();
    let mut exec = Executor::new();
    exec.schedule(task(|me| async move {
        r.set(me.compare_exchange(&a, 1, 9).await);
        Ok(())
    }));
    exec.schedule(task(|me| async move {
        me.store(&a, 5).await;
        Ok(())
    }));
    assert!(exec.execute(&mut objects).is_ok());
    let store = enabled_of(&objects, 1);
    commit(&mut exec, &mut objects, store);
    let cas = enabled_of(&objects, 0);
    commit(&mut exec, &mut objects, cas);
    assert_eq!(res.get(), Err(5));
    assert_eq!(objects[0].label(store), "store 5 (was 1)");
    assert_eq!(objects[0].label(cas), "cas(1->9) fail: 5");
}

// The same operations on the bare cell, committed by hand.

#[test]
fn load_observes_initial_value() {
    let mut a: Atomic<u32> = Atomic::new(0, 42);
    a.register(0, atomic::Op::Load);
    let t = a.enabled()[0];
    assert_eq!(a.apply(t), 42);
}

#[test]
fn store_writes_and_returns_previous() {
    let mut a: Atomic<u32> = Atomic::new(0, 1);
    a.register(0, atomic::Op::Store(9));
    let store = a.enabled()[0];
    assert_eq!(a.apply(store), 1);
    a.register(0, atomic::Op::Load);
    let load = a.enabled()[0];
    assert_eq!(a.apply(load), 9);
}

#[test]
fn compare_exchange_swaps_on_match() {
    let mut a: Atomic<u32> = Atomic::new(0, 1);
    a.register(0, atomic::Op::CompareExchange { current: 1, new: 9 });
    let cas = a.enabled()[0];
    assert_eq!(exchanged(1, a.apply(cas)), Ok(1));
    a.register(0, atomic::Op::Load);
    let load = a.enabled()[0];
    assert_eq!(a.apply(load), 9);
}

#[test]
fn compare_exchange_observes_commit_time_value() {
    let mut a: Atomic<u32> = Atomic::new(0, 1);
    a.register(0, atomic::Op::CompareExchange { current: 1, new: 9 });
    a.register(1, atomic::Op::Store(5));
    let ts = a.enabled();
    let cas = *ts.iter().find(|t| t.pid() == 0).unwrap();
    let store = *ts.iter().find(|t| t.pid() == 1).unwrap();
    a.apply(store);
    assert_eq!(exchanged(1, a.apply(cas)), Err(5));
}

#[test]
fn atomic_labels_show_what_was_observed() {
    let mut a: Atomic<i32> = Atomic::new(3, -7);
    a.register(0, atomic::Op::Load);
    a.register(1, atomic::Op::Store(i32::MIN));
    a.register(2, atomic::Op::CompareExchange { current: i32::MIN, new: 120 });
    let ts = a.enabled();
    assert_eq!(ts, vec![Transition::new(0, 3, 0), Transition::new(1, 3, 1), Transition::new(2, 3, 2)]);
    assert_eq!(a.apply(ts[0]), -7);
    assert_eq!(a.apply(ts[1]), -7);
    assert_eq!(a.apply(ts[2]), i32::MIN);
    assert_eq!(a.label(ts[0]), "load -> -7");
    assert_eq!(a.label(ts[1]), "store -2147483648 (was -7)");
    assert_eq!(a.label(ts[2]), "cas(-2147483648->120) ok");
    assert!(a.enabled().is_empty());
    assert!(!a.may_block());
}

// Two operations on one cell conflict unless both are loads; a compare-exchange counts as a
// write even when it fails.
#[test]
fn atomic_dependency_truth_table() {
    let mut a: Atomic<u8> = Atomic::new(0, 0);
    a.register(0, atomic::Op::Load);
    a.register(1, atomic::Op::Load);
    a.register(2, atomic::Op::Store(1));
    a.register(3, atomic::Op::CompareExchange { current: 9, new: 9 });
    let ts = a.enabled();
    assert!(!a.depends(ts[0], ts[1]));
    assert!(a.depends(ts[0], ts[2]));
    assert!(a.depends(ts[3], ts[0]));
    assert!(a.depends(ts[2], ts[3]));
    a.apply(ts[0]);
    a.apply(ts[3]);
    assert!(!a.depends(ts[0], ts[1]));
    assert!(a.depends(ts[0], ts[3]));
    assert_eq!(a.label(ts[3]), "cas(9->9) fail: 0");
}

// --- the channel -----------------------------------------------------------------

fn make() -> (Objects, Sender<i32>, Receiver<i32>) {
    let (tx, rx) = split(0);
    (vec![Shared::Channel(Channel::new(0))], tx, rx)
}

#[test]
fn send_then_recv_returns_value() {
    let (mut objects, tx, rx) = make();
    let seen = slot(0);
    let dst = seen.clone();
    let mut exec = Executor::new();
    exec.schedule(task(|me| async move {
        me.send(&tx, 7).await;
        dst.set(me.recv(&rx).await);
        Ok(())
    }));
    drive(&mut exec, &mut objects);
    assert_eq!(seen.get(), 7);
}

#[test]
fn fifo_order_for_one_producer() {
    let (mut objects, tx, rx) = make();
    let (first, second) = (slot(0), slot(0));
    let (a, b) = (first.clone(), second.clone());
    let mut exec = Executor::new();
    exec.schedule(task(|me| async move {
        me.send(&tx, 1).await;
        me.send(&tx, 2).await;
        a.set(me.recv(&rx).await);
        b.set(me.recv(&rx).await);
        Ok(())
    }));
    drive(&mut exec, &mut objects);
    assert_eq!(first.get(), 1);
    assert_eq!(second.get(), 2);
}

// A recv against an empty channel is withheld from the enabled set.
#[test]
fn recv_on_empty_blocks() {
    let (mut objects, _tx, rx) = make();
    let mut exec = Executor::new();
    exec.schedule(task(|me| async move {
        me.recv(&rx).await;
        Ok(())
    }));
    assert!(exec.execute(&mut objects).is_ok());
    assert!(objects[0].enabled().is_empty(), "recv must block on an empty queue");
    assert!(objects[0].may_block());
}

// Two sends from distinct producers and one consumer. send/send is dependent; the recv depends
// only on the send it actually consumes.
#[test]
fn dependency_truth_table() {
    let (mut objects, tx, rx) = make();
    let tx2 = tx.clone();
    let mut exec = Executor::new();
    exec.schedule(task(|me| async move {
        me.send(&tx, 10).await;
        Ok(())
    }));
    exec.schedule(task(|me| async move {
        me.send(&tx2, 20).await;
        Ok(())
    }));
    exec.schedule(task(|me| async move {
        me.recv(&rx).await;
        Ok(())
    }));
    assert!(exec.execute(&mut objects).is_ok());
    let send0 = enabled_of(&objects, 0);
    let send1 = enabled_of(&objects, 1);
    assert_eq!(objects[0].enabled().len(), 2);
    assert!(objects[0].depends(send0, send1), "send/send is dependent");
    commit(&mut exec, &mut objects, send0);
    let recv = enabled_of(&objects, 2);
    commit(&mut exec, &mut objects, recv);
    assert!(objects[0].depends(send0, recv), "recv depends on the send it consumed");
    assert!(!objects[0].depends(send1, recv), "recv is independent of the unconsumed send");
    assert!(!objects[0].depends(recv, send1), "symmetric: unconsumed send is independent");
    assert_eq!(objects[0].label(send0), "send 10");
    assert_eq!(objects[0].label(recv), "recv -> 10 (#0)");
}

// --- states ----------------------------------------------------------------------

const WRITER: usize = 0;
const READER: usize = 1;

// A writer storing 222 and a reader that only succeeds if it observes that store, so the two
// scheduling orders give a clean run vs. a process failure.
fn program(mut world: W<i32, i32>) -> W<i32, i32> {
    let x = world.atomic("x", 123);
    world.spawn("writer", task(|me| async move {
        me.store(&x, 222).await;
        Ok(())
    }));
    world.spawn("reader", task(|me| async move {
        if me.load(&x).await == 222 {
            Ok(())
        } else {
            Err("unexpected value".to_string())
        }
    }));
    world
}

fn enabled_op<F>(state: &State<Shared<i32, i32>, Task<i32, i32>, F>, pid: usize) -> Transition
where
    F: Fn(W<i32, i32>) -> W<i32, i32>,
{
    *state.enabled().iter().find(|t| t.pid() == pid).unwrap()
}

#[test]
fn mod_store_then_load() {
    let mut state = State::new(&program);
    state.apply(enabled_op(&state, WRITER));
    state.apply(enabled_op(&state, READER));
    assert!(state.enabled().is_empty());
    assert!(state.failure_reason().is_none());
}

#[test]
fn state_store_then_load() {
    let mut state = State::new(&program);
    let p1 = *state.enabled().iter().find(|t| t.pid == 0).unwrap();
    let p2 = *state.enabled().iter().find(|t| t.pid == 1).unwrap();
    state.apply(p1);
    assert!(!state.is_failed());
    state.apply(p2);
    assert!(!state.is_failed());
    assert!(state.enabled().is_empty());
}

#[test]
fn load_then_store_fails() {
    let mut state = State::new(&program);
    let p2 = *state.enabled().iter().find(|t| t.pid == 1).unwrap();
    state.apply(p2);
    assert!(state.is_failed());
    assert!(state.is_terminal());
}

// Loading before the store leaves the reader observing the initial value and erroring; the
// failing operation's label is still resolvable.
#[test]
fn load_then_store_records_failure() {
    let mut state = State::new(&program);
    let load = enabled_op(&state, READER);
    state.apply(load);
    assert!(matches!(state.failure_reason(), Some(FailureReason::Process(_))));
    assert_eq!(state.world().label(load), "load -> 123");
}

#[test]
fn failure_messages_name_the_process() {
    let mut state = State::new(&program);
    state.apply(enabled_op(&state, READER));
    let reason = state.failure_reason().unwrap();
    assert_eq!(reason.to_string(), "process reader failed: unexpected value");
    if let FailureReason::Process(e) = reason {
        assert_eq!(e.process(), "reader");
        assert_eq!(e.source(), "unexpected value");
    }
    assert_eq!(FailureReason::Deadlock.to_string(), "deadlock");
}

#[test]
fn names_and_tables_follow_registration_order() {
    let state = State::new(&program);
    let world = state.world();
    assert_eq!(world.processes(), &vec!["writer".to_string(), "reader".to_string()]);
    assert_eq!(world.objects(), &vec!["x".to_string()]);
    let t = enabled_op(&state, READER);
    assert_eq!(world.process(t), "reader");
    assert_eq!(world.object(t), "x");
    assert_eq!(t.oid(), 0);
    assert_eq!(state.pending(), 2);
    assert!(state.non_blocking());
    assert!(state.trace().is_empty());
}

// A copy is rebuilt by replay: it stands where the original stands, and moves on its own.
#[test]
fn fork_replays_to_the_same_state() {
    let mut state = State::new(&program);
    state.apply(enabled_op(&state, WRITER));
    let mut copy = state.fork();
    assert_eq!(copy.trace(), state.trace());
    assert_eq!(copy.enabled(), state.enabled());
    copy.apply(enabled_op(&copy, READER));
    assert!(copy.is_terminal());
    assert!(!state.is_terminal());
    assert_eq!(state.to_view().state().trace(), state.trace());
}

#[test]
fn depends_asks_the_object() {
    let state = State::new(&program);
    let (store, load) = (enabled_op(&state, WRITER), enabled_op(&state, READER));
    assert!(state.depends(store, load));
    let elsewhere = Transition::new(0, 7, 0);
    assert!(!state.depends(store, elsewhere));
}

// An operation on an object that the world does not have never commits.
#[test]
fn foreign_request_blocks() {
    let setup = |mut world: W<i32, i32>| {
        world.spawn("lost", task(|me| async move {
            me.load(&Handle::new(5)).await;
            Ok(())
        }));
        world
    };
    let state = State::new(&setup);
    assert!(matches!(state.failure_reason(), Some(FailureReason::Deadlock)));
}

#[test]
fn scripts_run_their_list() {
    let mut script: Script<SharedOp<u32, i32>, Answer<u32, i32>> = Script::new();
    script.push(0, SharedOp::Atomic(atomic::Op::Store(4)));
    script.push(0, SharedOp::Atomic(atomic::Op::Load));
    let mut exec = Executor::new();
    let (mut objects, _) = cell(1);
    exec.schedule(script);
    assert!(exec.execute(&mut objects).is_ok());
    for label in ["store 4 (was 1)", "load -> 4"] {
        let t = objects[0].enabled()[0];
        let reply = objects[0].apply(t);
        exec.wake(t.pid(), reply);
        assert!(exec.execute(&mut objects).is_ok());
        assert_eq!(objects[0].label(t), label);
    }
    assert_eq!(exec.pending(), 0);
}

#[test]
fn values_render_in_decimal() {
    assert_eq!(0u8.render(), "0");
    assert_eq!(4294967295u32.render(), "4294967295");
    assert_eq!(18446744073709551615u64.render(), "18446744073709551615");
    assert_eq!(1090usize.render(), "1090");
    assert_eq!((-1i32).render(), "-1");
    assert_eq!(i64::MIN.render(), "-9223372036854775808");
    assert_eq!(i64::MAX.render(), "9223372036854775807");
    assert_eq!(true.render(), "true");
    assert_eq!(false.render(), "false");
}

#[test]
fn more_values_render_as_debug_does() {
    assert_eq!(65535u16.render(), "65535");
    assert_eq!(i8::MIN.render(), "-128");
    assert_eq!((-32768i16).render(), "-32768");
    assert_eq!((-7isize).render(), "-7");
    assert_eq!(().render(), "()");
    assert_eq!((String::from("x"), 1i8).render(), "(\"x\", 1)");
    for text in ["", "plain", "a \"quoted\" word", "tab\tand\nline", "back\\slash", "'single'", "\u{e9}"] {
        assert_eq!(String::from(text).render(), format!("{text:?}"));
    }
}

#[test]
fn small_values_are_compared() {
    assert!(7u16.same(&7) && !7u16.same(&8));
    assert!((-7i8).same(&-7) && !(-7i8).same(&7));
    assert!((-7i16).same(&-7) && !(-7i16).same(&7));
    assert!((-7isize).same(&-7) && !(-7isize).same(&7));
}

type Beat = Metered<u64, SharedOp<i32, i32>, Answer<i32, i32>, Tick>;
type Tick = fn(u64, Option<Answer<i32, i32>>) -> (u64, Outcome<SharedOp<i32, i32>>);

// Wakes itself until it has counted down, if it ever does.
fn count_down(n: u64, _: Option<Answer<i32, i32>>) -> (u64, Outcome<SharedOp<i32, i32>>) {
    if n == 0 {
        (0, Outcome::Done)
    } else {
        (n - 1, Outcome::Yield)
    }
}

fn for_ever(n: u64, _: Option<Answer<i32, i32>>) -> (u64, Outcome<SharedOp<i32, i32>>) {
    (n, Outcome::Yield)
}

// A metered process steps as long as it has fuel, and fails when it needs a step more.
#[test]
fn fuel_bounds_the_steps() {
    let mut p: Beat = Metered::new(2, count_down as Tick, 3);
    assert!(matches!(p.resume(None), Outcome::Yield));
    assert!(matches!(p.resume(None), Outcome::Yield));
    assert!(matches!(p.resume(None), Outcome::Done));
    let mut q: Beat = Metered::new(2, count_down as Tick, 1);
    assert!(matches!(q.resume(None), Outcome::Yield));
    assert!(matches!(q.resume(None), Outcome::Failed(e) if e == "out of fuel"));
    assert!(matches!(q.resume(None), Outcome::Done));
}

// A process that never ends is a failure of the program, and not of the search.
#[test]
fn endless_process_is_reported() {
    let setup = |mut world: World<Shared<i32, i32>, Beat>| {
        world.spawn("clock", Metered::new(0, for_ever as Tick, 100));
        world
    };
    let Err(failed) = explore(&setup, &mut ()) else {
        panic!("the clock never stops");
    };
    assert_eq!(failed.to_string(), "process clock failed: out of fuel");
}
