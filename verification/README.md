# interweave

Stateless model checking for small concurrent programs, built around Optimal DPOR and verified with
Verus.

`explore` runs a program under one schedule of every class of schedules that differ in the order of
independent steps alone. It returns the first schedule that fails, which can be replayed, or `Ok(())`
if none does.

## What is proved

- A reported failure is a schedule of the program that ends in that failure.
- `Ok(())` is returned exactly if no schedule of the program fails, and the complete schedules that
  the search runs through are one for every class. This holds of programs whose objects tell the
  truth about which of their operations commute. Programs of atomic cells are such programs, and so
  are programs of atomic cells and channels in which every channel has one consumer.
- The search visits every state at most once, and ends. For the programs just named it is never stuck
  with everything that could go on asleep.
- The steps of the search and its outcome are a function of the program: `saga` says which step comes
  after which, and every observer is told just those. What it is told is accurate.
- The exhaustive search visits every schedule in order, and returns the first that fails.

## What is assumed of a program

- `setup` builds the same program whenever it is called.
- A process is deterministic: what it does next depends on its state and on the replies it got.
- A process ends, whatever the replies: every step that does not complete it spends from its budget.
  A loop that ends in every schedule, but would not for other replies, needs a counter. `Metered`
  gives any step function one: a bound on its steps, past which it fails.

## Layout

- `src/model/`: processes, objects, the executor, the world they form, and its states.
- `src/sync/`: the atomic cell and the channel, and why they can be relied on.
- `src/search/`: vector clocks, races, wakeup trees, the driver, observers, and the exhaustive search
  that needs no reduction.
- `src/theory/`: schedules as words over process ids, the classes they fall into, and why exploring
  the reversals of races reaches every class.
- `app/`: processes written as futures, and failures as error types.
- `tests/`: the library at work.
