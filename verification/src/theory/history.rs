//! Conflicts between the events of a schedule, and how they tell what follows from an event.

use vstd::prelude::*;

use crate::model::process::ProcessID;
use crate::theory::behaviour::{
    after, commutes, dep, en, lawful, lemma_after_concat, lemma_after_push, lemma_lawful,
    lemma_lawful_after, ok, step, Beh, Word,
};
use crate::theory::initials::{lemma_ok_rem, lemma_rem, lemma_uncons, wi};
use crate::theory::taint::{kept, lemma_wi_push, passes, racy};

verus! {

/// Whether two events of a schedule, given by their positions, conflict.
pub type Hist = spec_fn(Word, int, int) -> bool;

/// The position of an event after the events at `n` and `n + 1` have changed places.
pub open spec fn swapped(n: int, i: int) -> int {
    if i == n {
        n + 1
    } else if i == n + 1 {
        n
    } else {
        i
    }
}

/// Two events keep their conflict when the schedule goes on.
pub open spec fn settled_by(b: Beh, h: Hist, x: Word, c: ProcessID, i: int, j: int) -> bool {
    ok(b, x.push(c)) && 0 <= i < j < x.len() ==> h(x.push(c), i, j) == h(x, i, j)
}

/// Two events keep their conflict when two independent neighbours change places.
pub open spec fn kept_by_swap(
    b: Beh,
    h: Hist,
    x: Word,
    a: ProcessID,
    c: ProcessID,
    z: Word,
    i: int,
    j: int,
) -> bool {
    ok(b, x + seq![a, c] + z) && a != c && en(after(b, x), c) && !dep(after(b, x), a, c) && 0 <= i
        < j < x.len() + 2 + z.len() && !(i == x.len() && j == x.len() + 1) ==> h(x + seq![c, a] + z, i, j) == h(
        x + seq![a, c] + z,
        swapped(x.len() as int, i),
        swapped(x.len() as int, j),
    )
}

/// Neighbours are independent exactly when the later one was enabled and did not conflict.
pub open spec fn neighbours(b: Beh, h: Hist, x: Word, a: ProcessID, c: ProcessID) -> bool {
    ok(b, x.push(a).push(c)) && a != c ==> (h(
        x.push(a).push(c),
        x.len() as int,
        x.len() as int + 1,
    ) <==> !(en(after(b, x), c) && !dep(after(b, x), a, c)))
}

/// The conflicts between the events of a schedule are those of the behaviour.
pub open spec fn faithful(b: Beh, h: Hist) -> bool {
    &&& forall|x: Word, c: ProcessID, i: int, j: int| #[trigger] settled_by(b, h, x, c, i, j)
    &&& forall|x: Word, a: ProcessID, c: ProcessID, z: Word, i: int, j: int| #[trigger]
        kept_by_swap(b, h, x, a, c, z, i, j)
    &&& forall|x: Word, a: ProcessID, c: ProcessID| #[trigger] neighbours(b, h, x, a, c)
}

/// As [`settled_by`], for a whole continuation.
pub proof fn lemma_settled(b: Beh, h: Hist, x: Word, z: Word, i: int, j: int)
    requires
        faithful(b, h),
        ok(b, x + z),
        0 <= i < j < x.len(),
    ensures
        h(x + z, i, j) == h(x, i, j),
    decreases z.len(),
{
    if z.len() == 0 {
        assert(x + z =~= x);
    } else {
        let y = z.drop_last();
        assert(x + z =~= (x + y).push(z.last()));
        lemma_after_push(b, x + y, z.last());
        lemma_settled(b, h, x, y, i, j);
        assert(settled_by(b, h, x + y, z.last(), i, j));
    }
}

/// The position that event `i` had before a step passed the delayed steps `t` that begin at `n`.
pub open spec fn moved(n: int, l: int, i: int) -> int {
    if i == n {
        n + l
    } else if n < i <= n + l {
        i - 1
    } else {
        i
    }
}

/// Conflicts are kept when a step moves before the delayed steps that it passes.
proof fn lemma_move(b: Beh, h: Hist, x: Word, t: Word, e: ProcessID, z: Word, i: int, j: int)
    requires
        lawful(b),
        faithful(b, h),
        ok(b, x + t + seq![e] + z),
        passes(after(b, x), t, e),
        0 <= i < j,
        x.len() + t.len() + 1 <= j < x.len() + t.len() + 1 + z.len(),
    ensures
        h(x + seq![e] + t + z, i, j) == h(
            x + t + seq![e] + z,
            moved(x.len() as int, t.len() as int, i),
            j,
        ),
        ok(b, x + seq![e] + t + z),
    decreases t.len(),
{
    let n = x.len() as int;
    if t.len() == 0 {
        assert(x + t + seq![e] + z =~= x + seq![e] + t + z);
    } else {
        let s = t.drop_last();
        let c = t.last();
        assert(t =~= s.push(c));
        lemma_push_apart(s, c, e);
        lemma_wi_push(after(b, x), s, c, e);
        lemma_after_concat(b, x, s);
        let y = x + s;
        let bs = after(b, y);
        assert(x + t + seq![e] + z =~= y + seq![c, e] + z);
        lemma_after_concat(b, y, seq![c, e] + z);
        assert(y + (seq![c, e] + z) =~= y + seq![c, e] + z);
        lemma_lawful_after(b, y);
        lemma_lawful(bs);
        assert((seq![c, e] + z)[0] == c);
        lemma_after_concat(b, x, s + (seq![c, e] + z));
        assert(x + (s + (seq![c, e] + z)) =~= y + seq![c, e] + z);
        lemma_after_concat(after(b, x), s, seq![c, e] + z);
        assert(en(bs, c));
        lemma_lawful_after(b, x);
        lemma_ok_rem(after(b, x), s, e);
        assert(en(bs, e));
        assert(commutes(bs, e, c) && commutes(bs, c, e));
        assert(!dep(bs, c, e));
        let cz = seq![c] + z;
        let ecz = seq![e, c] + z;
        assert(ecz.drop_first() =~= cz);
        assert(cz.drop_first() =~= z);
        assert((seq![c, e] + z).drop_first() =~= seq![e] + z);
        assert((seq![e] + z).drop_first() =~= z);
        assert(ok(step(bs, c), seq![e] + z));
        assert(ok(step(step(bs, c), e), z));
        assert(step(step(bs, c), e) == step(step(bs, e), c));
        assert(cz[0] == c && ecz[0] == e);
        assert(ok(step(bs, e), cz));
        assert(ok(bs, ecz));
        lemma_after_concat(b, y, ecz);
        assert(y + ecz =~= x + s + seq![e] + cz);
        let k = moved(n, s.len() as int, i);
        assert(kept_by_swap(b, h, y, c, e, z, k, j));
        assert(y + seq![e, c] + z =~= x + s + seq![e] + cz);
        lemma_move(b, h, x, s, e, cz, i, j);
        assert(x + seq![e] + s + cz =~= x + seq![e] + t + z);
        assert(swapped(n + s.len(), k) == moved(n, t.len() as int, i));
    }
}

/// A word with one more step at the end does not hold `e`.
proof fn lemma_push_apart(s: Word, c: ProcessID, e: ProcessID)
    requires
        !s.push(c).contains(e),
    ensures
        !s.contains(e),
        c != e,
{
    assert(s.push(c)[s.len() as int] == c);
    if s.contains(e) {
        let i = choose|i: int| 0 <= i < s.len() && s[i] == e;
        assert(s.push(c)[i] == e);
    }
}

/// The step of `e` after the delayed steps is of another process than delayed step `l`, and does
/// not conflict with it.
spec fn clear(h: Hist, x: Word, t: Word, e: ProcessID, l: int) -> bool {
    t[l] != e && !h(x + t + seq![e], x.len() as int + l, x.len() as int + t.len() as int)
}

/// A step passes the delayed steps exactly when it is of another process than all of them and
/// conflicts with none.
proof fn lemma_pass_history(b: Beh, h: Hist, x: Word, t: Word, e: ProcessID)
    requires
        lawful(b),
        faithful(b, h),
        ok(b, x + t + seq![e]),
    ensures
        passes(after(b, x), t, e) <==> forall|l: int|
            0 <= l < t.len() ==> #[trigger] clear(h, x, t, e, l),
    decreases t.len(),
{
    let n = x.len() as int;
    let full = x + t + seq![e];
    let m = (x.len() + t.len()) as int;
    lemma_after_concat(b, x + t, seq![e]);
    lemma_after_concat(b, x, t);
    lemma_lawful_after(b, x);
    let bx = after(b, x);
    lemma_lawful_after(b, x + t);
    assert(seq![e].len() == 1 && seq![e][0] == e);
    if t.len() == 0 {
        assert(x + t =~= x);
    } else {
        let s = t.drop_last();
        let c = t.last();
        assert(t =~= s.push(c));
        let y = x + s;
        let bs = after(b, y);
        lemma_after_concat(b, x, s);
        lemma_after_concat(bx, s, seq![c]);
        assert(s + seq![c] =~= t);
        assert(seq![c].len() == 1 && seq![c][0] == c);
        lemma_lawful_after(b, y);
        lemma_lawful(bs);
        assert(full =~= y.push(c).push(e));
        assert(neighbours(b, h, y, c, e));
        assert(t[t.len() - 1] == c);
        if c != e && en(bs, e) && !dep(bs, c, e) {
            assert(commutes(bs, c, e) && commutes(bs, e, c));
            let z = Seq::<ProcessID>::empty();
            assert(y + seq![c, e] + z =~= full);
            let alt = y + seq![e, c] + z;
            lemma_after_push(b, y, e);
            lemma_after_push(b, y.push(e), c);
            assert(alt =~= y.push(e).push(c));
            assert(x + s + seq![e] =~= y.push(e));
            lemma_pass_history(b, h, x, s, e);
            assert forall|l: int| 0 <= l < s.len() implies #[trigger] s[l] == t[l] && h(
                full,
                n + l,
                m,
            ) == h(
                x + s + seq![e],
                n + l,
                m - 1,
            ) by {
                assert(kept_by_swap(b, h, y, c, e, z, n + l, m - 1));
                assert(settled_by(b, h, y.push(e), c, n + l, m - 1));
            }
            assert(passes(bx, t, e) <==> passes(bx, s, e)) by {
                if !s.contains(e) {
                    lemma_wi_push(bx, s, c, e);
                    lemma_push_holds(s, c, e);
                } else {
                    lemma_push_holds(s, c, e);
                }
            }
            if passes(bx, s, e) {
                assert forall|l: int| 0 <= l < t.len() implies #[trigger] clear(h, x, t, e, l) by {
                    if l < s.len() {
                        assert(clear(h, x, s, e, l));
                        assert(s[l] == t[l]);
                    }
                }
            } else {
                let l = choose|l: int| 0 <= l < s.len() && !#[trigger] clear(h, x, s, e, l);
                assert(t[l] == s[l]);
                assert(!clear(h, x, t, e, l));
            }
        } else {
            lemma_push_holds(s, c, e);
            if !s.contains(e) {
                lemma_wi_push(bx, s, c, e);
                if wi(bx, s, e) {
                    lemma_ok_rem(bx, s, e);
                    assert(en(bs, e));
                    assert(commutes(bs, c, e) && commutes(bs, e, c));
                }
            }
            assert(!passes(bx, t, e));
            assert(!clear(h, x, t, e, t.len() - 1));
        }
    }
}

proof fn lemma_push_holds(t: Word, d: ProcessID, e: ProcessID)
    ensures
        t.push(d).contains(e) <==> t.contains(e) || d == e,
{
    assert(t.push(d)[t.len() as int] == d);
    if t.contains(e) {
        let i = choose|i: int| 0 <= i < t.len() && t[i] == e;
        assert(t.push(d)[i] == e);
    }
    if t.push(d).contains(e) {
        let i = choose|i: int| 0 <= i < t.push(d).len() && t.push(d)[i] == e;
        if i < t.len() {
            assert(t[i] == e);
        }
    }
}

/// Event `i` follows from event `m`: a path of conflicts and program order leads there.
pub open spec fn follows(h: Hist, x: Word, m: int, i: int) -> bool
    decreases i - m,
{
    i == m || exists|l: int| m <= l < i && follows(h, x, m, l) && #[trigger] linked(h, x, l, i)
}

/// Events `l` and `i` are of one process, or conflict.
pub open spec fn linked(h: Hist, x: Word, l: int, i: int) -> bool {
    x[l] == x[i] || h(x, l, i)
}

/// The steps from `k` on that do not follow from event `m`.
pub open spec fn unrelated(h: Hist, x: Word, m: int, k: int) -> Word
    decreases x.len() - k,
{
    if k >= x.len() {
        Seq::empty()
    } else if follows(h, x, m, k) {
        unrelated(h, x, m, k + 1)
    } else {
        seq![x[k]] + unrelated(h, x, m, k + 1)
    }
}

/// Events `m` and `j` are a race: `j` follows from `m`, and from nothing else that does.
pub open spec fn races(h: Hist, x: Word, m: int, j: int) -> bool {
    &&& m < j < x.len()
    &&& follows(h, x, m, j)
    &&& forall|i: int| m < i < j && #[trigger] follows(h, x, m, i) ==> !linked(h, x, i, j)
}

/// Where event `i` of a rearranged schedule stands in the one it came from.
spec fn origin(places: Seq<int>, i: int) -> int {
    if i < places.len() {
        places[i]
    } else {
        i
    }
}

/// The rearrangement keeps the conflicts with all that comes later.
spec fn carried(
    b: Beh,
    h: Hist,
    x: Word,
    y: Word,
    places: Seq<int>,
    z: Word,
    i: int,
    j: int,
) -> bool {
    ok(b, x + z) && 0 <= i < j && x.len() <= j < x.len() + z.len() ==> h(y + z, i, j) == h(
        x + z,
        origin(places, i),
        j,
    )
}

/// `y` is `x` with its events rearranged: event `i` of `y` is event `places[i]` of `x`.
spec fn arranged(b: Beh, h: Hist, x: Word, y: Word, places: Seq<int>) -> bool {
    &&& y.len() == x.len()
    &&& places.len() == x.len()
    &&& ok(b, y)
    &&& after(b, y) == after(b, x)
    &&& forall|i: int|
        0 <= i < x.len() ==> 0 <= #[trigger] places[i] < x.len() && y[i] == x[places[i]]
    &&& forall|z: Word, i: int, j: int| #[trigger] carried(b, h, x, y, places, z, i, j)
}

/// A rearranged schedule goes on with one more event.
proof fn lemma_arranged_push(
    b: Beh,
    h: Hist,
    x: Word,
    y: Word,
    places: Seq<int>,
    e: ProcessID,
)
    requires
        ok(b, x.push(e)),
        arranged(b, h, x, y, places),
    ensures
        arranged(b, h, x.push(e), y.push(e), places.push(x.len() as int)),
{
    lemma_after_push(b, x, e);
    lemma_after_push(b, y, e);
    let more = places.push(x.len() as int);
    assert forall|i: int| 0 <= i < x.push(e).len() implies 0 <= #[trigger] more[i] < x.push(
        e,
    ).len() && y.push(e)[i] == x.push(e)[more[i]] by {
        if i < x.len() {
            assert(0 <= places[i] < x.len());
        }
    }
    assert forall|z: Word, i: int, j: int| #[trigger]
        carried(b, h, x.push(e), y.push(e), more, z, i, j) by {
        let ez = seq![e] + z;
        assert(x.push(e) + z =~= x + ez);
        assert(y.push(e) + z =~= y + ez);
        assert(carried(b, h, x, y, places, ez, i, j));
    }
}

/// A rearranged schedule whose last event moves before those that it passes.
proof fn lemma_arranged_pass(
    b: Beh,
    h: Hist,
    x: Word,
    y: Word,
    t: Word,
    py: Seq<int>,
    pt: Seq<int>,
    e: ProcessID,
)
    requires
        lawful(b),
        faithful(b, h),
        ok(b, x.push(e)),
        y.len() == py.len(),
        t.len() == pt.len(),
        arranged(b, h, x, y + t, py + pt),
        passes(after(b, y), t, e),
    ensures
        arranged(b, h, x.push(e), y.push(e) + t, py.push(x.len() as int) + pt),
{
    let n = y.len() as int;
    let l = t.len() as int;
    let more = py.push(x.len() as int) + pt;
    let old = py + pt;
    lemma_after_push(b, x, e);
    lemma_after_concat(b, y, t);
    lemma_lawful_after(b, y);
    lemma_ok_rem(after(b, y), t, e);
    lemma_rem(t, e);
    lemma_after_push(b, y, e);
    lemma_after_concat(b, y.push(e), t);
    assert forall|i: int| 0 <= i < x.push(e).len() implies 0 <= #[trigger] more[i] < x.push(
        e,
    ).len() && (y.push(e) + t)[i] == x.push(e)[more[i]] by {
        if i < n {
            assert(0 <= old[i] < x.len());
        } else if i > n {
            assert(0 <= old[i - 1] < x.len());
        }
    }
    assert forall|z: Word, i: int, j: int| #[trigger]
        carried(b, h, x.push(e), y.push(e) + t, more, z, i, j) by {
        if ok(b, x.push(e) + z) && 0 <= i < j && x.len() + 1 <= j < x.len() + 1 + z.len() {
            let ez = seq![e] + z;
            assert(x.push(e) + z =~= x + ez);
            assert(y + t + seq![e] + z =~= (y + t) + ez);
            assert(y.push(e) + t + z =~= y + seq![e] + t + z);
            lemma_after_concat(b, y + t, ez);
            lemma_after_concat(b, x, ez);
            lemma_move(b, h, y, t, e, z, i, j);
            let k = moved(n, l, i);
            assert(carried(b, h, x, y + t, old, ez, k, j));
            assert(origin(old, k) == origin(more, i)) by {
                if i < n {
                    assert(old[i] == py[i] && more[i] == py[i]);
                } else if i == n {
                    assert(k == n + l);
                    assert(more[n] == x.len());
                } else if i <= n + l {
                    assert(old[i - 1] == pt[i - 1 - n] && more[i] == pt[i - 1 - n]);
                }
            }
        }
    }
}

/// The splitting of a schedule by what follows from event `m`, from event `k` on: `y` and `t`
/// are what was kept and delayed before.
#[verifier::rlimit(40)]
proof fn lemma_split(
    b: Beh,
    h: Hist,
    x: Word,
    m: int,
    k: int,
    y: Word,
    t: Word,
    py: Seq<int>,
    pt: Seq<int>,
    p: ProcessID,
)
    requires
        lawful(b),
        faithful(b, h),
        ok(b, x),
        0 <= m < k <= x.len(),
        y.len() == py.len(),
        t.len() == pt.len(),
        t.len() > 0,
        pt[0] == m,
        arranged(b, h, x.take(k), y + t, py + pt),
        forall|i: int| #[trigger] pt.contains(i) <==> m <= i < k && follows(h, x, m, i),
        forall|i: int| 0 < i < pt.len() ==> #[trigger] pt[i] > m,
    ensures
        kept(after(b, y), t, x.skip(k)) == unrelated(h, x, m, k),
        racy(after(b, y), t, x.skip(k), p) ==> exists|j: int|
            k <= j < x.len() && x[j] == p && #[trigger] races(h, x, m, j),
    decreases x.len() - k,
{
    let u = x.skip(k);
    if k < x.len() {
        let e = x[k];
        let xk = x.take(k);
        let yt = y + t;
        let places = py + pt;
        assert(u[0] == e);
        assert(u.drop_first() =~= x.skip(k + 1));
        assert(xk.push(e) =~= x.take(k + 1));
        assert(x =~= x.take(k + 1) + x.skip(k + 1));
        lemma_after_concat(b, x.take(k + 1), x.skip(k + 1));
        lemma_after_push(b, xk, e);
        lemma_after_push(b, yt, e);
        assert(y + t + seq![e] =~= yt.push(e));
        lemma_pass_history(b, h, y, t, e);
        let n = y.len() as int;
        assert((y.len() + t.len()) as int == k) by {
            assert(yt.len() == xk.len());
        }
        // conflicts with the delayed events are those of the schedule itself
        assert forall|l: int| 0 <= l < t.len() implies #[trigger] t[l] == x[pt[l]] && h(
            y + t + seq![e],
            n + l,
            k,
        ) == h(x, pt[l], k) by {
            assert(places[n + l] == pt[l]);
            assert(yt[n + l] == t[l]);
            assert(0 <= places[n + l] < k);
            assert(xk[pt[l]] == x[pt[l]]);
            assert(xk + seq![e] =~= xk.push(e));
            assert(yt + seq![e] =~= y + t + seq![e]);
            assert(carried(b, h, xk, yt, places, seq![e], n + l, k));
            lemma_settled(b, h, x.take(k + 1), x.skip(k + 1), pt[l], k);
        }
        let pass = passes(after(b, y), t, e);
        assert(pass <==> !follows(h, x, m, k)) by {
            if pass && follows(h, x, m, k) {
                let i = choose|i: int|
                    m <= i < k && follows(h, x, m, i) && #[trigger] linked(h, x, i, k);
                assert(pt.contains(i));
                let l = choose|l: int| 0 <= l < pt.len() && pt[l] == i;
                assert(clear(h, y, t, e, l));
                assert(t[l] == x[pt[l]]);
            }
            if !pass {
                let l = choose|l: int| 0 <= l < t.len() && !#[trigger] clear(h, y, t, e, l);
                assert(t[l] == x[pt[l]]);
                assert(pt.contains(pt[l]));
                assert(linked(h, x, pt[l], k));
            }
        }
        assert(ok(after(b, y + t), seq![e] + x.skip(k + 1))) by {
            lemma_after_concat(b, xk, u);
            assert(xk + u =~= x);
            assert(seq![e] + x.skip(k + 1) =~= u);
        }
        if pass {
            lemma_arranged_pass(b, h, xk, y, t, py, pt, e);
            lemma_after_push(b, y, e);
            lemma_after_concat(b, y, t);
            assert forall|i: int| #[trigger] pt.contains(i) <==> m <= i < k + 1 && follows(
                h,
                x,
                m,
                i,
            ) by {
                assert(pt.contains(i) <==> m <= i < k && follows(h, x, m, i));
            }
            lemma_split(b, h, x, m, k + 1, y.push(e), t, py.push(k), pt, p);
            if racy(after(b, y), t, u, p) {
                let j = choose|j: int|
                    k + 1 <= j < x.len() && x[j] == p && #[trigger] races(h, x, m, j);
                assert(races(h, x, m, j));
            }
        } else {
            lemma_arranged_push(b, h, xk, yt, places, e);
            assert(yt.push(e) =~= y + t.push(e));
            assert(places.push(k) =~= py + pt.push(k));
            let more = pt.push(k);
            assert forall|i: int| #[trigger] more.contains(i) <==> m <= i < k + 1 && follows(
                h,
                x,
                m,
                i,
            ) by {
                assert(pt.contains(i) <==> m <= i < k && follows(h, x, m, i));
                assert(more[pt.len() as int] == k);
                if pt.contains(i) {
                    let l = choose|l: int| 0 <= l < pt.len() && pt[l] == i;
                    assert(more[l] == i);
                }
                if more.contains(i) {
                    let l = choose|l: int| 0 <= l < more.len() && more[l] == i;
                    if l < pt.len() {
                        assert(pt[l] == i);
                    }
                }
            }
            assert forall|i: int| 0 < i < more.len() implies #[trigger] more[i] > m by {
                if i < pt.len() {
                    assert(pt[i] > m);
                }
            }
            if e == p {
                if racy(after(b, y), t, u, p) {
                    lemma_race_history(b, h, x, m, k, y, t, py, pt);
                    assert(races(h, x, m, k));
                }
            }
            lemma_split(b, h, x, m, k + 1, y, t.push(e), py, more, p);
            if e != p && racy(after(b, y), t, u, p) {
                let j = choose|j: int|
                    k + 1 <= j < x.len() && x[j] == p && #[trigger] races(h, x, m, j);
                assert(races(h, x, m, j));
            }
        }
    }
}

/// A delayed step that passes all that is delayed behind event `m` races with `m`.
proof fn lemma_race_history(
    b: Beh,
    h: Hist,
    x: Word,
    m: int,
    k: int,
    y: Word,
    t: Word,
    py: Seq<int>,
    pt: Seq<int>,
)
    requires
        lawful(b),
        faithful(b, h),
        ok(b, x),
        0 <= m < k < x.len(),
        y.len() == py.len(),
        t.len() == pt.len(),
        t.len() > 0,
        pt[0] == m,
        arranged(b, h, x.take(k), y + t, py + pt),
        forall|i: int| #[trigger] pt.contains(i) <==> m <= i < k && follows(h, x, m, i),
        forall|i: int| 0 < i < pt.len() ==> #[trigger] pt[i] > m,
        follows(h, x, m, k),
        passes(step(after(b, y), t[0]), t.drop_first(), x[k]),
    ensures
        races(h, x, m, k),
{
    let e = x[k];
    let xk = x.take(k);
    let yt = y + t;
    let places = py + pt;
    let s = t.drop_first();
    let y1 = y.push(t[0]);
    let n = y.len() as int;
    lemma_uncons(t);
    lemma_after_concat(b, y, t);
    lemma_after_push(b, y, t[0]);
    assert(xk.push(e) =~= x.take(k + 1));
    assert(x =~= x.take(k + 1) + x.skip(k + 1));
    lemma_after_concat(b, x.take(k + 1), x.skip(k + 1));
    lemma_after_push(b, xk, e);
    lemma_after_push(b, yt, e);
    assert(y1 + s + seq![e] =~= yt.push(e));
    lemma_pass_history(b, h, y1, s, e);
    assert((y1.len() + s.len()) as int == k) by {
        assert(yt.len() == xk.len());
    }
    assert forall|i: int| m < i < k && #[trigger] follows(h, x, m, i) implies !linked(
        h,
        x,
        i,
        k,
    ) by {
        assert(pt.contains(i));
        let l = choose|l: int| 0 <= l < pt.len() && pt[l] == i;
        assert(l > 0);
        assert(s[l - 1] == t[l]);
        assert(places[n + l] == pt[l]);
        assert(yt[n + l] == t[l]);
        assert(0 <= places[n + l] < k);
        assert(xk[pt[l]] == x[pt[l]]);
        assert(xk + seq![e] =~= xk.push(e));
        assert(yt + seq![e] =~= y1 + s + seq![e]);
        assert(carried(b, h, xk, yt, places, seq![e], n + l, k));
        lemma_settled(b, h, x.take(k + 1), x.skip(k + 1), pt[l], k);
        assert(clear(h, y1, s, e, l - 1));
    }
}

/// What is kept of a schedule after its event `m` are the events that do not follow from it, and
/// a race of the behaviour is a race of the schedule.
pub proof fn lemma_history(b: Beh, h: Hist, x: Word, m: int, p: ProcessID)
    requires
        lawful(b),
        faithful(b, h),
        ok(b, x),
        0 <= m < x.len(),
    ensures
        kept(after(b, x.take(m)), seq![x[m]], x.skip(m + 1)) == unrelated(h, x, m, m + 1),
        racy(after(b, x.take(m)), seq![x[m]], x.skip(m + 1), p) ==> exists|j: int|
            m < j < x.len() && x[j] == p && #[trigger] races(h, x, m, j),
{
    let y = x.take(m);
    let t = seq![x[m]];
    let py = Seq::new(m as nat, |i: int| i);
    let pt = seq![m];
    let k = m + 1;
    let xk = x.take(k);
    assert(xk =~= y + t);
    assert(x =~= xk + x.skip(k));
    lemma_after_concat(b, xk, x.skip(k));
    let places = py + pt;
    assert forall|i: int| 0 <= i < xk.len() implies 0 <= #[trigger] places[i] < xk.len() && xk[i]
        == xk[places[i]] by {
        assert(places[i] == i);
    }
    assert forall|z: Word, i: int, j: int| #[trigger]
        carried(b, h, xk, xk, places, z, i, j) by {
        if 0 <= i < places.len() {
            assert(places[i] == i);
        }
    }
    assert(arranged(b, h, xk, y + t, places));
    assert forall|i: int| #[trigger] pt.contains(i) <==> m <= i < k && follows(h, x, m, i) by {
        assert(pt[0] == m);
        assert(follows(h, x, m, m));
    }
    lemma_split(b, h, x, m, k, y, t, py, pt, p);
    if racy(after(b, y), t, x.skip(k), p) {
        let j = choose|j: int| k <= j < x.len() && x[j] == p && #[trigger] races(h, x, m, j);
        assert(races(h, x, m, j));
    }
}

} // verus!
