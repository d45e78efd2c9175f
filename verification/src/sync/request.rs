//! Operations that are registered on an object and wait for their commit.

use vstd::multiset::Multiset;
use vstd::prelude::*;

use crate::model::object::Transition;
use crate::model::process::ProcessID;

verus! {

/// A registered operation that has not committed.
pub struct Request<X> {
    /// The operation's identity.
    pub transition: Transition,
    /// What it does.
    pub op: X,
}

/// The processes of a sequence of requests, one occurrence each.
pub open spec fn requesters<X>(requests: Seq<Request<X>>) -> Multiset<ProcessID> {
    requests.map_values(|r: Request<X>| r.transition.pid).to_multiset()
}

pub(crate) proof fn lemma_remove_multiset<X>(requests: Seq<Request<X>>, i: int)
    requires
        0 <= i < requests.len(),
    ensures
        requesters(requests.remove(i)) =~= requesters(requests).remove(
            requests[i].transition.pid,
        ),
{
    broadcast use vstd::seq_lib::group_to_multiset_ensures;

    let pids = requests.map_values(|r: Request<X>| r.transition.pid);
    assert(requests.remove(i).map_values(|r: Request<X>| r.transition.pid) =~= pids.remove(i));
}

pub(crate) proof fn lemma_push_multiset<X>(requests: Seq<Request<X>>, r: Request<X>)
    ensures
        requesters(requests.push(r)) =~= requesters(requests).insert(r.transition.pid),
{
    broadcast use vstd::seq_lib::group_to_multiset_ensures;

    let pids = requests.map_values(|r: Request<X>| r.transition.pid);
    assert(requests.push(r).map_values(|r: Request<X>| r.transition.pid) =~= pids.push(
        r.transition.pid,
    ));
}

pub(crate) proof fn lemma_one_requester<X>(requests: Seq<Request<X>>, i: int)
    requires
        0 <= i < requests.len(),
    ensures
        requesters(requests).count(requests[i].transition.pid) >= 1,
{
    broadcast use vstd::seq_lib::group_to_multiset_ensures;

    let pids = requests.map_values(|r: Request<X>| r.transition.pid);
    assert(pids[i] == requests[i].transition.pid);
    assert(pids.contains(pids[i]));
}

pub(crate) proof fn lemma_two_requesters<X>(requests: Seq<Request<X>>, i: int, j: int)
    requires
        0 <= i < requests.len(),
        0 <= j < requests.len(),
        i != j,
        requests[i].transition.pid == requests[j].transition.pid,
    ensures
        requesters(requests).count(requests[i].transition.pid) >= 2,
{
    lemma_remove_multiset(requests, i);
    let rest = requests.remove(i);
    let k = if j < i {
        j
    } else {
        j - 1
    };
    assert(rest[k] == requests[j]);
    lemma_one_requester(rest, k);
    lemma_one_requester(requests, i);
}

/// What process `p` has requested.
pub open spec fn wanted<X>(requests: Seq<Request<X>>, p: ProcessID) -> Option<X> {
    if exists|i: int| 0 <= i < requests.len() && #[trigger] requests[i].transition.pid == p {
        let i = choose|i: int|
            0 <= i < requests.len() && #[trigger] requests[i].transition.pid == p;
        Some(requests[i].op)
    } else {
        None
    }
}

/// No process has two requests.
pub open spec fn one_each<X>(requests: Seq<Request<X>>) -> bool {
    forall|p: ProcessID| #[trigger] requesters(requests).count(p) <= 1
}

/// With one request each, a process wants what it requested.
pub proof fn lemma_wanted<X>(requests: Seq<Request<X>>, i: int)
    requires
        one_each(requests),
        0 <= i < requests.len(),
    ensures
        wanted(requests, requests[i].transition.pid) == Some(requests[i].op),
        forall|j: int|
            0 <= j < requests.len() && #[trigger] requests[j].transition.pid
                == requests[i].transition.pid ==> j == i,
{
    assert forall|j: int|
        0 <= j < requests.len() && #[trigger] requests[j].transition.pid
            == requests[i].transition.pid implies j == i by {
        if j != i {
            lemma_two_requesters(requests, i, j);
            assert(requesters(requests).count(requests[i].transition.pid) <= 1);
        }
    }
}

/// Who wants something is who has a request.
pub proof fn lemma_wanted_count<X>(requests: Seq<Request<X>>, p: ProcessID)
    requires
        one_each(requests),
    ensures
        wanted(requests, p) is Some <==> requesters(requests).count(p) == 1,
{
    broadcast use vstd::seq_lib::group_to_multiset_ensures;

    let pids = requests.map_values(|r: Request<X>| r.transition.pid);
    assert(requesters(requests).count(p) <= 1);
    if requesters(requests).count(p) == 1 {
        assert(pids.contains(p));
        let i = choose|i: int| 0 <= i < pids.len() && pids[i] == p;
        assert(requests[i].transition.pid == p);
    }
    if wanted(requests, p) is Some {
        let i = choose|i: int|
            0 <= i < requests.len() && #[trigger] requests[i].transition.pid == p;
        lemma_one_requester(requests, i);
    }
}

/// A new request is what its process wants.
pub proof fn lemma_wanted_push<X>(requests: Seq<Request<X>>, r: Request<X>, q: ProcessID)
    requires
        one_each(requests),
        requesters(requests).count(r.transition.pid) == 0,
    ensures
        wanted(requests.push(r), q) == if q == r.transition.pid {
            Some(r.op)
        } else {
            wanted(requests, q)
        },
{
    let more = requests.push(r);
    lemma_push_multiset(requests, r);
    assert(one_each(more)) by {
        assert forall|p: ProcessID| #[trigger] requesters(more).count(p) <= 1 by {
            assert(requesters(requests).count(p) <= 1);
        }
    }
    if q == r.transition.pid {
        lemma_wanted(more, requests.len() as int);
    } else if wanted(requests, q) is Some {
        let i = choose|i: int|
            0 <= i < requests.len() && #[trigger] requests[i].transition.pid == q;
        lemma_wanted(requests, i);
        assert(more[i] == requests[i]);
        lemma_wanted(more, i);
    } else if wanted(more, q) is Some {
        let i = choose|i: int| 0 <= i < more.len() && #[trigger] more[i].transition.pid == q;
        assert(requests[i].transition.pid == q);
    }
}

/// A request that is gone is wanted no more.
pub proof fn lemma_wanted_remove<X>(requests: Seq<Request<X>>, i: int, q: ProcessID)
    requires
        one_each(requests),
        0 <= i < requests.len(),
    ensures
        wanted(requests.remove(i), q) == if q == requests[i].transition.pid {
            None
        } else {
            wanted(requests, q)
        },
{
    let less = requests.remove(i);
    lemma_remove_multiset(requests, i);
    assert(one_each(less)) by {
        assert forall|p: ProcessID| #[trigger] requesters(less).count(p) <= 1 by {
            assert(requesters(requests).count(p) <= 1);
        }
    }
    lemma_wanted(requests, i);
    if wanted(less, q) is Some {
        let j = choose|j: int| 0 <= j < less.len() && #[trigger] less[j].transition.pid == q;
        let k = if j < i {
            j
        } else {
            j + 1
        };
        assert(less[j] == requests[k]);
        assert(requests[k].transition.pid == q);
        lemma_wanted(requests, k);
        lemma_wanted(less, j);
    } else if wanted(requests, q) is Some {
        let k = choose|k: int|
            0 <= k < requests.len() && #[trigger] requests[k].transition.pid == q;
        if k != i {
            let j = if k < i {
                k
            } else {
                k - 1
            };
            assert(less[j] == requests[k]);
            assert(less[j].transition.pid == q);
        }
    }
}

} // verus!
