use crate::debouncer::{bumped, bumped_times, step_of, DebounceStep};
use crate::index::{names_path, FileHashes};
use crate::state::{HashSpec, HashState, InputsView, Reply};
use crate::subscriber::{query_post, rehash_post, HashJob, Subscriber};
use vstd::prelude::*;

verus! {

/// Every spec that the index holds is in exactly one of the states pending,
/// ready (hashes) and unavailable.
pub proof fn state_is_one_of_three(s: Subscriber, p: Seq<char>, q: InputsView)
    requires
        s.lookup(p, q) is Some,
    ensures
        ({
            let st = s.lookup(p, q).unwrap();
            (if st is Pending { 1int } else { 0 }) + (if st is Hashes { 1int } else { 0 }) + (if st
                is Unavailable { 1int } else { 0 }) == 1
        }),
{
}

/// A debouncer fires exactly when its deadline passed with no bump since
/// its snapshot; once fired it stays terminal through any number of later
/// bumps (each of which `bump` refuses, as it answers whether the debouncer
/// was live), so it cannot fire again.
pub proof fn debouncer_fires_once(observed: usize, current: usize, expired: bool, n: nat)
    ensures
        (step_of(observed, current, expired) == DebounceStep::Fire) == (current == observed && expired),
        bumped_times(None, n) is None,
    decreases n,
{
    if n > 0 {
        debouncer_fires_once(observed, current, expired, (n - 1) as nat);
        assert(bumped(bumped_times(None, (n - 1) as nat)) is None);
    }
}

/// Putting a spec of a new package into the index and then removing that
/// package leaves every other package, and every state, as it was.
pub proof fn insert_then_remove(
    h0: FileHashes,
    h1: FileHashes,
    h2: FileHashes,
    target: Seq<char>,
    target_inputs: InputsView,
    st: HashState,
    keep: Seq<String>,
)
    requires
        h0.wf(),
        !h0.has_package(target),
        forall|p: Seq<char>| #[trigger] h1.has_package(p) == (h0.has_package(p) || p == target),
        h1.lookup(target, target_inputs) == Some(st),
        forall|p: Seq<char>, q: InputsView|
            !(p == target && q == target_inputs) ==> #[trigger] h1.lookup(p, q) == h0.lookup(p, q),
        forall|p: Seq<char>| #[trigger] h0.has_package(p) ==> names_path(keep, p),
        !names_path(keep, target),
        forall|p: Seq<char>|
            #[trigger] h2.has_package(p) == (h1.has_package(p) && names_path(keep, p)),
        forall|p: Seq<char>, q: InputsView|
            #[trigger] h2.lookup(p, q) == if names_path(keep, p) {
                h1.lookup(p, q)
            } else {
                None
            },
    ensures
        forall|p: Seq<char>| #[trigger] h2.has_package(p) == h0.has_package(p),
        forall|p: Seq<char>, q: InputsView| #[trigger] h2.lookup(p, q) == h0.lookup(p, q),
{
    assert forall|p: Seq<char>, q: InputsView| #[trigger] h2.lookup(p, q) == h0.lookup(p, q) by {
        if !h0.has_package(p) {
            assert(h0.lookup(p, q) is None);
        }
    }
}

/// The version that the next job gets is held by no pending state of the
/// index, so a completion of an older job can never match a newer one.
pub proof fn next_version_is_fresh(s: Subscriber, p: Seq<char>, q: InputsView)
    requires
        s.wf(),
    ensures
        s.lookup(p, q) matches Some(HashState::Pending(v, _)) ==> v != s.next_version,
{
}

/// Two changes in a row inside one package start at most one hash job: the
/// first leaves the default spec pending, and while that job's debouncer
/// still takes bumps the second change is absorbed by it.
pub proof fn second_change_absorbed(
    s0: Subscriber,
    s1: Subscriber,
    s2: Subscriber,
    target: Seq<char>,
    first_accepted: bool,
    r1: Option<HashJob>,
    r2: Option<HashJob>,
)
    requires
        rehash_post(s0, s1, target, first_accepted, r1),
        rehash_post(s1, s2, target, true, r2),
    ensures
        r2 is None,
        s2.lookup(target, None) == s1.lookup(target, None),
{
    assert(s1.lookup(target, None) is Some);
}

/// Two queries in a row for a spec whose hashes are ready both get those
/// same hashes, pair for pair.
pub proof fn ready_query_repeats(
    s0: Subscriber,
    s1: Subscriber,
    s2: Subscriber,
    hs: HashSpec,
    w1: u64,
    w2: u64,
    r1: Option<Reply>,
    r2: Option<Reply>,
)
    requires
        s0.lookup(hs.package_path@, hs.inputs_view()) matches Some(HashState::Hashes(_)),
        query_post(s0, s1, hs, w1, r1),
        query_post(s1, s2, hs, w2, r2),
    ensures
        r1 matches Some(a) && r2 matches Some(b) && a.result matches Ok(x) && b.result matches Ok(y)
            && x.entries@ == y.entries@,
{
}

} // verus!
