use crate::index::{
    is_ancestor_path, is_unavailable_reply, names_path, replied_to, FileHashes,
};
use crate::index::path_key;
use crate::state::{waiters_of, inputs_view, Error, GitHashes, HashSpec, HashState, InputsView, Reply};
use vstd::prelude::*;
use vstd::string::StringExecFns;

verus! {

/// A hash computation to start: once its debouncer fires, hash the spec's
/// package and report back with the version.
#[derive(Debug)]
pub struct HashJob {
    pub spec: HashSpec,
    pub version: u64,
}

/// The outcome of a hash computation: the hashes, or the facility's error
/// message.
#[derive(Debug)]
pub struct HashUpdate {
    pub spec: HashSpec,
    pub version: u64,
    pub result: Result<GitHashes, String>,
}

/// What handling an input asks of the caller: answers to send and hash jobs
/// to start.
#[derive(Debug)]
pub struct Effects {
    pub replies: Vec<Reply>,
    pub jobs: Vec<HashJob>,
}

/// Whether `r` answers with a hashing error carrying `reason`.
pub open spec fn is_hashing_error_reply(r: Reply, reason: Seq<char>) -> bool {
    r.result matches Err(Error::HashingError(s)) && s@ == reason
}

/// Whether `r` answers with exactly these hashes.
pub open spec fn is_hashes_reply(r: Reply, hashes: GitHashes) -> bool {
    r.result matches Ok(h) && h.entries@ == hashes.entries@
}

/// Whether `r` says that no known package has the spec `(p, q)`.
pub open spec fn is_unknown_package_reply(r: Reply, p: Seq<char>, q: InputsView) -> bool {
    r.result matches Err(Error::UnknownPackage(s)) && s.package_path@ == p && s.inputs_view() == q
}

/// Whether `st` is a pending state with version `v` and waiters `ws`.
pub open spec fn is_pending(st: Option<HashState>, v: u64, ws: Seq<u64>) -> bool {
    st matches Some(HashState::Pending(v2, ws2)) && v2 == v && ws2@ == ws
}

/// The reconciler: sole owner of the index, and issuer of the versions that
/// stamp hash jobs.
pub struct Subscriber {
    pub hashes: FileHashes,
    pub next_version: u64,
}

impl Subscriber {
    /// The index is well formed and every pending version was issued before
    /// `next_version`.
    pub open spec fn wf(&self) -> bool {
        &&& self.hashes.wf()
        &&& forall|p: Seq<char>, q: InputsView|
            #[trigger] self.hashes.lookup(p, q) matches Some(HashState::Pending(v, _)) ==> v
                < self.next_version
    }

    pub open spec fn lookup(&self, p: Seq<char>, q: InputsView) -> Option<HashState> {
        self.hashes.lookup(p, q)
    }

    /// A reconciler with an empty index.
    pub fn new() -> (r: Subscriber)
        ensures
            r.wf(),
            r.next_version == 0,
            forall|p: Seq<char>| !r.hashes.has_package(p),
    {
        Subscriber { hashes: FileHashes::new(), next_version: 0 }
    }

    /// Issues a fresh version for a hash job on `spec`.
    pub fn queue_package_hash(&mut self, spec: &HashSpec) -> (r: HashJob)
        requires
            old(self).next_version < u64::MAX,
        ensures
            r.version == old(self).next_version,
            final(self).next_version == old(self).next_version + 1,
            final(self).hashes == old(self).hashes,
            r.spec.package_path@ == spec.package_path@,
            r.spec.inputs_view() == spec.inputs_view(),
    {
        let version = self.next_version;
        self.next_version = self.next_version + 1;
        HashJob { spec: spec.duplicate(), version }
    }

    /// Answers a query for `spec` made by `waiter`: at once from a settled
    /// state (`Some`), or later, by registering the waiter on a pending
    /// state (`None`).
    pub fn handle_query(&mut self, spec: HashSpec, waiter: u64) -> (r: Option<Reply>)
        requires
            old(self).wf(),
        ensures
            final(self).wf(),
            query_post(*old(self), *final(self), spec, waiter, r),
    {
        match self.hashes.take(&spec) {
            None => Some(Reply { waiter, result: Err(Error::UnknownPackage(spec)) }),
            Some(HashState::Hashes(h)) => {
                let copy = h.duplicate();
                self.hashes.insert(spec, HashState::Hashes(h));
                Some(Reply { waiter, result: Ok(copy) })
            },
            Some(HashState::Unavailable(reason)) => {
                let message = reason.clone();
                self.hashes.insert(spec, HashState::Unavailable(reason));
                Some(Reply { waiter, result: Err(Error::HashingError(message)) })
            },
            Some(HashState::Pending(v, mut ws)) => {
                ws.push(waiter);
                self.hashes.insert(spec, HashState::Pending(v, ws));
                None
            },
        }
    }

    /// Applies the outcome of a hash job. It takes effect only where the
    /// spec is pending with the job's version: then each waiter, in order,
    /// gets the hashes (or the hashing error), and the state settles to
    /// them. Any other outcome is stale and changes nothing.
    pub fn handle_hash_update(&mut self, update: HashUpdate) -> (r: Vec<Reply>)
        requires
            old(self).wf(),
        ensures
            final(self).wf(),
            final(self).next_version == old(self).next_version,
            forall|p: Seq<char>| #[trigger] final(self).hashes.has_package(p) == old(self).hashes.has_package(p),
            forall|p: Seq<char>, q: InputsView|
                !(p == update.spec.package_path@ && q == update.spec.inputs_view()) ==> #[trigger] final(self).lookup(p, q)
                    == old(self).lookup(p, q),
            !applies(old(self).lookup(update.spec.package_path@, update.spec.inputs_view()), update.version) ==> r@.len() == 0
                && final(self).lookup(update.spec.package_path@, update.spec.inputs_view()) == old(self).lookup(
                update.spec.package_path@,
                update.spec.inputs_view(),
            ),
            applies(old(self).lookup(update.spec.package_path@, update.spec.inputs_view()), update.version) ==> {
                let ws = waiters_of(old(self).lookup(update.spec.package_path@, update.spec.inputs_view()).unwrap());
                &&& r@.len() == ws.len()
                &&& forall|j: int| 0 <= j < ws.len() ==> #[trigger] r@[j].waiter == ws[j]
                &&& match update.result {
                    Ok(h) => final(self).lookup(update.spec.package_path@, update.spec.inputs_view()) == Some(
                        HashState::Hashes(h),
                    ) && forall|j: int| 0 <= j < r@.len() ==> is_hashes_reply(#[trigger] r@[j], h),
                    Err(e) => final(self).lookup(update.spec.package_path@, update.spec.inputs_view()) == Some(
                        HashState::Unavailable(e),
                    ) && forall|j: int| 0 <= j < r@.len() ==> is_hashing_error_reply(#[trigger] r@[j], e@),
                }
            },
    {
        let HashUpdate { spec, version, result } = update;
        let mut replies: Vec<Reply> = Vec::new();
        match self.hashes.take(&spec) {
            None => {},
            Some(HashState::Pending(v, ws)) => {
                if v == version {
                    match result {
                        Ok(h) => {
                            let mut i: usize = 0;
                            while i < ws.len()
                                invariant
                                    i <= ws@.len(),
                                    replies@.len() == i,
                                    forall|j: int| 0 <= j < i ==> #[trigger] replies@[j].waiter == ws@[j],
                                    forall|j: int| 0 <= j < i ==> is_hashes_reply(#[trigger] replies@[j], h),
                                decreases ws@.len() - i,
                            {
                                replies.push(Reply { waiter: ws[i], result: Ok(h.duplicate()) });
                                i = i + 1;
                            }
                            self.hashes.insert(spec, HashState::Hashes(h));
                        },
                        Err(e) => {
                            let mut i: usize = 0;
                            while i < ws.len()
                                invariant
                                    i <= ws@.len(),
                                    replies@.len() == i,
                                    forall|j: int| 0 <= j < i ==> #[trigger] replies@[j].waiter == ws@[j],
                                    forall|j: int| 0 <= j < i ==> is_hashing_error_reply(#[trigger] replies@[j], e@),
                                decreases ws@.len() - i,
                            {
                                replies.push(Reply { waiter: ws[i], result: Err(Error::HashingError(e.clone())) });
                                i = i + 1;
                            }
                            self.hashes.insert(spec, HashState::Unavailable(e));
                        },
                    }
                } else {
                    self.hashes.insert(spec, HashState::Pending(v, ws));
                }
            },
            Some(st) => {
                self.hashes.insert(spec, st);
            },
        }
        replies
    }

    /// The version of the spec's pending job, if the spec is pending.
    pub fn pending_version(&self, spec: &HashSpec) -> (r: Option<u64>)
        requires
            self.wf(),
        ensures
            r == match self.lookup(spec.package_path@, spec.inputs_view()) {
                Some(HashState::Pending(v, _)) => Some(v),
                _ => None,
            },
    {
        match self.hashes.get(spec) {
            Some(HashState::Pending(v, _)) => Some(*v),
            _ => None,
        }
    }

    /// Reacts to a change inside the package rooted at `package_path`, on
    /// its default spec. `bump_accepted` tells whether the pending job's
    /// debouncer took the change; it is read only when the spec is pending.
    /// A pending spec whose debouncer took the change stays as it is; one
    /// whose debouncer already fired gets a fresh job and keeps its waiters;
    /// any other spec gets a fresh job with no waiters. The fresh job, if
    /// any, is returned.
    pub fn rehash_package(&mut self, package_path: String, bump_accepted: bool) -> (r: Option<HashJob>)
        requires
            old(self).wf(),
            old(self).next_version < u64::MAX,
        ensures
            final(self).wf(),
            rehash_post(*old(self), *final(self), package_path@, bump_accepted, r),
    {
        let spec = HashSpec { package_path, inputs: None };
        match self.hashes.take(&spec) {
            Some(HashState::Pending(v, ws)) => {
                if bump_accepted {
                    self.hashes.insert(spec, HashState::Pending(v, ws));
                    None
                } else {
                    let job = self.queue_package_hash(&spec);
                    self.hashes.insert(spec, HashState::Pending(job.version, ws));
                    Some(job)
                }
            },
            _ => {
                let job = self.queue_package_hash(&spec);
                self.hashes.insert(spec, HashState::Pending(job.version, Vec::new()));
                Some(job)
            },
        }
    }

    /// The roots of the packages that the changed paths belong to, each
    /// once, in order of first appearance. Paths outside every known package
    /// are skipped.
    pub fn changed_packages(&self, paths: &Vec<String>) -> (r: Vec<String>)
        requires
            self.wf(),
        ensures
            forall|j: int| 0 <= j < r@.len() ==> owns_one_of(self.hashes, #[trigger] r@[j]@, paths@),
            forall|i: int, p: Seq<char>| 0 <= i < paths@.len() && #[trigger] self.hashes.owns(p, paths@[i]@) ==> names_path(r@, p),
            forall|j: int, k: int| 0 <= j < k < r@.len() ==> r@[j]@ != r@[k]@,
    {
        let mut out: Vec<String> = Vec::new();
        let mut i: usize = 0;
        while i < paths.len()
            invariant
                self.wf(),
                i <= paths@.len(),
                forall|j: int| 0 <= j < out@.len() ==> owns_one_of(self.hashes, #[trigger] out@[j]@, paths@.subrange(0, i as int)),
                forall|t: int, p: Seq<char>| 0 <= t < i && #[trigger] self.hashes.owns(p, paths@[t]@) ==> names_path(out@, p),
                forall|j: int, k: int| 0 <= j < k < out@.len() ==> out@[j]@ != out@[k]@,
            decreases paths@.len() - i,
        {
            match self.hashes.get_package_path(&paths[i]) {
                Some(p) => {
                    proof {
                        assert(self.hashes.owns(p@, paths@[i as int]@));
                        assert forall|q: Seq<char>| #[trigger] self.hashes.owns(q, paths@[i as int]@) implies q == p@ by {
                            lemma_owner_unique(self.hashes, q, p@, paths@[i as int]@);
                        }
                    }
                    if crate::index::contains_path(&out, &p) {
                        proof {
                            assert forall|j: int| 0 <= j < out@.len() implies owns_one_of(self.hashes, #[trigger] out@[j]@, paths@.subrange(0, i + 1)) by {
                                let t = choose|t: int| 0 <= t < i && self.hashes.owns(out@[j]@, #[trigger] paths@.subrange(0, i as int)[t]@);
                                assert(paths@.subrange(0, i + 1)[t] == paths@.subrange(0, i as int)[t]);
                            }
                        }
                    } else {
                        let ghost before = out@;
                        out.push(p);
                        proof {
                            assert(paths@.subrange(0, i + 1)[i as int] == paths@[i as int]);
                            assert forall|j: int| 0 <= j < out@.len() implies owns_one_of(self.hashes, #[trigger] out@[j]@, paths@.subrange(0, i + 1)) by {
                                if j < before.len() {
                                    assert(out@[j] == before[j]);
                                    let t = choose|t: int| 0 <= t < i && self.hashes.owns(out@[j]@, #[trigger] paths@.subrange(0, i as int)[t]@);
                                    assert(paths@.subrange(0, i + 1)[t] == paths@.subrange(0, i as int)[t]);
                                }
                            }
                            assert forall|t: int, q: Seq<char>| 0 <= t < i + 1 && #[trigger] self.hashes.owns(q, paths@[t]@) implies names_path(out@, q) by {
                                if t < i {
                                    let j = choose|j: int| 0 <= j < before.len() && #[trigger] before[j]@ == q;
                                    assert(out@[j] == before[j]);
                                } else {
                                    assert(out@[before.len() as int]@ == q);
                                }
                            }
                        }
                    }
                },
                None => {
                    proof {
                        assert forall|q: Seq<char>| !#[trigger] self.hashes.owns(q, paths@[i as int]@) by {}
                        assert forall|j: int| 0 <= j < out@.len() implies owns_one_of(self.hashes, #[trigger] out@[j]@, paths@.subrange(0, i + 1)) by {
                            let t = choose|t: int| 0 <= t < i && self.hashes.owns(out@[j]@, #[trigger] paths@.subrange(0, i as int)[t]@);
                            assert(paths@.subrange(0, i + 1)[t] == paths@.subrange(0, i as int)[t]);
                        }
                    }
                },
            }
            i = i + 1;
        }
        proof {
            assert(paths@.subrange(0, i as int) =~= paths@);
        }
        out
    }

    /// Applies a topology snapshot. Without one, or with a failed one, the
    /// index is drained. Otherwise the packages that the snapshot does not
    /// name are removed, their waiters told that the package was removed,
    /// and each named package whose default spec is not in the index gets a
    /// pending state and a fresh job.
    pub fn handle_package_data_update(&mut self, package_data: &Option<Result<Vec<String>, String>>) -> (r: Effects)
        requires
            old(self).wf(),
            package_data matches Some(Ok(paths)) ==> old(self).next_version + paths@.len() <= u64::MAX,
        ensures
            final(self).wf(),
            final(self).next_version >= old(self).next_version,
            match *package_data {
                Some(Ok(paths)) => {
                    &&& forall|p: Seq<char>| #[trigger] final(self).hashes.has_package(p) == names_path(paths@, p)
                    &&& forall|j: int| 0 <= j < r.replies@.len() ==> is_unavailable_reply(#[trigger] r.replies@[j], REMOVED@)
                    &&& forall|w: u64| #[trigger] replied_to(r.replies@, w) <==> old(self).hashes.waits_outside(paths@, w)
                    &&& forall|p: Seq<char>, q: InputsView|
                        #[trigger] final(self).lookup(p, q) == if !names_path(paths@, p) {
                            None
                        } else if q is None && old(self).lookup(p, q) is None {
                            final(self).lookup(p, q)
                        } else {
                            old(self).lookup(p, q)
                        }
                    &&& forall|p: Seq<char>|
                        names_path(paths@, p) && #[trigger] old(self).lookup(p, None) is None ==> scheduled(
                            r.jobs@,
                            p,
                            final(self).lookup(p, None),
                            old(self).next_version,
                        )
                    &&& forall|j: int|
                        0 <= j < r.jobs@.len() ==> names_path(paths@, #[trigger] r.jobs@[j].spec.package_path@)
                            && r.jobs@[j].spec.inputs_view() is None && old(self).lookup(r.jobs@[j].spec.package_path@, None) is None
                            && is_pending(final(self).lookup(r.jobs@[j].spec.package_path@, None), r.jobs@[j].version, Seq::empty())
                },
                _ => {
                    &&& forall|p: Seq<char>| !#[trigger] final(self).hashes.has_package(p)
                    &&& r.jobs@.len() == 0
                    &&& forall|j: int| 0 <= j < r.replies@.len() ==> is_unavailable_reply(#[trigger] r.replies@[j], DISCOVERY_UNAVAILABLE@)
                    &&& forall|w: u64| #[trigger] replied_to(r.replies@, w) <==> old(self).hashes.waits_outside(Seq::empty(), w)
                },
            },
    {
        match package_data {
            Some(Ok(paths)) => {
                let reason = String::from_str(REMOVED);
                let replies = self.hashes.drop_matching(paths, &reason);
                let ghost mid = *self;
                let mut jobs: Vec<HashJob> = Vec::new();
                let mut i: usize = 0;
                while i < paths.len()
                    invariant
                        self.wf(),
                        mid.wf(),
                        i <= paths@.len(),
                        mid.next_version == old(self).next_version,
                        old(self).next_version <= self.next_version <= old(self).next_version + i,
                        old(self).next_version + paths@.len() <= u64::MAX,
                        forall|p: Seq<char>| #[trigger] mid.hashes.has_package(p) == (old(self).hashes.has_package(p) && names_path(paths@, p)),
                        forall|p: Seq<char>, q: InputsView| #[trigger] mid.lookup(p, q) == if names_path(paths@, p) { old(self).lookup(p, q) } else { None },
                        forall|p: Seq<char>| #[trigger] self.hashes.has_package(p) == (mid.hashes.has_package(p) || names_path(paths@.subrange(0, i as int), p)),
                        forall|p: Seq<char>, q: InputsView|
                            !(q is None && names_path(paths@.subrange(0, i as int), p) && mid.lookup(p, q) is None)
                                ==> #[trigger] self.lookup(p, q) == mid.lookup(p, q),
                        forall|p: Seq<char>|
                            names_path(paths@.subrange(0, i as int), p) && #[trigger] mid.lookup(p, None) is None ==> scheduled(
                                jobs@,
                                p,
                                self.lookup(p, None),
                                old(self).next_version,
                            ),
                        forall|j: int|
                            0 <= j < jobs@.len() ==> names_path(paths@.subrange(0, i as int), #[trigger] jobs@[j].spec.package_path@)
                                && jobs@[j].spec.inputs_view() is None && mid.lookup(jobs@[j].spec.package_path@, None) is None
                                && is_pending(self.lookup(jobs@[j].spec.package_path@, None), jobs@[j].version, Seq::empty()),
                    decreases paths@.len() - i,
                {
                    proof {
                        lemma_names_step(paths@, i as int);
                    }
                    let spec = HashSpec { package_path: paths[i].clone(), inputs: None };
                    let ghost target = paths@[i as int]@;
                    if !self.hashes.contains_key(&spec) {
                        let ghost pre = *self;
                        let ghost pre_jobs = jobs@;
                        let job = self.queue_package_hash(&spec);
                        let v = job.version;
                        self.hashes.insert(spec, HashState::Pending(v, Vec::new()));
                        jobs.push(job);
                        proof {
                            assert forall|p: Seq<char>, q: InputsView|
                                !(q is None && names_path(paths@.subrange(0, i + 1), p) && mid.lookup(p, q) is None)
                                    implies #[trigger] self.lookup(p, q) == mid.lookup(p, q) by {
                                assert(pre.lookup(p, q) == mid.lookup(p, q) || (q is None && names_path(paths@.subrange(0, i as int), p) && mid.lookup(p, q) is None));
                            }
                            assert(is_pending(self.lookup(target, None), v, Seq::empty()));
                            assert forall|p: Seq<char>|
                                names_path(paths@.subrange(0, i + 1), p) && #[trigger] mid.lookup(p, None) is None implies scheduled(
                                    jobs@,
                                    p,
                                    self.lookup(p, None),
                                    old(self).next_version,
                                ) by {
                                if p == target {
                                    assert(jobs@[pre_jobs.len() as int].spec.package_path@ == p);
                                } else {
                                    assert(names_path(paths@.subrange(0, i as int), p));
                                    let j = choose|j: int| 0 <= j < pre_jobs.len() && #[trigger] pre_jobs[j].spec.package_path@ == p
                                        && is_pending(pre.lookup(p, None), pre_jobs[j].version, Seq::empty());
                                    assert(jobs@[j] == pre_jobs[j]);
                                }
                            }
                            assert forall|j: int|
                                0 <= j < jobs@.len() implies names_path(paths@.subrange(0, i + 1), #[trigger] jobs@[j].spec.package_path@)
                                    && jobs@[j].spec.inputs_view() is None && mid.lookup(jobs@[j].spec.package_path@, None) is None
                                    && is_pending(self.lookup(jobs@[j].spec.package_path@, None), jobs@[j].version, Seq::empty()) by {
                                if j < pre_jobs.len() {
                                    assert(jobs@[j] == pre_jobs[j]);
                                    if jobs@[j].spec.package_path@ == target {
                                        assert(pre.lookup(target, None) is Some);
                                    }
                                } else {
                                    assert(jobs@[j].spec.package_path@ == target);
                                    assert(pre.lookup(target, None) is None);
                                }
                            }
                        }
                    } else {
                        let ghost pre = *self;
                        proof {
                            assert forall|p: Seq<char>, q: InputsView|
                                !(q is None && names_path(paths@.subrange(0, i + 1), p) && mid.lookup(p, q) is None)
                                    implies #[trigger] self.lookup(p, q) == mid.lookup(p, q) by {
                                assert(pre.lookup(p, q) == mid.lookup(p, q) || (q is None && names_path(paths@.subrange(0, i as int), p) && mid.lookup(p, q) is None));
                            }
                            assert forall|p: Seq<char>|
                                names_path(paths@.subrange(0, i + 1), p) && #[trigger] mid.lookup(p, None) is None implies scheduled(
                                    jobs@,
                                    p,
                                    self.lookup(p, None),
                                    old(self).next_version,
                                ) by {
                                if p == target {
                                    if !names_path(paths@.subrange(0, i as int), p) {
                                        assert(self.lookup(target, None) == mid.lookup(target, None));
                                    }
                                } else {
                                    assert(names_path(paths@.subrange(0, i as int), p));
                                }
                            }
                        }
                    }
                    i = i + 1;
                }
                proof {
                    assert(paths@.subrange(0, paths@.len() as int) =~= paths@);
                    assert forall|p: Seq<char>, q: InputsView|
                        #[trigger] self.lookup(p, q) == if !names_path(paths@, p) {
                            None
                        } else if q is None && old(self).lookup(p, q) is None {
                            self.lookup(p, q)
                        } else {
                            old(self).lookup(p, q)
                        } by {
                        assert(mid.lookup(p, q) == if names_path(paths@, p) { old(self).lookup(p, q) } else { None });
                    }
                    assert forall|p: Seq<char>|
                        names_path(paths@, p) && #[trigger] old(self).lookup(p, None) is None implies scheduled(
                            jobs@,
                            p,
                            self.lookup(p, None),
                            old(self).next_version,
                        ) by {
                        assert(mid.lookup(p, None) is None);
                    }
                }
                Effects { replies, jobs }
            },
            _ => {
                let reason = String::from_str(DISCOVERY_UNAVAILABLE);
                let replies = self.hashes.drain(&reason);
                Effects { replies, jobs: Vec::new() }
            },
        }
    }

    /// Drops every state, telling each waiter that the service is
    /// unavailable for `reason`, and then applies the topology snapshot
    /// afresh, so that every named package is hashed again.
    pub fn flush_and_rehash(&mut self, package_data: &Option<Result<Vec<String>, String>>, reason: &String) -> (r: Effects)
        requires
            old(self).wf(),
            package_data matches Some(Ok(paths)) ==> old(self).next_version + paths@.len() <= u64::MAX,
        ensures
            final(self).wf(),
            final(self).next_version >= old(self).next_version,
            forall|j: int| 0 <= j < r.replies@.len() ==> is_unavailable_reply(#[trigger] r.replies@[j], reason@),
            forall|w: u64| #[trigger] replied_to(r.replies@, w) <==> old(self).hashes.waits_outside(Seq::empty(), w),
            match *package_data {
                Some(Ok(paths)) => {
                    &&& forall|p: Seq<char>| #[trigger] final(self).hashes.has_package(p) == names_path(paths@, p)
                    &&& forall|p: Seq<char>, q: InputsView|
                        q is Some ==> #[trigger] final(self).lookup(p, q) is None
                    &&& forall|p: Seq<char>|
                        #[trigger] names_path(paths@, p) ==> scheduled(
                            r.jobs@,
                            p,
                            final(self).lookup(p, None),
                            old(self).next_version,
                        )
                },
                _ => {
                    &&& forall|p: Seq<char>| !#[trigger] final(self).hashes.has_package(p)
                    &&& r.jobs@.len() == 0
                },
            },
    {
        let replies = self.hashes.drain(reason);
        let ghost emptied = *self;
        let effects = self.handle_package_data_update(package_data);
        proof {
            assert forall|w: u64| !emptied.hashes.waits_outside(Seq::empty(), w) by {}
            if effects.replies@.len() > 0 {
                assert(replied_to(effects.replies@, effects.replies@[0].waiter));
            }
            assert forall|p: Seq<char>, q: InputsView| #[trigger] emptied.lookup(p, q) is None by {}
        }
        Effects { replies, jobs: effects.jobs }
    }
}

/// The reason given to the waiters of a package that a topology snapshot
/// no longer names.
pub const REMOVED: &'static str = "package was removed";

/// The reason given to every waiter when no topology is available.
pub const DISCOVERY_UNAVAILABLE: &'static str = "package discovery is unavailable";

/// Whether some job in `jobs` hashes the default spec of `p`, with a version
/// issued at or after `from`, and `st` is that job's pending state with no
/// waiters.
pub open spec fn scheduled(jobs: Seq<HashJob>, p: Seq<char>, st: Option<HashState>, from: u64) -> bool {
    exists|j: int|
        0 <= j < jobs.len() && #[trigger] jobs[j].spec.package_path@ == p && jobs[j].version >= from
            && is_pending(st, jobs[j].version, Seq::empty())
}

proof fn lemma_names_step(paths: Seq<String>, i: int)
    requires
        0 <= i < paths.len(),
    ensures
        forall|p: Seq<char>| #[trigger] names_path(paths.subrange(0, i + 1), p) == (names_path(paths.subrange(0, i), p) || p == paths[i]@),
{
    assert forall|p: Seq<char>| #[trigger] names_path(paths.subrange(0, i + 1), p) == (names_path(paths.subrange(0, i), p) || p == paths[i]@) by {
        if names_path(paths.subrange(0, i + 1), p) {
            let j = choose|j: int| 0 <= j < i + 1 && #[trigger] paths.subrange(0, i + 1)[j]@ == p;
            if j < i {
                assert(paths.subrange(0, i)[j] == paths.subrange(0, i + 1)[j]);
            }
        }
        if names_path(paths.subrange(0, i), p) {
            let j = choose|j: int| 0 <= j < i && #[trigger] paths.subrange(0, i)[j]@ == p;
            assert(paths.subrange(0, i + 1)[j] == paths.subrange(0, i)[j]);
        }
        if p == paths[i]@ {
            assert(paths.subrange(0, i + 1)[i] == paths[i]);
        }
    }
}

/// What answering the query of `waiter` for `hs` does: the answer it gets,
/// and the one change to the index, the waiter joining a pending state.
pub open spec fn query_post(before: Subscriber, after: Subscriber, hs: HashSpec, waiter: u64, r: Option<Reply>) -> bool {
    let target = hs.package_path@;
    let target_inputs = hs.inputs_view();
    &&& after.next_version == before.next_version
    &&& forall|p: Seq<char>| #[trigger] after.hashes.has_package(p) == before.hashes.has_package(p)
    &&& forall|p: Seq<char>, q: InputsView|
        !(p == target && q == target_inputs) ==> #[trigger] after.lookup(p, q) == before.lookup(p, q)
    &&& match before.lookup(target, target_inputs) {
        None => r matches Some(rep) && rep.waiter == waiter && is_unknown_package_reply(rep, target, target_inputs)
            && after.lookup(target, target_inputs) is None,
        Some(HashState::Hashes(h)) => r matches Some(rep) && rep.waiter == waiter && is_hashes_reply(rep, h)
            && after.lookup(target, target_inputs) == Some(HashState::Hashes(h)),
        Some(HashState::Unavailable(reason)) => r matches Some(rep) && rep.waiter == waiter
            && is_hashing_error_reply(rep, reason@) && after.lookup(target, target_inputs) == Some(HashState::Unavailable(reason)),
        Some(HashState::Pending(v, ws)) => r is None && is_pending(after.lookup(target, target_inputs), v, ws@.push(waiter)),
    }
}

/// What a change inside the package rooted at `target` does to its default
/// spec, given whether the pending job's debouncer took the change.
pub open spec fn rehash_post(before: Subscriber, after: Subscriber, target: Seq<char>, bump_accepted: bool, r: Option<HashJob>) -> bool {
    &&& forall|p: Seq<char>|
        #[trigger] after.hashes.has_package(p) == (before.hashes.has_package(p) || p == target)
    &&& forall|p: Seq<char>, q: InputsView|
        !(p == target && q == None::<Seq<Seq<char>>>) ==> #[trigger] after.lookup(p, q) == before.lookup(p, q)
    &&& match before.lookup(target, None) {
        Some(HashState::Pending(v, ws)) => if bump_accepted {
            r is None && after.next_version == before.next_version && after.lookup(target, None) == before.lookup(target, None)
        } else {
            r matches Some(job) && job.version == before.next_version && is_pending(after.lookup(target, None), job.version, ws@)
        },
        _ => r matches Some(job) && job.version == before.next_version && is_pending(
            after.lookup(target, None),
            job.version,
            Seq::empty(),
        ),
    }
    &&& r matches Some(job) ==> job.spec.package_path@ == target && job.spec.inputs_view() is None
        && after.next_version == before.next_version + 1
}

/// Whether `p` is the package of one of `paths`.
pub open spec fn owns_one_of(h: FileHashes, p: Seq<char>, paths: Seq<String>) -> bool {
    exists|i: int| 0 <= i < paths.len() && h.owns(p, #[trigger] paths[i]@)
}

/// Whether a hash outcome with `version` takes effect on the state `st`.
pub open spec fn applies(st: Option<HashState>, version: u64) -> bool {
    st matches Some(HashState::Pending(v, _)) && v == version
}

proof fn lemma_owner_unique(h: FileHashes, p: Seq<char>, q: Seq<char>, file: Seq<char>)
    requires
        h.owns(p, file),
        h.owns(q, file),
    ensures
        p == q,
{
    assert(p.len() == q.len());
    assert(path_key(p).len() == path_key(q).len());
    assert(path_key(p) =~= path_key(file).subrange(0, path_key(p).len() as int));
    assert(path_key(q) =~= path_key(file).subrange(0, path_key(q).len() as int));
    crate::index::lemma_path_key_injective(p, q);
}

} // verus!
