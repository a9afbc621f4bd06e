use vstd::prelude::*;

verus! {

/// The abstract form of an input-glob set: `None` for the package's default
/// inputs, otherwise the globs in the order given.
pub type InputsView = Option<Seq<Seq<char>>>;

pub open spec fn inputs_view(inputs: Option<Vec<String>>) -> InputsView {
    match inputs {
        Some(globs) => Some(globs@.map_values(|g: String| g@)),
        None => None,
    }
}

/// The key of a query and of an index entry: a package root, relative to the
/// repository root, and an optional set of input globs used verbatim.
#[derive(Debug)]
pub struct HashSpec {
    pub package_path: String,
    pub inputs: Option<Vec<String>>,
}

impl HashSpec {
    pub open spec fn package_view(&self) -> Seq<char> {
        self.package_path@
    }

    pub open spec fn inputs_view(&self) -> InputsView {
        inputs_view(self.inputs)
    }

    /// A copy with the same package path and inputs.
    pub fn duplicate(&self) -> (r: HashSpec)
        ensures
            r.package_path@ == self.package_path@,
            r.inputs_view() == self.inputs_view(),
    {
        HashSpec { package_path: self.package_path.clone(), inputs: copy_inputs(&self.inputs) }
    }
}

/// Copies an input-glob set.
pub fn copy_inputs(inputs: &Option<Vec<String>>) -> (r: Option<Vec<String>>)
    ensures
        inputs_view(r) == inputs_view(*inputs),
{
    match inputs {
        None => None,
        Some(globs) => {
            let mut out: Vec<String> = Vec::new();
            let mut i: usize = 0;
            while i < globs.len()
                invariant
                    i <= globs@.len(),
                    out@.len() == i,
                    forall|j: int| 0 <= j < i ==> out@[j]@ == globs@[j]@,
                decreases globs@.len() - i,
            {
                out.push(globs[i].clone());
                i = i + 1;
            }
            proof {
                assert(out@.map_values(|g: String| g@) =~= globs@.map_values(|g: String| g@));
            }
            Some(out)
        },
    }
}

/// Whether two input-glob sets are the same, glob by glob.
pub fn same_inputs(a: &Option<Vec<String>>, b: &Option<Vec<String>>) -> (r: bool)
    ensures
        r == (inputs_view(*a) == inputs_view(*b)),
{
    if a.is_none() || b.is_none() {
        return a.is_none() && b.is_none();
    }
    let x = a.as_ref().unwrap();
    let y = b.as_ref().unwrap();
    {
        {
            if x.len() != y.len() {
                proof {
                    assert(inputs_view(*a).unwrap().len() == x@.len());
                    assert(inputs_view(*b).unwrap().len() == y@.len());
                }
                return false;
            }
            let mut i: usize = 0;
            while i < x.len()
                invariant
                    i <= x@.len(),
                    x@.len() == y@.len(),
                    *a == Some(*x),
                    *b == Some(*y),
                    forall|j: int| 0 <= j < i ==> x@[j]@ == y@[j]@,
                decreases x@.len() - i,
            {
                let same = x[i] == y[i];
                if !same {
                    proof {
                        assert(inputs_view(*a).unwrap()[i as int] == x@[i as int]@);
                        assert(inputs_view(*b).unwrap()[i as int] == y@[i as int]@);
                    }
                    return false;
                }
                i = i + 1;
            }
            proof {
                assert(inputs_view(*a).unwrap() =~= inputs_view(*b).unwrap());
            }
            true
        }
    }
}

/// The content hashes of a package's files: pairs of a package-relative file
/// path and its hash, as the hashing facility produced them.
#[derive(Debug)]
pub struct GitHashes {
    pub entries: Vec<(String, String)>,
}

impl GitHashes {
    pub fn new() -> (r: GitHashes)
        ensures
            r.entries@.len() == 0,
    {
        GitHashes { entries: Vec::new() }
    }

    /// Adds one file's hash.
    pub fn insert(&mut self, path: String, hash: String)
        ensures
            final(self).entries@ == old(self).entries@.push((path, hash)),
    {
        self.entries.push((path, hash));
    }

    /// A copy holding the same pairs in the same order.
    pub fn duplicate(&self) -> (r: GitHashes)
        ensures
            r.entries@ == self.entries@,
    {
        let mut out: Vec<(String, String)> = Vec::new();
        let mut i: usize = 0;
        while i < self.entries.len()
            invariant
                i <= self.entries@.len(),
                out@ == self.entries@.subrange(0, i as int),
            decreases self.entries@.len() - i,
        {
            let (path, hash) = &self.entries[i];
            out.push((path.clone(), hash.clone()));
            proof {
                assert(out@ =~= self.entries@.subrange(0, i + 1));
            }
            i = i + 1;
        }
        proof {
            assert(out@ =~= self.entries@);
        }
        GitHashes { entries: out }
    }
}

/// The errors a query can be answered with.
#[derive(Debug)]
pub enum Error {
    /// Hashing the package failed; carries the facility's message.
    HashingError(String),
    /// The service cannot answer at all right now.
    Unavailable(String),
    /// The spec names no package of the current topology.
    UnknownPackage(HashSpec),
}

/// The hash state of one spec.
#[derive(Debug)]
pub enum HashState {
    /// The last computation succeeded.
    Hashes(GitHashes),
    /// A computation stamped with the version is scheduled or running; the
    /// waiters are the queries that arrived meanwhile, oldest first.
    Pending(u64, Vec<u64>),
    /// The last computation failed, for the given reason.
    Unavailable(String),
}

/// An answer owed to the query that registered as `waiter`.
#[derive(Debug)]
pub struct Reply {
    pub waiter: u64,
    pub result: Result<GitHashes, Error>,
}

/// The waiters of a state: those of a pending state, none otherwise.
pub open spec fn waiters_of(state: HashState) -> Seq<u64> {
    match state {
        HashState::Pending(_, waiters) => waiters@,
        _ => Seq::empty(),
    }
}

} // verus!
