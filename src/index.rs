use crate::state::{inputs_view, same_inputs, waiters_of, Error, HashSpec, HashState, InputsView, Reply};
use radix_trie::{Trie, TrieCommon};
use vstd::prelude::*;
use vstd::string::StringExecFns;

verus! {

#[verifier::external_type_specification]
#[verifier::external_body]
#[verifier::reject_recursive_types(K)]
#[verifier::reject_recursive_types(V)]
pub struct ExTrie<K, V>(Trie<K, V>);

/// The state of one spec under a package.
pub struct SpecEntry {
    pub inputs: Option<Vec<String>>,
    pub state: HashState,
}

/// Everything the index holds for one package: its root and one state per
/// input-glob set.
pub struct PackageStates {
    pub package_path: String,
    pub entries: Vec<SpecEntry>,
}

/// What a trie of package states holds, keyed by the characters of each key.
pub uninterp spec fn trie_contents(t: Trie<String, PackageStates>) -> Map<Seq<char>, PackageStates>;

/// Relies on `radix_trie::Trie::new`: a trie with no keys.
#[verifier::external_body]
fn trie_new() -> (r: Trie<String, PackageStates>)
    ensures
        trie_contents(r) =~= Map::empty(),
{
    Trie::new()
}

/// Relies on `radix_trie::Trie::get`: the value stored under exactly `key`.
#[verifier::external_body]
fn trie_get<'a>(t: &'a Trie<String, PackageStates>, key: &String) -> (r: Option<&'a PackageStates>)
    ensures
        r is Some <==> trie_contents(*t).contains_key(key@),
        r matches Some(v) ==> *v == trie_contents(*t)[key@],
{
    t.get(key)
}

/// Relies on `radix_trie::Trie::insert`: stores `value` under `key` and hands
/// back what was stored there before.
#[verifier::external_body]
fn trie_insert(t: &mut Trie<String, PackageStates>, key: String, value: PackageStates) -> (r: Option<PackageStates>)
    ensures
        trie_contents(*final(t)) == trie_contents(*old(t)).insert(key@, value),
        r is Some <==> trie_contents(*old(t)).contains_key(key@),
        r matches Some(v) ==> v == trie_contents(*old(t))[key@],
{
    t.insert(key, value)
}

/// Relies on `radix_trie::Trie::remove`: takes out the value stored under
/// `key`, if any.
#[verifier::external_body]
fn trie_remove(t: &mut Trie<String, PackageStates>, key: &String) -> (r: Option<PackageStates>)
    ensures
        trie_contents(*final(t)) == trie_contents(*old(t)).remove(key@),
        r is Some <==> trie_contents(*old(t)).contains_key(key@),
        r matches Some(v) ==> v == trie_contents(*old(t))[key@],
{
    t.remove(key)
}

/// Relies on `radix_trie::TrieCommon::keys`: every key of the trie, each once.
#[verifier::external_body]
fn trie_keys(t: &Trie<String, PackageStates>) -> (r: Vec<String>)
    ensures
        forall|i: int| 0 <= i < r@.len() ==> trie_contents(*t).contains_key(#[trigger] r@[i]@),
        forall|k: Seq<char>| #[trigger] trie_contents(*t).contains_key(k) ==> exists|i: int|
            0 <= i < r@.len() && r@[i]@ == k,
        forall|i: int, j: int| 0 <= i < j < r@.len() ==> r@[i]@ != r@[j]@,
{
    t.keys().cloned().collect()
}

/// Relies on `radix_trie::Trie::get_ancestor_value`: the value under the
/// longest key that is a prefix of `key`. Keys are compared as UTF-8 bytes,
/// and one string's bytes start another's exactly when its characters do.
#[verifier::external_body]
fn trie_ancestor<'a>(t: &'a Trie<String, PackageStates>, key: &String) -> (r: Option<&'a PackageStates>)
    ensures
        r matches Some(v) ==> exists|a: Seq<char>|
            #![trigger trie_contents(*t)[a]]
            trie_contents(*t).contains_key(a) && a.is_prefix_of(key@) && trie_contents(*t)[a] == *v
                && forall|b: Seq<char>|
                #[trigger] trie_contents(*t).contains_key(b) && b.is_prefix_of(key@) ==> b.len()
                    <= a.len(),
        r is None ==> forall|b: Seq<char>| #[trigger]
            trie_contents(*t).contains_key(b) ==> !b.is_prefix_of(key@),
{
    t.get_ancestor_value(key)
}

/// The trie key of a repository-relative path: the path between two
/// separators, or a lone separator for the repository root. With paths free
/// of empty components, one key starts another exactly when the first path
/// is the second or one of its ancestor directories, so `foo` never claims
/// `foobar`.
pub open spec fn path_key(p: Seq<char>) -> Seq<char> {
    if p.len() == 0 {
        seq!['/']
    } else {
        seq!['/'] + p + seq!['/']
    }
}

/// Whether the package rooted at `package` contains `file` (or is it).
pub open spec fn is_ancestor_path(package: Seq<char>, file: Seq<char>) -> bool {
    path_key(package).is_prefix_of(path_key(file))
}

pub proof fn lemma_path_key_injective(p: Seq<char>, q: Seq<char>)
    requires
        path_key(p) == path_key(q),
    ensures
        p == q,
{
    if p.len() != 0 && q.len() != 0 {
        assert(p =~= path_key(p).subrange(1, path_key(p).len() - 1));
        assert(q =~= path_key(q).subrange(1, path_key(q).len() - 1));
    } else if p.len() != 0 {
        assert(path_key(p).len() != path_key(q).len());
    } else if q.len() != 0 {
        assert(path_key(p).len() != path_key(q).len());
    } else {
        assert(p =~= q);
    }
}

fn make_path_key(p: &String) -> (r: String)
    ensures
        r@ == path_key(p@),
{
    proof {
        reveal_strlit("/");
    }
    if p.as_str().is_empty() {
        String::from_str("/")
    } else {
        let r = String::from_str("/").concat(p.as_str()).concat("/");
        proof {
            assert(r@ =~= path_key(p@));
        }
        r
    }
}

/// Whether some entry has the given inputs.
pub open spec fn has_entry(es: Seq<SpecEntry>, inputs: InputsView) -> bool {
    exists|i: int| 0 <= i < es.len() && inputs_view(#[trigger] es[i].inputs) == inputs
}

/// The state of the entry with the given inputs.
pub open spec fn entry_state(es: Seq<SpecEntry>, inputs: InputsView) -> HashState
    recommends
        has_entry(es, inputs),
{
    es[choose|i: int| 0 <= i < es.len() && inputs_view(#[trigger] es[i].inputs) == inputs].state
}

/// No two entries share their inputs.
pub open spec fn distinct_inputs(es: Seq<SpecEntry>) -> bool {
    forall|i: int, j: int|
        0 <= i < es.len() && 0 <= j < es.len() && i != j ==> inputs_view(#[trigger] es[i].inputs)
            != inputs_view(#[trigger] es[j].inputs)
}

/// The waiters of every state in a package, entry by entry.
pub open spec fn package_waiters(es: Seq<SpecEntry>) -> Seq<u64>
    decreases es.len(),
{
    if es.len() == 0 {
        Seq::empty()
    } else {
        package_waiters(es.drop_last()) + waiters_of(es.last().state)
    }
}

pub proof fn lemma_entry_state_at(es: Seq<SpecEntry>, i: int)
    requires
        distinct_inputs(es),
        0 <= i < es.len(),
    ensures
        has_entry(es, inputs_view(es[i].inputs)),
        entry_state(es, inputs_view(es[i].inputs)) == es[i].state,
{
    let inputs = inputs_view(es[i].inputs);
    assert(0 <= i < es.len() && inputs_view(es[i].inputs) == inputs);
    let j = choose|j: int| 0 <= j < es.len() && inputs_view(#[trigger] es[j].inputs) == inputs;
    assert(j == i);
}

proof fn lemma_package_waiters_step(es: Seq<SpecEntry>, i: int)
    requires
        0 <= i < es.len(),
    ensures
        package_waiters(es.subrange(0, i + 1)) == package_waiters(es.subrange(0, i)) + waiters_of(
            es[i].state,
        ),
{
    assert(es.subrange(0, i + 1).drop_last() =~= es.subrange(0, i));
}

/// Whether `r` tells its waiter that the service is unavailable for `reason`.
pub open spec fn is_unavailable_reply(r: Reply, reason: Seq<char>) -> bool {
    r.result matches Err(Error::Unavailable(s)) && s@ == reason
}

/// Whether some reply goes to waiter `w`.
pub open spec fn replied_to(replies: Seq<Reply>, w: u64) -> bool {
    exists|j: int| 0 <= j < replies.len() && #[trigger] replies[j].waiter == w
}

/// Whether `names` holds the path `p`.
pub open spec fn names_path(names: Seq<String>, p: Seq<char>) -> bool {
    exists|i: int| 0 <= i < names.len() && #[trigger] names[i]@ == p
}

pub fn contains_path(names: &Vec<String>, p: &String) -> (r: bool)
    ensures
        r == names_path(names@, p@),
{
    let mut i: usize = 0;
    while i < names.len()
        invariant
            i <= names@.len(),
            forall|j: int| 0 <= j < i ==> names@[j]@ != p@,
        decreases names@.len() - i,
    {
        if names[i] == *p {
            return true;
        }
        i = i + 1;
    }
    false
}

/// Appends, to `replies`, an unavailable answer for each waiter of `ps`, in
/// entry order.
fn reply_unavailable(replies: &mut Vec<Reply>, ps: &PackageStates, reason: &String)
    ensures
        final(replies)@.len() == old(replies)@.len() + package_waiters(ps.entries@).len(),
        forall|j: int| 0 <= j < old(replies)@.len() ==> #[trigger] final(replies)@[j] == old(replies)@[j],
        forall|j: int|
            0 <= j < package_waiters(ps.entries@).len() ==> #[trigger] final(replies)@[old(
                replies,
            )@.len() + j].waiter == package_waiters(ps.entries@)[j],
        forall|j: int|
            old(replies)@.len() <= j < final(replies)@.len() ==> is_unavailable_reply(
                #[trigger] final(replies)@[j],
                reason@,
            ),
{
    let ghost es = ps.entries@;
    let ghost start = replies@.len();
    let ghost before = replies@;
    let mut i: usize = 0;
    proof {
        assert(es.subrange(0, 0).len() == 0);
        assert(package_waiters(es.subrange(0, 0)) =~= Seq::<u64>::empty());
    }
    while i < ps.entries.len()
        invariant
            es == ps.entries@,
            i <= es.len(),
            start == before.len(),
            replies@.len() == start + package_waiters(es.subrange(0, i as int)).len(),
            forall|j: int| 0 <= j < start ==> #[trigger] replies@[j] == before[j],
            forall|j: int|
                0 <= j < package_waiters(es.subrange(0, i as int)).len() ==> #[trigger] replies@[start
                    + j].waiter == package_waiters(es.subrange(0, i as int))[j],
            forall|j: int|
                start <= j < replies@.len() ==> is_unavailable_reply(#[trigger] replies@[j], reason@),
        decreases es.len() - i,
    {
        proof {
            lemma_package_waiters_step(es, i as int);
        }
        let ghost done = package_waiters(es.subrange(0, i as int));
        match &ps.entries[i].state {
            HashState::Pending(_, waiters) => {
                let mut k: usize = 0;
                while k < waiters.len()
                    invariant
                        k <= waiters@.len(),
                        start == before.len(),
                        replies@.len() == start + done.len() + k,
                        forall|j: int| 0 <= j < start ==> #[trigger] replies@[j] == before[j],
                        forall|j: int|
                            0 <= j < done.len() ==> #[trigger] replies@[start + j].waiter == done[j],
                        forall|j: int|
                            0 <= j < k ==> #[trigger] replies@[start + done.len() + j].waiter
                                == waiters@[j],
                        forall|j: int|
                            start <= j < replies@.len() ==> is_unavailable_reply(
                                #[trigger] replies@[j],
                                reason@,
                            ),
                    decreases waiters@.len() - k,
                {
                    replies.push(Reply { waiter: waiters[k], result: Err(Error::Unavailable(reason.clone())) });
                    k = k + 1;
                }
                proof {
                    let now = package_waiters(es.subrange(0, i + 1));
                    assert(now == done + waiters@);
                    assert forall|j: int| 0 <= j < now.len() implies #[trigger] replies@[start + j].waiter
                        == now[j] by {
                        if j >= done.len() {
                            let t = j - done.len();
                            assert(replies@[start + done.len() + t].waiter == waiters@[t]);
                        }
                    }
                }
            },
            _ => {
                proof {
                    assert(package_waiters(es.subrange(0, i + 1)) =~= done);
                }
            },
        }
        i = i + 1;
    }
    proof {
        assert(es.subrange(0, es.len() as int) =~= es);
    }
}

impl PackageStates {
    /// The position of the entry with the given inputs.
    pub fn find(&self, inputs: &Option<Vec<String>>) -> (r: Option<usize>)
        ensures
            r matches Some(i) ==> i < self.entries@.len() && inputs_view(self.entries@[i as int].inputs)
                == inputs_view(*inputs),
            r is None ==> !has_entry(self.entries@, inputs_view(*inputs)),
    {
        let mut i: usize = 0;
        while i < self.entries.len()
            invariant
                i <= self.entries@.len(),
                forall|j: int|
                    0 <= j < i ==> inputs_view(#[trigger] self.entries@[j].inputs) != inputs_view(
                        *inputs,
                    ),
            decreases self.entries@.len() - i,
        {
            if same_inputs(&self.entries[i].inputs, inputs) {
                return Some(i);
            }
            i = i + 1;
        }
        None
    }

    /// Sets the state of the given inputs, adding an entry if there is none.
    pub fn set_state(&mut self, inputs: Option<Vec<String>>, state: HashState)
        requires
            distinct_inputs(old(self).entries@),
        ensures
            final(self).package_path == old(self).package_path,
            distinct_inputs(final(self).entries@),
            has_entry(final(self).entries@, inputs_view(inputs)),
            entry_state(final(self).entries@, inputs_view(inputs)) == state,
            forall|q: InputsView|
                q != inputs_view(inputs) ==> (has_entry(final(self).entries@, q) == has_entry(
                    old(self).entries@,
                    q,
                ) && (has_entry(old(self).entries@, q) ==> entry_state(final(self).entries@, q)
                    == entry_state(old(self).entries@, q))),
    {
        let ghost old_es = self.entries@;
        let ghost key = inputs_view(inputs);
        match self.find(&inputs) {
            Some(i) => {
                self.entries.set(i, SpecEntry { inputs, state });
                proof {
                    let es = self.entries@;
                    assert(distinct_inputs(es));
                    lemma_entry_state_at(es, i as int);
                    assert forall|q: InputsView| q != key implies (has_entry(es, q) == has_entry(
                        old_es,
                        q,
                    ) && (has_entry(old_es, q) ==> entry_state(es, q) == entry_state(old_es, q))) by {
                        if has_entry(old_es, q) {
                            let j = choose|j: int|
                                0 <= j < old_es.len() && inputs_view(#[trigger] old_es[j].inputs)
                                    == q;
                            assert(es[j] == old_es[j]);
                            lemma_entry_state_at(old_es, j);
                            lemma_entry_state_at(es, j);
                        }
                        if has_entry(es, q) {
                            let j = choose|j: int|
                                0 <= j < es.len() && inputs_view(#[trigger] es[j].inputs) == q;
                            assert(old_es[j] == es[j]);
                        }
                    }
                }
            },
            None => {
                self.entries.push(SpecEntry { inputs, state });
                proof {
                    let es = self.entries@;
                    let n = old_es.len() as int;
                    assert(inputs_view(es[n].inputs) == key);
                    assert(distinct_inputs(es));
                    lemma_entry_state_at(es, n);
                    assert forall|q: InputsView| q != key implies (has_entry(es, q) == has_entry(
                        old_es,
                        q,
                    ) && (has_entry(old_es, q) ==> entry_state(es, q) == entry_state(old_es, q))) by {
                        if has_entry(old_es, q) {
                            let j = choose|j: int|
                                0 <= j < old_es.len() && inputs_view(#[trigger] old_es[j].inputs)
                                    == q;
                            assert(es[j] == old_es[j]);
                            lemma_entry_state_at(old_es, j);
                            lemma_entry_state_at(es, j);
                        }
                        if has_entry(es, q) {
                            let j = choose|j: int|
                                0 <= j < es.len() && inputs_view(#[trigger] es[j].inputs) == q;
                            assert(j != n);
                            assert(old_es[j] == es[j]);
                        }
                    }
                }
            },
        }
    }

    /// Takes out the state of the given inputs, if there is one.
    pub fn take_state(&mut self, inputs: &Option<Vec<String>>) -> (r: Option<HashState>)
        requires
            distinct_inputs(old(self).entries@),
        ensures
            final(self).package_path == old(self).package_path,
            distinct_inputs(final(self).entries@),
            r is Some <==> has_entry(old(self).entries@, inputs_view(*inputs)),
            r matches Some(st) ==> st == entry_state(old(self).entries@, inputs_view(*inputs)),
            !has_entry(final(self).entries@, inputs_view(*inputs)),
            forall|q: InputsView|
                q != inputs_view(*inputs) ==> (has_entry(final(self).entries@, q) == has_entry(
                    old(self).entries@,
                    q,
                ) && (has_entry(old(self).entries@, q) ==> entry_state(final(self).entries@, q)
                    == entry_state(old(self).entries@, q))),
    {
        let ghost old_es = self.entries@;
        let ghost key = inputs_view(*inputs);
        match self.find(inputs) {
            None => {
                proof {
                    assert forall|q: InputsView| q != key implies (has_entry(self.entries@, q)
                        == has_entry(old_es, q) && (has_entry(old_es, q) ==> entry_state(
                        self.entries@,
                        q,
                    ) == entry_state(old_es, q))) by {}
                }
                None
            },
            Some(i) => {
                proof {
                    lemma_entry_state_at(old_es, i as int);
                }
                let entry = self.entries.remove(i);
                proof {
                    let es = self.entries@;
                    assert(es =~= old_es.remove(i as int));
                    assert(distinct_inputs(es)) by {
                        assert forall|a: int, b: int|
                            0 <= a < es.len() && 0 <= b < es.len() && a != b implies inputs_view(
                            #[trigger] es[a].inputs,
                        ) != inputs_view(#[trigger] es[b].inputs) by {
                            let a2 = if a < i { a } else { a + 1 };
                            let b2 = if b < i { b } else { b + 1 };
                            assert(es[a] == old_es[a2]);
                            assert(es[b] == old_es[b2]);
                        }
                    }
                    if has_entry(es, key) {
                        let j = choose|j: int|
                            0 <= j < es.len() && inputs_view(#[trigger] es[j].inputs) == key;
                        let j2 = if j < i { j } else { j + 1 };
                        assert(es[j] == old_es[j2]);
                    }
                    assert forall|q: InputsView| q != key implies (has_entry(es, q) == has_entry(
                        old_es,
                        q,
                    ) && (has_entry(old_es, q) ==> entry_state(es, q) == entry_state(old_es, q))) by {
                        if has_entry(old_es, q) {
                            let j = choose|j: int|
                                0 <= j < old_es.len() && inputs_view(#[trigger] old_es[j].inputs)
                                    == q;
                            assert(j != i);
                            let j2 = if j < i { j } else { j - 1 };
                            assert(es[j2] == old_es[j]);
                            lemma_entry_state_at(old_es, j);
                            lemma_entry_state_at(es, j2);
                        }
                        if has_entry(es, q) {
                            let j = choose|j: int|
                                0 <= j < es.len() && inputs_view(#[trigger] es[j].inputs) == q;
                            let j2 = if j < i { j } else { j + 1 };
                            assert(es[j] == old_es[j2]);
                        }
                    }
                }
                Some(entry.state)
            },
        }
    }
}

/// The package index: a prefix trie from package roots to their states.
pub struct FileHashes {
    pub trie: Trie<String, PackageStates>,
}

impl FileHashes {
    pub open spec fn contents(&self) -> Map<Seq<char>, PackageStates> {
        trie_contents(self.trie)
    }

    /// Each key is the key of the package stored under it, and no package
    /// holds two states for one input set.
    pub open spec fn wf(&self) -> bool {
        forall|a: Seq<char>| #[trigger]
            self.contents().contains_key(a) ==> a == path_key(self.contents()[a].package_path@)
                && distinct_inputs(self.contents()[a].entries@)
    }

    /// Whether the package rooted at `p` is known.
    pub open spec fn has_package(&self, p: Seq<char>) -> bool {
        self.contents().contains_key(path_key(p))
    }

    /// The state of a spec, if the index holds one.
    pub open spec fn lookup(&self, p: Seq<char>, inputs: InputsView) -> Option<HashState> {
        if self.has_package(p) && has_entry(self.contents()[path_key(p)].entries@, inputs) {
            Some(entry_state(self.contents()[path_key(p)].entries@, inputs))
        } else {
            None
        }
    }

    /// Whether `w` waits on a state of a known package whose root `keep`
    /// does not name.
    pub open spec fn waits_outside(&self, keep: Seq<String>, w: u64) -> bool {
        exists|p: Seq<char>|
            #[trigger] self.has_package(p) && !names_path(keep, p) && package_waiters(
                self.contents()[path_key(p)].entries@,
            ).contains(w)
    }

    /// An empty index.
    pub fn new() -> (r: FileHashes)
        ensures
            r.wf(),
            forall|p: Seq<char>| !r.has_package(p),
    {
        FileHashes { trie: trie_new() }
    }

    /// Whether the index holds a state for the spec.
    pub fn contains_key(&self, key: &HashSpec) -> (r: bool)
        ensures
            r == self.lookup(key.package_path@, key.inputs_view()) is Some,
    {
        let k = make_path_key(&key.package_path);
        match trie_get(&self.trie, &k) {
            Some(ps) => ps.find(&key.inputs).is_some(),
            None => false,
        }
    }

    /// The state of a spec, if the index holds one.
    pub fn get(&self, key: &HashSpec) -> (r: Option<&HashState>)
        requires
            self.wf(),
        ensures
            r is Some <==> self.lookup(key.package_path@, key.inputs_view()) is Some,
            r matches Some(st) ==> self.lookup(key.package_path@, key.inputs_view()) == Some(*st),
    {
        let k = make_path_key(&key.package_path);
        match trie_get(&self.trie, &k) {
            Some(ps) => match ps.find(&key.inputs) {
                Some(i) => {
                    proof {
                        lemma_entry_state_at(ps.entries@, i as int);
                    }
                    Some(&ps.entries[i].state)
                },
                None => None,
            },
            None => None,
        }
    }

    /// Whether `p` is the root of the package that `file` belongs to: the
    /// longest known package root that is the file's path or one of its
    /// ancestors.
    pub open spec fn owns(&self, p: Seq<char>, file: Seq<char>) -> bool {
        &&& self.has_package(p)
        &&& is_ancestor_path(p, file)
        &&& forall|q: Seq<char>|
            #[trigger] self.has_package(q) && is_ancestor_path(q, file) ==> q.len() <= p.len()
    }

    /// Sets the state of a spec, keeping the other specs of its package.
    pub fn insert(&mut self, key: HashSpec, value: HashState)
        requires
            old(self).wf(),
        ensures
            final(self).wf(),
            forall|p: Seq<char>|
                #[trigger] final(self).has_package(p) == (old(self).has_package(p) || p
                    == key.package_path@),
            final(self).lookup(key.package_path@, key.inputs_view()) == Some(value),
            forall|p: Seq<char>, q: InputsView|
                !(p == key.package_path@ && q == key.inputs_view()) ==> #[trigger] final(self).lookup(
                    p,
                    q,
                ) == old(self).lookup(p, q),
    {
        let ghost kp = key.package_path@;
        let ghost kq = key.inputs_view();
        let k = make_path_key(&key.package_path);
        let ghost before = self.contents();
        let ps = match trie_remove(&mut self.trie, &k) {
            Some(mut ps) => {
                ps.set_state(key.inputs, value);
                ps
            },
            None => {
                let mut entries: Vec<SpecEntry> = Vec::new();
                entries.push(SpecEntry { inputs: key.inputs, state: value });
                let ps = PackageStates { package_path: key.package_path, entries };
                proof {
                    lemma_entry_state_at(ps.entries@, 0);
                }
                ps
            },
        };
        let ghost new_ps = ps;
        trie_insert(&mut self.trie, k, ps);
        proof {
            let after = self.contents();
            assert(after == before.insert(path_key(kp), new_ps));
            assert forall|p: Seq<char>, q: InputsView|
                !(p == kp && q == kq) implies #[trigger] self.lookup(p, q) == old(self).lookup(p, q) by {
                if path_key(p) == path_key(kp) {
                    lemma_path_key_injective(p, kp);
                }
            }
            assert forall|p: Seq<char>| #[trigger] self.has_package(p) == (old(self).has_package(p) || p
                == kp) by {
                if path_key(p) == path_key(kp) {
                    lemma_path_key_injective(p, kp);
                }
            }
        }
    }

    /// Takes the state of a spec out of the index; its package stays known.
    pub fn take(&mut self, key: &HashSpec) -> (r: Option<HashState>)
        requires
            old(self).wf(),
        ensures
            final(self).wf(),
            r == old(self).lookup(key.package_path@, key.inputs_view()),
            forall|p: Seq<char>| #[trigger] final(self).has_package(p) == old(self).has_package(p),
            final(self).lookup(key.package_path@, key.inputs_view()) is None,
            forall|p: Seq<char>, q: InputsView|
                !(p == key.package_path@ && q == key.inputs_view()) ==> #[trigger] final(self).lookup(
                    p,
                    q,
                ) == old(self).lookup(p, q),
    {
        let ghost kp = key.package_path@;
        let ghost kq = key.inputs_view();
        let k = make_path_key(&key.package_path);
        let ghost before = self.contents();
        match trie_remove(&mut self.trie, &k) {
            None => {
                proof {
                    assert(self.contents() == before);
                }
                None
            },
            Some(mut ps) => {
                let r = ps.take_state(&key.inputs);
                let ghost new_ps = ps;
                trie_insert(&mut self.trie, k, ps);
                proof {
                    let after = self.contents();
                    assert(after == before.insert(path_key(kp), new_ps));
                    assert(before.remove(path_key(kp)).insert(path_key(kp), new_ps) == after);
                    assert forall|p: Seq<char>, q: InputsView|
                        !(p == kp && q == kq) implies #[trigger] self.lookup(p, q) == old(self).lookup(
                        p,
                        q,
                    ) by {
                        if path_key(p) == path_key(kp) {
                            lemma_path_key_injective(p, kp);
                        }
                    }
                    assert forall|p: Seq<char>| #[trigger] self.has_package(p) == old(
                        self,
                    ).has_package(p) by {
                        if path_key(p) == path_key(kp) {
                            lemma_path_key_injective(p, kp);
                        }
                    }
                }
                r
            },
        }
    }

    /// The root of the package that contains `file_path`: the longest known
    /// package root that is the path or one of its ancestor directories.
    pub fn get_package_path(&self, file_path: &String) -> (r: Option<String>)
        requires
            self.wf(),
        ensures
            r matches Some(p) ==> self.has_package(p@) && is_ancestor_path(p@, file_path@) && forall|
                q: Seq<char>,
            |
                #[trigger] self.has_package(q) && is_ancestor_path(q, file_path@) ==> q.len()
                    <= p@.len(),
            r is None ==> forall|q: Seq<char>| #[trigger]
                self.has_package(q) ==> !is_ancestor_path(q, file_path@),
    {
        let k = make_path_key(file_path);
        match trie_ancestor(&self.trie, &k) {
            Some(ps) => {
                let r = ps.package_path.clone();
                proof {
                    let a = choose|a: Seq<char>|
                        #![trigger self.contents()[a]]
                        self.contents().contains_key(a) && a.is_prefix_of(k@) && self.contents()[a]
                            == *ps && forall|b: Seq<char>|
                            #[trigger] self.contents().contains_key(b) && b.is_prefix_of(k@)
                                ==> b.len() <= a.len();
                    assert(a == path_key(r@));
                    assert forall|q: Seq<char>|
                        #[trigger] self.has_package(q) && is_ancestor_path(q, file_path@) implies q.len()
                        <= r@.len() by {
                        assert(path_key(q).len() <= path_key(r@).len());
                    }
                }
                Some(r)
            },
            None => None,
        }
    }

    /// Removes every package whose root `keep` does not name, answering each
    /// waiter of a removed package that the service is unavailable for
    /// `reason`. Returns those answers.
    pub fn drop_matching(&mut self, keep: &Vec<String>, reason: &String) -> (r: Vec<Reply>)
        requires
            old(self).wf(),
        ensures
            final(self).wf(),
            forall|p: Seq<char>|
                #[trigger] final(self).has_package(p) == (old(self).has_package(p) && names_path(
                    keep@,
                    p,
                )),
            forall|p: Seq<char>, q: InputsView|
                #[trigger] final(self).lookup(p, q) == if names_path(keep@, p) {
                    old(self).lookup(p, q)
                } else {
                    None
                },
            forall|j: int| 0 <= j < r@.len() ==> is_unavailable_reply(#[trigger] r@[j], reason@),
            forall|w: u64| #[trigger] replied_to(r@, w) <==> old(self).waits_outside(keep@, w),
    {
        let ghost before = self.contents();
        let keys = trie_keys(&self.trie);
        let mut replies: Vec<Reply> = Vec::new();
        let mut i: usize = 0;
        while i < keys.len()
            invariant
                self.wf(),
                i <= keys@.len(),
                forall|t: int| 0 <= t < keys@.len() ==> before.contains_key(#[trigger] keys@[t]@),
                forall|k: Seq<char>| #[trigger] before.contains_key(k) ==> exists|t: int|
                    0 <= t < keys@.len() && keys@[t]@ == k,
                forall|s: int, t: int| 0 <= s < t < keys@.len() ==> keys@[s]@ != keys@[t]@,
                forall|k: Seq<char>|
                    #[trigger] self.contents().contains_key(k) == (before.contains_key(k) && (!(exists|
                        t: int,
                    | 0 <= t < i && keys@[t]@ == k) || names_path(keep@, before[k].package_path@))),
                forall|k: Seq<char>| #[trigger]
                    self.contents().contains_key(k) ==> self.contents()[k] == before[k],
                forall|j: int| 0 <= j < replies@.len() ==> is_unavailable_reply(#[trigger] replies@[j], reason@),
                forall|w: u64|
                    #[trigger] replied_to(replies@, w) <==> (exists|t: int|
                        0 <= t < i && !names_path(keep@, before[keys@[t]@].package_path@)
                            && #[trigger] package_waiters(before[keys@[t]@].entries@).contains(w)),
            decreases keys@.len() - i,
        {
            let ghost cur = self.contents();
            let ghost key = keys@[i as int]@;
            assert(cur.contains_key(key));
            let ps = trie_remove(&mut self.trie, &keys[i]).unwrap();
            if contains_path(keep, &ps.package_path) {
                trie_insert(&mut self.trie, keys[i].clone(), ps);
                proof {
                    assert(self.contents() =~= cur);
                }
            } else {
                let ghost old_replies = replies@;
                reply_unavailable(&mut replies, &ps, reason);
                proof {
                    let pw = package_waiters(ps.entries@);
                    assert forall|w: u64|
                        #[trigger] replied_to(replies@, w) <==> (exists|t: int|
                            0 <= t < i + 1 && !names_path(keep@, before[keys@[t]@].package_path@)
                                && #[trigger] package_waiters(before[keys@[t]@].entries@).contains(
                                w,
                            )) by {
                        if replied_to(replies@, w) {
                            let j = choose|j: int| 0 <= j < replies@.len() && #[trigger] replies@[j].waiter == w;
                            if j < old_replies.len() {
                                assert(old_replies[j].waiter == w);
                                assert(replied_to(old_replies, w));
                            } else {
                                let m = j - old_replies.len();
                                assert(replies@[old_replies.len() + m].waiter == pw[m]);
                                assert(package_waiters(before[keys@[i as int]@].entries@).contains(w));
                            }
                        }
                        if exists|t: int|
                            0 <= t < i + 1 && !names_path(keep@, before[keys@[t]@].package_path@)
                                && #[trigger] package_waiters(before[keys@[t]@].entries@).contains(w) {
                            let t = choose|t: int|
                                0 <= t < i + 1 && !names_path(keep@, before[keys@[t]@].package_path@)
                                    && #[trigger] package_waiters(before[keys@[t]@].entries@).contains(w);
                            if t < i {
                                assert(replied_to(old_replies, w));
                                let j = choose|j: int| 0 <= j < old_replies.len() && #[trigger] old_replies[j].waiter == w;
                                assert(replies@[j] == old_replies[j]);
                            } else {
                                let m = choose|m: int| 0 <= m < pw.len() && pw[m] == w;
                                assert(replies@[old_replies.len() + m].waiter == pw[m]);
                            }
                        }
                    }
                }
            }
            i = i + 1;
        }
        proof {
            let after = self.contents();
            assert forall|p: Seq<char>|
                #[trigger] self.has_package(p) == (old(self).has_package(p) && names_path(keep@, p)) by {
                let k = path_key(p);
                if before.contains_key(k) {
                    let t = choose|t: int| 0 <= t < keys@.len() && keys@[t]@ == k;
                    assert(k == path_key(before[k].package_path@));
                    lemma_path_key_injective(p, before[k].package_path@);
                }
            }
            assert forall|p: Seq<char>, q: InputsView|
                #[trigger] self.lookup(p, q) == if names_path(keep@, p) {
                    old(self).lookup(p, q)
                } else {
                    None
                } by {
                let k = path_key(p);
                if before.contains_key(k) {
                    let t = choose|t: int| 0 <= t < keys@.len() && keys@[t]@ == k;
                    lemma_path_key_injective(p, before[k].package_path@);
                }
                assert(after.contains_key(k) == (before.contains_key(k) && names_path(keep@, p)));
                if after.contains_key(k) {
                    assert(after[k] == before[k]);
                }
            }
            assert forall|w: u64| #[trigger] replied_to(replies@, w) <==> old(self).waits_outside(keep@, w) by {
                if replied_to(replies@, w) {
                    let t = choose|t: int|
                        0 <= t < keys@.len() && !names_path(keep@, before[keys@[t]@].package_path@)
                            && #[trigger] package_waiters(before[keys@[t]@].entries@).contains(w);
                    let p = before[keys@[t]@].package_path@;
                    assert(old(self).has_package(p));
                }
                if exists|p: Seq<char>|
                    #[trigger] old(self).has_package(p) && !names_path(keep@, p) && package_waiters(
                        old(self).contents()[path_key(p)].entries@,
                    ).contains(w) {
                    let p = choose|p: Seq<char>|
                        #[trigger] old(self).has_package(p) && !names_path(keep@, p) && package_waiters(
                            old(self).contents()[path_key(p)].entries@,
                        ).contains(w);
                    let k = path_key(p);
                    let t = choose|t: int| 0 <= t < keys@.len() && keys@[t]@ == k;
                    lemma_path_key_injective(p, before[k].package_path@);
                    assert(package_waiters(before[keys@[t]@].entries@).contains(w));
                }
            }
        }
        replies
    }

    /// Removes every package, answering each waiter that the service is
    /// unavailable for `reason`.
    pub fn drain(&mut self, reason: &String) -> (r: Vec<Reply>)
        requires
            old(self).wf(),
        ensures
            final(self).wf(),
            forall|p: Seq<char>| !#[trigger] final(self).has_package(p),
            forall|j: int| 0 <= j < r@.len() ==> is_unavailable_reply(#[trigger] r@[j], reason@),
            forall|w: u64| #[trigger] replied_to(r@, w) <==> old(self).waits_outside(Seq::empty(), w),
    {
        let keep: Vec<String> = Vec::new();
        let r = self.drop_matching(&keep, reason);
        proof {
            assert(keep@ =~= Seq::<String>::empty());
        }
        r
    }
}

} // verus!
