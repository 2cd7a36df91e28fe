use crate::database::{index_map, lemma_index_map_domain, lemma_index_map_update, lemma_index_map_value, unique_keys};
use crate::entry::copy_bytes;
use crate::hash::ContentHash;
use crate::outboard::{hash_of, outboard_and_hash, outboard_of};
use vstd::prelude::*;

verus! {

/// The value of an in-memory store: each hash with its outboard and content.
pub type InMemView = Map<Seq<u8>, (Seq<u8>, Seq<u8>)>;

/// The store after adding `data` under its own hash.
pub open spec fn with_content(m: InMemView, data: Seq<u8>) -> InMemView {
    m.insert(hash_of(data), (outboard_of(data), data))
}

/// The store that adding each content in order builds.
pub open spec fn built_from(contents: Seq<Seq<u8>>) -> InMemView
    decreases contents.len(),
{
    if contents.len() == 0 {
        Map::empty()
    } else {
        with_content(built_from(contents.drop_last()), contents.last())
    }
}

/// The entry at `i` is the last one with its name.
pub open spec fn last_of_name(entries: Seq<(String, Vec<u8>)>, i: int) -> bool {
    forall|j: int| i < j < entries.len() ==> (#[trigger] entries[j]).0@ != entries[i].0@
}

/// A directory pair records the name of an entry and the hash of its content.
pub open spec fn names_entry(n: (String, ContentHash), e: (String, Vec<u8>)) -> bool {
    n.0@ == e.0@ && n.1@ == hash_of(e.1@)
}

/// Pair `t` of the directory records an entry before `n` that is the last
/// with its name.
pub open spec fn names_a_last(names: Seq<(String, ContentHash)>, t: int, entries: Seq<(String, Vec<u8>)>, n: int) -> bool {
    exists|k: int| 0 <= k < n && #[trigger] last_of_name(entries, k) && names_entry(names[t], entries[k])
}

/// Some pair of the directory records entry `k`.
pub open spec fn recorded(names: Seq<(String, ContentHash)>, entries: Seq<(String, Vec<u8>)>, k: int) -> bool {
    exists|t: int| 0 <= t < names.len() && #[trigger] names_entry(names[t], entries[k])
}

/// The directory holds each name at most once.
pub open spec fn names_unique(names: Seq<(String, ContentHash)>) -> bool {
    forall|t: int, u: int| 0 <= t < names.len() && 0 <= u < names.len() && t != u ==> names[t].0@ != names[u].0@
}

/// What a directory built from the first `n` entries holds.
pub open spec fn directory_of(names: Seq<(String, ContentHash)>, entries: Seq<(String, Vec<u8>)>, n: int) -> bool {
    &&& forall|t: int| 0 <= t < names.len() ==> #[trigger] names_a_last(names, t, entries, n)
    &&& forall|k: int| 0 <= k < n && #[trigger] last_of_name(entries, k) ==> recorded(names, entries, k)
    &&& names_unique(names)
}

/// The (name, hash) pair of each entry that is the last with its name, in order.
fn latest_names(entries: &Vec<(String, Vec<u8>)>, hashes: &Vec<ContentHash>) -> (r: Vec<(String, ContentHash)>)
    requires
        hashes@.len() == entries@.len(),
        forall|j: int| 0 <= j < entries@.len() ==> (#[trigger] hashes@[j])@ == hash_of(entries@[j].1@),
    ensures
        directory_of(r@, entries@, entries@.len() as int),
{
    let mut names: Vec<(String, ContentHash)> = Vec::new();
    let mut i: usize = 0;
    while i < entries.len()
        invariant
            0 <= i <= entries@.len(),
            hashes@.len() == entries@.len(),
            forall|j: int| 0 <= j < entries@.len() ==> (#[trigger] hashes@[j])@ == hash_of(entries@[j].1@),
            directory_of(names@, entries@, i as int),
        decreases entries@.len() - i,
    {
        let ghost prev = names@;
        if is_last_of_name(entries, i) {
            let pair = (entries[i].0.clone(), hashes[i]);
            names.push(pair);
            proof {
                lemma_push_latest(entries@, prev, pair, i as int);
            }
        } else {
            proof {
                lemma_skip_latest(entries@, prev, i as int);
            }
        }
        i = i + 1;
    }
    names
}

/// Whether no later entry has the name of entry `i`.
fn is_last_of_name(entries: &Vec<(String, Vec<u8>)>, i: usize) -> (r: bool)
    requires
        i < entries@.len(),
    ensures
        r == last_of_name(entries@, i as int),
{
    let mut j: usize = i;
    while j < entries.len() - 1
        invariant
            i <= j < entries@.len(),
            forall|k: int| i < k <= j ==> (#[trigger] entries@[k]).0@ != entries@[i as int].0@,
        decreases entries@.len() - j,
    {
        j = j + 1;
        if entries[j].0 == entries[i].0 {
            return false;
        }
    }
    true
}

proof fn lemma_skip_latest(entries: Seq<(String, Vec<u8>)>, names: Seq<(String, ContentHash)>, i: int)
    requires
        0 <= i < entries.len(),
        !last_of_name(entries, i),
        directory_of(names, entries, i),
    ensures
        directory_of(names, entries, i + 1),
{
    assert forall|t: int| 0 <= t < names.len() implies #[trigger] names_a_last(names, t, entries, i + 1) by {
        assert(names_a_last(names, t, entries, i));
        let k = choose|k: int| 0 <= k < i && #[trigger] last_of_name(entries, k) && names_entry(names[t], entries[k]);
    }
}

proof fn lemma_push_latest(entries: Seq<(String, Vec<u8>)>, prev: Seq<(String, ContentHash)>, pair: (String, ContentHash), i: int)
    requires
        0 <= i < entries.len(),
        last_of_name(entries, i),
        names_entry(pair, entries[i]),
        directory_of(prev, entries, i),
    ensures
        directory_of(prev.push(pair), entries, i + 1),
{
    let n = prev.push(pair);
    assert forall|t: int| 0 <= t < prev.len() implies (#[trigger] prev[t]).0@ != entries[i].0@ by {
        assert(names_a_last(prev, t, entries, i));
        let k = choose|k: int| 0 <= k < i && #[trigger] last_of_name(entries, k) && names_entry(prev[t], entries[k]);
        assert(entries[i].0@ != entries[k].0@);
    }
    assert forall|t: int| 0 <= t < n.len() implies #[trigger] names_a_last(n, t, entries, i + 1) by {
        if t < prev.len() {
            assert(n[t] == prev[t]);
            assert(names_a_last(prev, t, entries, i));
            let k = choose|k: int| 0 <= k < i && #[trigger] last_of_name(entries, k) && names_entry(prev[t], entries[k]);
            assert(last_of_name(entries, k) && names_entry(n[t], entries[k]));
        } else {
            assert(n[t] == pair);
            assert(last_of_name(entries, i) && names_entry(n[t], entries[i]));
        }
    }
    assert forall|k: int| 0 <= k < i + 1 && #[trigger] last_of_name(entries, k) implies recorded(n, entries, k) by {
        if k < i {
            assert(recorded(prev, entries, k));
            let t = choose|t: int| 0 <= t < prev.len() && #[trigger] names_entry(prev[t], entries[k]);
            assert(n[t] == prev[t]);
            assert(names_entry(n[t], entries[k]));
        } else {
            assert(n[prev.len() as int] == pair);
            assert(names_entry(n[prev.len() as int], entries[k]));
        }
    }
    assert forall|t: int, u: int| 0 <= t < n.len() && 0 <= u < n.len() && t != u implies n[t].0@ != n[u].0@ by {
        if t < prev.len() && u < prev.len() {
            assert(n[t] == prev[t] && n[u] == prev[u]);
        } else if t < prev.len() {
            assert(n[t] == prev[t] && n[u] == pair);
        } else {
            assert(n[u] == prev[u] && n[t] == pair);
        }
    }
}

/// An in-memory store of content addressed by its hash.
pub struct InMemDatabase {
    entries: Vec<(ContentHash, Vec<u8>, Vec<u8>)>,
}

/// Entries of an in-memory store with their outboard and content values.
pub open spec fn inmem_pairs(s: Seq<(ContentHash, Vec<u8>, Vec<u8>)>) -> Seq<(Seq<u8>, (Seq<u8>, Seq<u8>))> {
    s.map_values(|p: (ContentHash, Vec<u8>, Vec<u8>)| (p.0@, (p.1@, p.2@)))
}

impl View for InMemDatabase {
    type V = InMemView;

    closed spec fn view(&self) -> InMemView {
        index_map(inmem_pairs(self.entries@))
    }
}

impl InMemDatabase {
    /// An empty store.
    pub fn empty() -> (r: InMemDatabase)
        ensures
            r.wf(),
            r@ == InMemView::empty(),
    {
        let r = InMemDatabase { entries: Vec::new() };
        assert(inmem_pairs(r.entries@) =~= Seq::empty());
        r
    }

    /// Well-formed: no hash is stored twice.
    pub closed spec fn wf(&self) -> bool {
        unique_keys(inmem_pairs(self.entries@))
    }

    /// Build a store from named contents; also returns the directory from
    /// each name to the hash of its content. Where a name occurs more than
    /// once, its last occurrence wins.
    pub fn new(entries: Vec<(String, Vec<u8>)>) -> (r: (InMemDatabase, Vec<(String, ContentHash)>))
        ensures
            r.0.wf(),
            r.0@ == built_from(entries@.map_values(|e: (String, Vec<u8>)| e.1@)),
            directory_of(r.1@, entries@, entries@.len() as int),
    {
        let ghost contents = entries@.map_values(|e: (String, Vec<u8>)| e.1@);
        let mut db = InMemDatabase::empty();
        let mut hashes: Vec<ContentHash> = Vec::new();
        let mut i: usize = 0;
        while i < entries.len()
            invariant
                0 <= i <= entries@.len(),
                contents == entries@.map_values(|e: (String, Vec<u8>)| e.1@),
                db.wf(),
                db@ == built_from(contents.take(i as int)),
                hashes@.len() == i,
                forall|j: int| 0 <= j < i ==> (#[trigger] hashes@[j])@ == hash_of(entries@[j].1@),
            decreases entries@.len() - i,
        {
            assert(contents.take(i + 1).drop_last() =~= contents.take(i as int));
            assert(contents.take(i + 1).last() == entries@[i as int].1@);
            let hash = db.insert(entries[i].1.as_slice());
            hashes.push(hash);
            i = i + 1;
        }
        assert(contents.take(i as int) =~= contents);
        let names = latest_names(&entries, &hashes);
        (db, names)
    }

    /// Add `data` under its hash, and return the hash.
    pub fn insert(&mut self, data: &[u8]) -> (r: ContentHash)
        requires
            old(self).wf(),
        ensures
            final(self).wf(),
            r@ == hash_of(data@),
            final(self)@ == with_content(old(self)@, data@),
    {
        let (outboard, hash) = outboard_and_hash(data);
        let ghost s = inmem_pairs(self.entries@);
        let ghost x = (hash@, (outboard@, data@));
        let mut i: usize = 0;
        while i < self.entries.len()
            invariant
                0 <= i <= self.entries@.len(),
                s == inmem_pairs(self.entries@),
                unique_keys(s),
                x == (hash@, (outboard@, data@)),
                hash@ == hash_of(data@),
                outboard@ == outboard_of(data@),
                self@ == old(self)@,
                forall|j: int| 0 <= j < i ==> self.entries@[j].0@ != hash@,
            decreases self.entries@.len() - i,
        {
            if self.entries[i].0.same(&hash) {
                proof {
                    lemma_index_map_update(s, i as int, x);
                }
                let d = copy_bytes(data);
                self.entries[i] = (hash, outboard, d);
                assert(inmem_pairs(self.entries@)[i as int] == x);
                assert(inmem_pairs(self.entries@) =~= s.update(i as int, x));
                return hash;
            }
            i = i + 1;
        }
        proof {
            lemma_index_map_domain(s);
        }
        self.entries.push((hash, outboard, copy_bytes(data)));
        assert(inmem_pairs(self.entries@).drop_last() =~= s);
        assert(inmem_pairs(self.entries@) =~= s.push(x));
        hash
    }

    /// The content stored under `hash`.
    pub fn get(&self, hash: &ContentHash) -> (r: Option<Vec<u8>>)
        requires
            self.wf(),
        ensures
            r matches Some(d) ==> self@.contains_key(hash@) && d@ == self@[hash@].1,
            r is None ==> !self@.contains_key(hash@),
    {
        let ghost s = inmem_pairs(self.entries@);
        let mut j: usize = self.entries.len();
        while j > 0
            invariant
                j <= self.entries@.len(),
                s == inmem_pairs(self.entries@),
                unique_keys(s),
                forall|k: int| j <= k < s.len() ==> s[k].0 != hash@,
            decreases j,
        {
            if self.entries[j - 1].0.same(hash) {
                proof {
                    lemma_index_map_value(s, j - 1);
                }
                return Some(copy_bytes(&self.entries[j - 1].2));
            }
            j = j - 1;
        }
        proof {
            lemma_index_map_domain(s);
            if self@.contains_key(hash@) {
                let i = choose|i: int| 0 <= i < s.len() && s[i].0 == hash@;
                assert(s[i].0 != hash@);
            }
        }
        None
    }

    /// Every stored hash, each once.
    pub fn blobs(&self) -> (r: Vec<ContentHash>)
        requires
            self.wf(),
        ensures
            forall|k: Seq<u8>| self@.contains_key(k) <==> exists|i: int| 0 <= i < r@.len() && (#[trigger] r@[i])@ == k,
            forall|i: int, j: int| 0 <= i < r@.len() && 0 <= j < r@.len() && i != j ==> r@[i]@ != r@[j]@,
    {
        let ghost s = inmem_pairs(self.entries@);
        let mut r: Vec<ContentHash> = Vec::new();
        let mut i: usize = 0;
        while i < self.entries.len()
            invariant
                0 <= i <= self.entries@.len(),
                s == inmem_pairs(self.entries@),
                r@.len() == i,
                forall|j: int| 0 <= j < i ==> (#[trigger] r@[j])@ == s[j].0,
            decreases self.entries@.len() - i,
        {
            r.push(self.entries[i].0);
            i = i + 1;
        }
        proof {
            lemma_index_map_domain(s);
            assert forall|k: Seq<u8>| self@.contains_key(k) implies exists|i: int| 0 <= i < r@.len() && (#[trigger] r@[i])@ == k by {
                let i = choose|i: int| 0 <= i < s.len() && s[i].0 == k;
                assert(r@[i]@ == k);
            }
            assert forall|i: int, j: int| 0 <= i < r@.len() && 0 <= j < r@.len() && i != j implies r@[i]@ != r@[j]@ by {
                assert(s[i].0 != s[j].0);
            }
        }
        r
    }

    /// An in-memory store has no roots.
    pub fn roots(&self) -> (r: Vec<ContentHash>)
        ensures
            r@.len() == 0,
    {
        Vec::new()
    }
}

/// The handle that a lookup in an in-memory store hands out.
pub struct InMemDatabaseEntry {
    pub hash: ContentHash,
    pub outboard: Vec<u8>,
    pub data: Vec<u8>,
}

impl InMemDatabase {
    /// The entry handle for `hash`: a pure index probe.
    pub fn lookup(&self, hash: &ContentHash) -> (r: Option<InMemDatabaseEntry>)
        requires
            self.wf(),
        ensures
            r matches Some(e) ==> e.hash == *hash && self@.contains_key(hash@) && (e.outboard@, e.data@) == self@[hash@],
            r is None ==> !self@.contains_key(hash@),
    {
        let ghost s = inmem_pairs(self.entries@);
        let mut j: usize = 0;
        while j < self.entries.len()
            invariant
                0 <= j <= self.entries@.len(),
                s == inmem_pairs(self.entries@),
                unique_keys(s),
                forall|k: int| 0 <= k < j ==> s[k].0 != hash@,
            decreases self.entries@.len() - j,
        {
            if self.entries[j].0.same(hash) {
                proof {
                    lemma_index_map_value(s, j as int);
                }
                return Some(InMemDatabaseEntry {
                    hash: *hash,
                    outboard: copy_bytes(&self.entries[j].1),
                    data: copy_bytes(&self.entries[j].2),
                });
            }
            j = j + 1;
        }
        proof {
            lemma_index_map_domain(s);
            if self@.contains_key(hash@) {
                let i = choose|i: int| 0 <= i < s.len() && s[i].0 == hash@;
                assert(s[i].0 != hash@);
            }
        }
        None
    }
}

/// Content addressing is deterministic: adding equal content twice gives the
/// same hash both times and leaves the store as adding it once does.
pub proof fn insert_twice_same_hash(m: InMemView, a: Seq<u8>, b: Seq<u8>)
    requires
        a == b,
    ensures
        hash_of(a) == hash_of(b),
        with_content(with_content(m, a), b) == with_content(m, a),
{
    assert(with_content(with_content(m, a), b) =~= with_content(m, a));
}

} // verus!
