use crate::entry::{DbEntry, EntryView};
use crate::hash::ContentHash;
use vstd::prelude::*;

verus! {

/// A sequence of (hash, entry) values.
pub type Pairs = Seq<(Seq<u8>, EntryView)>;

/// The values of a list of (hash, entry) pairs.
pub open spec fn pairs_view(s: Seq<(ContentHash, DbEntry)>) -> Pairs {
    s.map_values(|p: (ContentHash, DbEntry)| (p.0@, p.1@))
}

/// No hash occurs twice.
pub open spec fn unique_keys<V>(s: Seq<(Seq<u8>, V)>) -> bool {
    forall|i: int, j: int| 0 <= i < s.len() && 0 <= j < s.len() && i != j ==> s[i].0 != s[j].0
}

/// The map that inserting the pairs in order builds: a later pair replaces an
/// earlier one with the same hash.
pub open spec fn index_map<V>(s: Seq<(Seq<u8>, V)>) -> Map<Seq<u8>, V>
    decreases s.len(),
{
    if s.len() == 0 {
        Map::empty()
    } else {
        index_map(s.drop_last()).insert(s.last().0, s.last().1)
    }
}

/// `m` with each pair of `s` added in order, unless its hash is already there.
pub open spec fn merged(m: Map<Seq<u8>, EntryView>, s: Pairs) -> Map<Seq<u8>, EntryView>
    decreases s.len(),
{
    if s.len() == 0 {
        m
    } else {
        let prev = merged(m, s.drop_last());
        if prev.contains_key(s.last().0) {
            prev
        } else {
            prev.insert(s.last().0, s.last().1)
        }
    }
}

pub proof fn lemma_index_map_domain<V>(s: Seq<(Seq<u8>, V)>)
    ensures
        forall|k: Seq<u8>| #[trigger] index_map(s).contains_key(k) <==> exists|i: int| 0 <= i < s.len() && s[i].0 == k,
    decreases s.len(),
{
    if s.len() > 0 {
        let t = s.drop_last();
        lemma_index_map_domain(t);
        assert(index_map(s) == index_map(t).insert(s.last().0, s.last().1));
        assert forall|k: Seq<u8>| #[trigger] index_map(s).contains_key(k) <==> exists|i: int| 0 <= i < s.len() && s[i].0 == k by {
            if index_map(s).contains_key(k) && k != s.last().0 {
                assert(index_map(t).contains_key(k));
                let i = choose|i: int| 0 <= i < t.len() && t[i].0 == k;
                assert(s[i].0 == k);
            }
            if exists|i: int| 0 <= i < s.len() && s[i].0 == k {
                let i = choose|i: int| 0 <= i < s.len() && s[i].0 == k;
                if i < s.len() - 1 {
                    assert(t[i].0 == k);
                }
            }
        }
    }
}

pub proof fn lemma_index_map_len<V>(s: Seq<(Seq<u8>, V)>)
    requires
        unique_keys(s),
    ensures
        index_map(s).dom().finite(),
        index_map(s).len() == s.len(),
    decreases s.len(),
{
    if s.len() > 0 {
        let t = s.drop_last();
        assert(unique_keys(t));
        lemma_index_map_len(t);
        lemma_index_map_domain(t);
        if index_map(t).contains_key(s.last().0) {
            let i = choose|i: int| 0 <= i < t.len() && t[i].0 == s.last().0;
            assert(s[i].0 == s[s.len() - 1].0);
        }
        assert(index_map(s).dom() == index_map(t).dom().insert(s.last().0));
    }
}

pub proof fn lemma_index_map_value<V>(s: Seq<(Seq<u8>, V)>, i: int)
    requires
        unique_keys(s),
        0 <= i < s.len(),
    ensures
        index_map(s).contains_key(s[i].0),
        index_map(s)[s[i].0] == s[i].1,
    decreases s.len(),
{
    if i < s.len() - 1 {
        let t = s.drop_last();
        assert(unique_keys(t));
        assert(t[i] == s[i]);
        lemma_index_map_value(t, i);
    }
}

pub proof fn lemma_index_map_update<V>(s: Seq<(Seq<u8>, V)>, i: int, x: (Seq<u8>, V))
    requires
        unique_keys(s),
        0 <= i < s.len(),
        s[i].0 == x.0,
    ensures
        unique_keys(s.update(i, x)),
        index_map(s.update(i, x)) == index_map(s).insert(x.0, x.1),
    decreases s.len(),
{
    let u = s.update(i, x);
    if i == s.len() - 1 {
        assert(u.drop_last() =~= s.drop_last());
        assert(index_map(u) =~= index_map(s).insert(x.0, x.1));
    } else {
        let t = s.drop_last();
        assert(unique_keys(t));
        lemma_index_map_update(t, i, x);
        assert(u.drop_last() =~= t.update(i, x));
        assert(s.last().0 != x.0);
        assert(index_map(u) =~= index_map(s).insert(x.0, x.1));
    }
}

/// Adding pairs never replaces what `m` holds, and adds exactly the new hashes.
pub proof fn lemma_merged(m: Map<Seq<u8>, EntryView>, s: Pairs)
    ensures
        forall|k: Seq<u8>| m.contains_key(k) ==> #[trigger] merged(m, s).contains_key(k) && merged(m, s)[k] == m[k],
        forall|k: Seq<u8>| #[trigger] merged(m, s).contains_key(k) <==> (m.contains_key(k) || exists|i: int| 0 <= i < s.len() && s[i].0 == k),
    decreases s.len(),
{
    if s.len() > 0 {
        let t = s.drop_last();
        lemma_merged(m, t);
        let prev = merged(m, t);
        let x = s.last();
        assert(merged(m, s) == if prev.contains_key(x.0) { prev } else { prev.insert(x.0, x.1) });
        assert forall|k: Seq<u8>| m.contains_key(k) implies #[trigger] merged(m, s).contains_key(k) && merged(m, s)[k] == m[k] by {
            assert(prev.contains_key(k));
        }
        assert forall|k: Seq<u8>| #[trigger] merged(m, s).contains_key(k) <==> (m.contains_key(k) || exists|i: int| 0 <= i < s.len() && s[i].0 == k) by {
            if exists|i: int| 0 <= i < s.len() && s[i].0 == k {
                let i = choose|i: int| 0 <= i < s.len() && s[i].0 == k;
                if i < s.len() - 1 {
                    assert(t[i].0 == k);
                    assert(prev.contains_key(k));
                }
            }
            if prev.contains_key(k) && !m.contains_key(k) {
                let i = choose|i: int| 0 <= i < t.len() && t[i].0 == k;
                assert(s[i].0 == k);
            }
        }
    }
}

/// The content-addressed index: each hash maps to one entry.
pub struct Database {
    pub(crate) entries: Vec<(ContentHash, DbEntry)>,
}

impl View for Database {
    type V = Map<Seq<u8>, EntryView>;

    closed spec fn view(&self) -> Map<Seq<u8>, EntryView> {
        index_map(pairs_view(self.entries@))
    }
}

impl Database {
    /// Well-formed: no hash is stored twice.
    pub closed spec fn wf(&self) -> bool {
        unique_keys(pairs_view(self.entries@))
    }

    /// The stored pairs, in storage order.
    pub closed spec fn pairs(&self) -> Pairs {
        pairs_view(self.entries@)
    }

    pub(crate) proof fn lemma_pairs(&self)
        ensures
            self.pairs() == pairs_view(self.entries@),
            self@ == index_map(self.pairs()),
            self.wf() == unique_keys(self.pairs()),
    {
    }

    /// An empty database.
    pub fn new() -> (r: Database)
        ensures
            r.wf(),
            r@ == Map::<Seq<u8>, EntryView>::empty(),
    {
        let r = Database { entries: Vec::new() };
        assert(pairs_view(r.entries@) =~= Seq::empty());
        r
    }

    /// Position of `key` in the entry list.
    fn find(&self, key: &ContentHash) -> (r: Option<usize>)
        ensures
            r matches Some(i) ==> i < self.entries@.len() && self.entries@[i as int].0@ == key@,
            r is None ==> forall|i: int| 0 <= i < self.entries@.len() ==> self.entries@[i].0@ != key@,
    {
        let mut i: usize = 0;
        while i < self.entries.len()
            invariant
                0 <= i <= self.entries@.len(),
                forall|j: int| 0 <= j < i ==> self.entries@[j].0@ != key@,
            decreases self.entries@.len() - i,
        {
            if self.entries[i].0.same(key) {
                return Some(i);
            }
            i = i + 1;
        }
        None
    }

    proof fn lemma_find_none(&self, key: Seq<u8>)
        requires
            forall|i: int| 0 <= i < self.entries@.len() ==> self.entries@[i].0@ != key,
        ensures
            !self@.contains_key(key),
    {
        let s = pairs_view(self.entries@);
        lemma_index_map_domain(s);
        if self@.contains_key(key) {
            let i = choose|i: int| 0 <= i < s.len() && s[i].0 == key;
            assert(self.entries@[i].0@ == key);
        }
    }

    /// The entry stored for `key`, if any.
    pub fn get(&self, key: &ContentHash) -> (r: Option<DbEntry>)
        requires
            self.wf(),
        ensures
            r matches Some(e) ==> self@.contains_key(key@) && e@ == self@[key@],
            r is None ==> !self@.contains_key(key@),
    {
        match self.find(key) {
            Some(i) => {
                proof {
                    lemma_index_map_value(pairs_view(self.entries@), i as int);
                }
                Some(self.entries[i].1.duplicate())
            },
            None => {
                proof {
                    self.lemma_find_none(key@);
                }
                None
            },
        }
    }

    /// Store `value` under `key`, replacing what was there.
    pub(crate) fn put(&mut self, key: ContentHash, value: DbEntry)
        requires
            old(self).wf(),
        ensures
            final(self).wf(),
            final(self)@ == old(self)@.insert(key@, value@),
    {
        let ghost s = pairs_view(self.entries@);
        match self.find(&key) {
            Some(i) => {
                proof {
                    lemma_index_map_update(s, i as int, (key@, value@));
                }
                self.entries[i] = (key, value);
                assert(pairs_view(self.entries@) =~= s.update(i as int, (key@, value@)));
            },
            None => {
                proof {
                    self.lemma_find_none(key@);
                }
                self.entries.push((key, value));
                assert(pairs_view(self.entries@) =~= s.push((key@, value@)));
                assert(pairs_view(self.entries@).drop_last() =~= s);
            },
        }
    }

    /// Add every pair of `other` whose hash is not present yet; an entry that is
    /// already stored is never replaced.
    pub fn union_with(&mut self, other: Vec<(ContentHash, DbEntry)>)
        requires
            old(self).wf(),
        ensures
            final(self).wf(),
            final(self)@ == merged(old(self)@, pairs_view(other@)),
            forall|k: Seq<u8>| old(self)@.contains_key(k) ==> #[trigger] final(self)@.contains_key(k) && final(self)@[k] == old(self)@[k],
            forall|k: Seq<u8>| #[trigger] final(self)@.contains_key(k) <==> (old(self)@.contains_key(k) || exists|i: int| 0 <= i < other@.len() && other@[i].0@ == k),
    {
        let ghost o = pairs_view(other@);
        let mut i: usize = 0;
        while i < other.len()
            invariant
                0 <= i <= other@.len(),
                o == pairs_view(other@),
                self.wf(),
                self@ == merged(old(self)@, o.take(i as int)),
            decreases other@.len() - i,
        {
            assert(o.take(i + 1).drop_last() =~= o.take(i as int));
            match self.find(&other[i].0) {
                Some(j) => {
                    proof {
                        lemma_index_map_value(pairs_view(self.entries@), j as int);
                    }
                },
                None => {
                    proof {
                        self.lemma_find_none(other@[i as int].0@);
                    }
                    self.put(other[i].0, other[i].1.duplicate());
                },
            }
            i = i + 1;
        }
        assert(o.take(i as int) =~= o);
        proof {
            lemma_merged(old(self)@, o);
            assert forall|k: Seq<u8>| #[trigger] self@.contains_key(k) <==> (old(self)@.contains_key(k) || exists|i: int| 0 <= i < other@.len() && other@[i].0@ == k) by {
                if exists|i: int| 0 <= i < other@.len() && other@[i].0@ == k {
                    let i = choose|i: int| 0 <= i < other@.len() && other@[i].0@ == k;
                    assert(o[i].0 == k);
                }
            }
        }
    }
}


/// Whether an entry is of the wanted kind: any kind for `None`, external for
/// `Some(true)`, internal for `Some(false)`.
pub open spec fn kind_matches(e: EntryView, want: Option<bool>) -> bool {
    match want {
        None => true,
        Some(ext) => (e is External) == ext,
    }
}

impl Database {
    /// Positions, in increasing order, of the entries of the wanted kind.
    fn select(&self, want: Option<bool>) -> (r: Vec<usize>)
        ensures
            forall|t: int| 0 <= t < r@.len() ==> (#[trigger] r@[t]) < self.entries@.len() && kind_matches(self.entries@[r@[t] as int].1@, want),
            forall|t: int, u: int| 0 <= t < u < r@.len() ==> r@[t] < r@[u],
            forall|j: int| 0 <= j < self.entries@.len() && kind_matches(#[trigger] self.entries@[j].1@, want) ==> exists|t: int| 0 <= t < r@.len() && r@[t] == j,
    {
        let mut r: Vec<usize> = Vec::new();
        let mut i: usize = 0;
        while i < self.entries.len()
            invariant
                0 <= i <= self.entries@.len(),
                forall|t: int| 0 <= t < r@.len() ==> (#[trigger] r@[t]) < i && kind_matches(self.entries@[r@[t] as int].1@, want),
                forall|t: int, u: int| 0 <= t < u < r@.len() ==> r@[t] < r@[u],
                forall|j: int| 0 <= j < i && kind_matches(#[trigger] self.entries@[j].1@, want) ==> exists|t: int| 0 <= t < r@.len() && r@[t] == j,
            decreases self.entries@.len() - i,
        {
            let take = match want {
                None => true,
                Some(ext) => self.entries[i].1.is_external() == ext,
            };
            let ghost prev = r@;
            if take {
                r.push(i);
                assert(r@[r@.len() - 1] == i);
            }
            proof {
                assert forall|j: int| 0 <= j < i + 1 && kind_matches(#[trigger] self.entries@[j].1@, want) implies exists|t: int| 0 <= t < r@.len() && r@[t] == j by {
                    if j < i {
                        let t = choose|t: int| 0 <= t < prev.len() && prev[t] == j;
                        assert(r@[t] == j);
                    } else {
                        assert(r@[r@.len() - 1] == j);
                    }
                }
            }
            i = i + 1;
        }
        r
    }

    /// What the selected positions say of the index.
    proof fn lemma_selected(&self, pos: Seq<usize>, want: Option<bool>)
        requires
            self.wf(),
            forall|t: int| 0 <= t < pos.len() ==> (#[trigger] pos[t]) < self.entries@.len() && kind_matches(self.entries@[pos[t] as int].1@, want),
            forall|t: int, u: int| 0 <= t < u < pos.len() ==> pos[t] < pos[u],
            forall|j: int| 0 <= j < self.entries@.len() && kind_matches(#[trigger] self.entries@[j].1@, want) ==> exists|t: int| 0 <= t < pos.len() && pos[t] == j,
        ensures
            forall|t: int| 0 <= t < pos.len() ==> self@.contains_key(#[trigger] self.entries@[pos[t] as int].0@) && self@[self.entries@[pos[t] as int].0@] == self.entries@[pos[t] as int].1@,
            forall|t: int, u: int| 0 <= t < pos.len() && 0 <= u < pos.len() && t != u ==> self.entries@[pos[t] as int].0@ != self.entries@[pos[u] as int].0@,
            forall|k: Seq<u8>| self@.contains_key(k) && kind_matches(#[trigger] self@[k], want) ==> exists|t: int| 0 <= t < pos.len() && self.entries@[pos[t] as int].0@ == k,
    {
        let s = pairs_view(self.entries@);
        lemma_index_map_domain(s);
        assert forall|t: int| 0 <= t < pos.len() implies self@.contains_key(#[trigger] self.entries@[pos[t] as int].0@) && self@[self.entries@[pos[t] as int].0@] == self.entries@[pos[t] as int].1@ by {
            lemma_index_map_value(s, pos[t] as int);
        }
        assert forall|t: int, u: int| 0 <= t < pos.len() && 0 <= u < pos.len() && t != u implies self.entries@[pos[t] as int].0@ != self.entries@[pos[u] as int].0@ by {
            assert(s[pos[t] as int].0 != s[pos[u] as int].0);
        }
        assert forall|k: Seq<u8>| self@.contains_key(k) && kind_matches(#[trigger] self@[k], want) implies exists|t: int| 0 <= t < pos.len() && self.entries@[pos[t] as int].0@ == k by {
            let j = choose|j: int| 0 <= j < s.len() && s[j].0 == k;
            lemma_index_map_value(s, j);
            assert(kind_matches(self.entries@[j].1@, want));
            let t = choose|t: int| 0 <= t < pos.len() && pos[t] == j;
            assert(self.entries@[pos[t] as int].0@ == k);
        }
    }

    /// Every stored hash, each once.
    pub fn blobs(&self) -> (r: Vec<ContentHash>)
        requires
            self.wf(),
        ensures
            forall|k: Seq<u8>| self@.contains_key(k) <==> exists|i: int| 0 <= i < r@.len() && (#[trigger] r@[i])@ == k,
            forall|i: int, j: int| 0 <= i < r@.len() && 0 <= j < r@.len() && i != j ==> r@[i]@ != r@[j]@,
    {
        let pos = self.select(None);
        proof {
            self.lemma_selected(pos@, None);
        }
        let mut r: Vec<ContentHash> = Vec::new();
        let mut t: usize = 0;
        while t < pos.len()
            invariant
                0 <= t <= pos@.len(),
                r@.len() == t,
                forall|u: int| 0 <= u < pos@.len() ==> (#[trigger] pos@[u]) < self.entries@.len(),
                forall|u: int| 0 <= u < t ==> (#[trigger] r@[u]) == self.entries@[pos@[u] as int].0,
            decreases pos@.len() - t,
        {
            r.push(self.entries[pos[t]].0);
            t = t + 1;
        }
        proof {
            assert forall|k: Seq<u8>| self@.contains_key(k) implies exists|i: int| 0 <= i < r@.len() && (#[trigger] r@[i])@ == k by {
                assert(kind_matches(self@[k], None));
                let u = choose|u: int| 0 <= u < pos@.len() && self.entries@[pos@[u] as int].0@ == k;
                assert(r@[u]@ == k);
            }
        }
        r
    }

    /// The hashes of internal entries, each once.
    pub fn roots(&self) -> (r: Vec<ContentHash>)
        requires
            self.wf(),
        ensures
            forall|k: Seq<u8>| (self@.contains_key(k) && self@[k] is Internal) <==> exists|i: int| 0 <= i < r@.len() && (#[trigger] r@[i])@ == k,
            forall|i: int, j: int| 0 <= i < r@.len() && 0 <= j < r@.len() && i != j ==> r@[i]@ != r@[j]@,
    {
        let pos = self.select(Some(false));
        proof {
            self.lemma_selected(pos@, Some(false));
        }
        let mut r: Vec<ContentHash> = Vec::new();
        let mut t: usize = 0;
        while t < pos.len()
            invariant
                0 <= t <= pos@.len(),
                r@.len() == t,
                forall|u: int| 0 <= u < pos@.len() ==> (#[trigger] pos@[u]) < self.entries@.len(),
                forall|u: int| 0 <= u < t ==> (#[trigger] r@[u]) == self.entries@[pos@[u] as int].0,
            decreases pos@.len() - t,
        {
            r.push(self.entries[pos[t]].0);
            t = t + 1;
        }
        proof {
            assert forall|k: Seq<u8>| self@.contains_key(k) && self@[k] is Internal implies exists|i: int| 0 <= i < r@.len() && (#[trigger] r@[i])@ == k by {
                assert(kind_matches(self@[k], Some(false)));
                let u = choose|u: int| 0 <= u < pos@.len() && self.entries@[pos@[u] as int].0@ == k;
                assert(r@[u]@ == k);
            }
            assert forall|k: Seq<u8>| (exists|i: int| 0 <= i < r@.len() && (#[trigger] r@[i])@ == k) implies self@.contains_key(k) && self@[k] is Internal by {
                let i = choose|i: int| 0 <= i < r@.len() && (#[trigger] r@[i])@ == k;
                assert(kind_matches(self.entries@[pos@[i] as int].1@, Some(false)));
            }
        }
        r
    }

    /// Hash, path and declared size of every external entry, each hash once.
    pub fn external(&self) -> (r: Vec<(ContentHash, String, u64)>)
        requires
            self.wf(),
        ensures
            forall|i: int| 0 <= i < r@.len() ==> self@.contains_key((#[trigger] r@[i]).0@) && self@[r@[i].0@] == (EntryView::External {
                outboard: self@[r@[i].0@].outboard(),
                path: r@[i].1@,
                size: r@[i].2,
            }),
            forall|k: Seq<u8>| self@.contains_key(k) && self@[k] is External ==> exists|i: int| 0 <= i < r@.len() && (#[trigger] r@[i]).0@ == k,
            forall|i: int, j: int| 0 <= i < r@.len() && 0 <= j < r@.len() && i != j ==> r@[i].0@ != r@[j].0@,
    {
        let pos = self.select(Some(true));
        proof {
            self.lemma_selected(pos@, Some(true));
        }
        let mut r: Vec<(ContentHash, String, u64)> = Vec::new();
        let mut t: usize = 0;
        while t < pos.len()
            invariant
                0 <= t <= pos@.len(),
                r@.len() == t,
                forall|u: int| 0 <= u < pos@.len() ==> (#[trigger] pos@[u]) < self.entries@.len() && kind_matches(self.entries@[pos@[u] as int].1@, Some(true)),
                forall|u: int| 0 <= u < t ==> (#[trigger] r@[u]).0 == self.entries@[pos@[u] as int].0 && self.entries@[pos@[u] as int].1@ == (EntryView::External {
                    outboard: self.entries@[pos@[u] as int].1@.outboard(),
                    path: r@[u].1@,
                    size: r@[u].2,
                }),
            decreases pos@.len() - t,
        {
            let p = pos[t];
            match &self.entries[p].1 {
                DbEntry::External { path, size, .. } => {
                    r.push((self.entries[p].0, path.clone(), *size));
                },
                DbEntry::Internal { .. } => {},
            }
            t = t + 1;
        }
        proof {
            assert forall|k: Seq<u8>| self@.contains_key(k) && self@[k] is External implies exists|i: int| 0 <= i < r@.len() && (#[trigger] r@[i]).0@ == k by {
                assert(kind_matches(self@[k], Some(true)));
                let u = choose|u: int| 0 <= u < pos@.len() && self.entries@[pos@[u] as int].0@ == k;
                assert(r@[u].0@ == k);
            }
        }
        r
    }

    /// Hash and content of every internal entry, each hash once.
    pub fn internal(&self) -> (r: Vec<(ContentHash, Vec<u8>)>)
        requires
            self.wf(),
        ensures
            forall|i: int| 0 <= i < r@.len() ==> self@.contains_key((#[trigger] r@[i]).0@) && self@[r@[i].0@] == (EntryView::Internal {
                outboard: self@[r@[i].0@].outboard(),
                data: r@[i].1@,
            }),
            forall|k: Seq<u8>| self@.contains_key(k) && self@[k] is Internal ==> exists|i: int| 0 <= i < r@.len() && (#[trigger] r@[i]).0@ == k,
            forall|i: int, j: int| 0 <= i < r@.len() && 0 <= j < r@.len() && i != j ==> r@[i].0@ != r@[j].0@,
    {
        let pos = self.select(Some(false));
        proof {
            self.lemma_selected(pos@, Some(false));
        }
        let mut r: Vec<(ContentHash, Vec<u8>)> = Vec::new();
        let mut t: usize = 0;
        while t < pos.len()
            invariant
                0 <= t <= pos@.len(),
                r@.len() == t,
                forall|u: int| 0 <= u < pos@.len() ==> (#[trigger] pos@[u]) < self.entries@.len() && kind_matches(self.entries@[pos@[u] as int].1@, Some(false)),
                forall|u: int| 0 <= u < t ==> (#[trigger] r@[u]).0 == self.entries@[pos@[u] as int].0 && self.entries@[pos@[u] as int].1@ == (EntryView::Internal {
                    outboard: self.entries@[pos@[u] as int].1@.outboard(),
                    data: r@[u].1@,
                }),
            decreases pos@.len() - t,
        {
            let p = pos[t];
            match &self.entries[p].1 {
                DbEntry::Internal { data, .. } => {
                    r.push((self.entries[p].0, crate::entry::copy_bytes(data)));
                },
                DbEntry::External { .. } => {},
            }
            t = t + 1;
        }
        proof {
            assert forall|k: Seq<u8>| self@.contains_key(k) && self@[k] is Internal implies exists|i: int| 0 <= i < r@.len() && (#[trigger] r@[i]).0@ == k by {
                assert(kind_matches(self@[k], Some(false)));
                let u = choose|u: int| 0 <= u < pos@.len() && self.entries@[pos@[u] as int].0@ == k;
                assert(r@[u].0@ == k);
            }
        }
        r
    }

    /// A copy of the whole index as a list of pairs.
    pub fn to_inner(&self) -> (r: Vec<(ContentHash, DbEntry)>)
        requires
            self.wf(),
        ensures
            unique_keys(pairs_view(r@)),
            index_map(pairs_view(r@)) == self@,
            r@.len() == self@.len(),
    {
        let mut r: Vec<(ContentHash, DbEntry)> = Vec::new();
        let mut i: usize = 0;
        while i < self.entries.len()
            invariant
                0 <= i <= self.entries@.len(),
                pairs_view(r@) == pairs_view(self.entries@).take(i as int),
            decreases self.entries@.len() - i,
        {
            let ghost prev = r@;
            let e = self.entries[i].1.duplicate();
            r.push((self.entries[i].0, e));
            proof {
                assert(r@ == prev.push((self.entries@[i as int].0, e)));
                assert(pairs_view(r@).drop_last() =~= pairs_view(prev));
                assert(pairs_view(r@)[i as int] == pairs_view(self.entries@)[i as int]);
            }
            i = i + 1;
            assert(pairs_view(r@) =~= pairs_view(self.entries@).take(i as int));
        }
        assert(pairs_view(r@) =~= pairs_view(self.entries@));
        proof {
            lemma_index_map_len(pairs_view(r@));
        }
        r
    }
}

/// A hash together with its entry, as a lookup hands it out.
pub struct DbPair {
    pub hash: ContentHash,
    pub entry: DbEntry,
}

impl Database {
    /// The entry handle for `hash`: a pure index probe, no I/O.
    pub fn lookup(&self, hash: &ContentHash) -> (r: Option<DbPair>)
        requires
            self.wf(),
        ensures
            r matches Some(p) ==> p.hash == *hash && self@.contains_key(hash@) && p.entry@ == self@[hash@],
            r is None ==> !self@.contains_key(hash@),
    {
        match self.get(hash) {
            Some(entry) => Some(DbPair { hash: *hash, entry }),
            None => None,
        }
    }
}

/// Merging never replaces an entry: whatever `other` holds, a hash present
/// before keeps its entry.
pub proof fn union_with_keeps_existing(a: Database, other: Seq<(ContentHash, DbEntry)>, h: Seq<u8>)
    requires
        a@.contains_key(h),
    ensures
        merged(a@, pairs_view(other)).contains_key(h),
        merged(a@, pairs_view(other))[h] == a@[h],
{
    lemma_merged(a@, pairs_view(other));
    assert(merged(a@, pairs_view(other)).contains_key(h));
}

} // verus!
