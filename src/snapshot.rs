use crate::database::{index_map, pairs_view, unique_keys, Database, Pairs};
use crate::entry::{copy_bytes, DbEntry, EntryView};
use crate::hash::ContentHash;
use crate::order::{is_member, same_members};
use vstd::prelude::*;

verus! {

/// (hash, declared size, optional external path) records.
pub type PathsView = Seq<(Seq<u8>, u64, Option<Seq<char>>)>;

/// (hash, bytes) records.
pub type BlobsView = Seq<(Seq<u8>, Seq<u8>)>;

pub open spec fn opt_str_view(p: Option<String>) -> Option<Seq<char>> {
    match p {
        Some(s) => Some(s@),
        None => None,
    }
}

/// A decoupled enumeration of a database: what it knows of each hash, the
/// outboard of each hash, and the content of each internal hash.
pub struct Snapshot {
    pub paths: Vec<(ContentHash, u64, Option<String>)>,
    pub outboards: Vec<(ContentHash, Vec<u8>)>,
    pub collections: Vec<(ContentHash, Vec<u8>)>,
}

pub open spec fn blobs_view(s: Seq<(ContentHash, Vec<u8>)>) -> BlobsView {
    s.map_values(|p: (ContentHash, Vec<u8>)| (p.0@, p.1@))
}

pub open spec fn paths_view(s: Seq<(ContentHash, u64, Option<String>)>) -> PathsView {
    s.map_values(|p: (ContentHash, u64, Option<String>)| (p.0@, p.1, opt_str_view(p.2)))
}

impl Snapshot {
    pub open spec fn paths_v(&self) -> PathsView {
        paths_view(self.paths@)
    }

    pub open spec fn outboards_v(&self) -> BlobsView {
        blobs_view(self.outboards@)
    }

    pub open spec fn collections_v(&self) -> BlobsView {
        blobs_view(self.collections@)
    }
}

/// The bytes recorded for `k`, the last record winning.
pub open spec fn lookup_last(s: BlobsView, k: Seq<u8>) -> Option<Seq<u8>>
    decreases s.len(),
{
    if s.len() == 0 {
        None
    } else if s.last().0 == k {
        Some(s.last().1)
    } else {
        lookup_last(s.drop_last(), k)
    }
}

/// The index that the records rebuild: a record with a path and an outboard
/// becomes an external entry; one without a path, with an outboard and
/// content, an internal entry; any other is dropped.
pub open spec fn reconcile(paths: PathsView, obs: BlobsView, cols: BlobsView) -> Map<Seq<u8>, EntryView>
    decreases paths.len(),
{
    if paths.len() == 0 {
        Map::empty()
    } else {
        let m = reconcile(paths.drop_last(), obs, cols);
        let (h, size, p) = paths.last();
        match (p, lookup_last(obs, h), lookup_last(cols, h)) {
            (Some(path), Some(o), _) => m.insert(h, EntryView::External { outboard: o, path, size }),
            (None, Some(o), Some(d)) => m.insert(h, EntryView::Internal { outboard: o, data: d }),
            _ => m,
        }
    }
}

/// The path record of each pair.
pub open spec fn snapshot_paths(s: Pairs) -> PathsView {
    s.map_values(|p: (Seq<u8>, EntryView)| (p.0, p.1.size() as u64, match p.1 {
        EntryView::External { path, .. } => Some(path),
        EntryView::Internal { .. } => None,
    }))
}

/// The outboard record of each pair.
pub open spec fn snapshot_outboards(s: Pairs) -> BlobsView {
    s.map_values(|p: (Seq<u8>, EntryView)| (p.0, p.1.outboard()))
}

/// The content record of each internal pair.
pub open spec fn snapshot_collections(s: Pairs) -> BlobsView
    decreases s.len(),
{
    if s.len() == 0 {
        Seq::empty()
    } else {
        let rest = snapshot_collections(s.drop_last());
        match s.last().1 {
            EntryView::Internal { data, .. } => rest.push((s.last().0, data)),
            EntryView::External { .. } => rest,
        }
    }
}

/// Position of the last record for `key`.
fn find_last(s: &Vec<(ContentHash, Vec<u8>)>, key: &ContentHash) -> (r: Option<usize>)
    ensures
        r matches Some(j) ==> j < s@.len() && lookup_last(blobs_view(s@), key@) == Some(s@[j as int].1@),
        r is None ==> lookup_last(blobs_view(s@), key@) is None,
{
    let ghost b = blobs_view(s@);
    let mut j: usize = s.len();
    assert(b.take(j as int) =~= b);
    while j > 0
        invariant
            j <= s@.len(),
            b == blobs_view(s@),
            lookup_last(b, key@) == lookup_last(b.take(j as int), key@),
        decreases j,
    {
        assert(b.take(j as int).drop_last() =~= b.take(j - 1));
        if s[j - 1].0.same(key) {
            return Some(j - 1);
        }
        j = j - 1;
    }
    None
}

proof fn lemma_lookup_outboards(s: Pairs, i: int)
    requires
        unique_keys(s),
        0 <= i < s.len(),
    ensures
        lookup_last(snapshot_outboards(s), s[i].0) == Some(s[i].1.outboard()),
    decreases s.len(),
{
    let o = snapshot_outboards(s);
    if i < s.len() - 1 {
        let t = s.drop_last();
        assert(unique_keys(t));
        assert(o.drop_last() =~= snapshot_outboards(t));
        assert(t[i] == s[i]);
        lemma_lookup_outboards(t, i);
    }
}

proof fn lemma_lookup_collections(s: Pairs, i: int)
    requires
        unique_keys(s),
        0 <= i < s.len(),
    ensures
        s[i].1 matches EntryView::Internal { data, .. } ==> lookup_last(snapshot_collections(s), s[i].0) == Some(data),
    decreases s.len(),
{
    let t = s.drop_last();
    if i < s.len() - 1 {
        assert(unique_keys(t));
        assert(t[i] == s[i]);
        lemma_lookup_collections(t, i);
        let rest = snapshot_collections(t);
        if s.last().1 is Internal {
            assert(snapshot_collections(s).drop_last() =~= rest);
            assert(s.last().0 != s[i].0);
        }
    }
}

proof fn lemma_round_trip_prefix(s: Pairs, n: int)
    requires
        unique_keys(s),
        0 <= n <= s.len(),
    ensures
        reconcile(snapshot_paths(s).take(n), snapshot_outboards(s), snapshot_collections(s)) == index_map(s.take(n)),
    decreases n,
{
    let obs = snapshot_outboards(s);
    let cols = snapshot_collections(s);
    let ps = snapshot_paths(s);
    if n == 0 {
        assert(ps.take(0) =~= Seq::empty());
        assert(s.take(0) =~= Seq::empty());
    } else {
        let m = n - 1;
        lemma_round_trip_prefix(s, m);
        assert(ps.take(n).drop_last() =~= ps.take(m));
        assert(s.take(n).drop_last() =~= s.take(m));
        lemma_lookup_outboards(s, m);
        lemma_lookup_collections(s, m);
        assert(ps.take(n).last() == ps[m]);
        assert(s.take(n).last() == s[m]);
        match s[m].1 {
            EntryView::External { outboard, path, size } => {
                assert(reconcile(ps.take(n), obs, cols) =~= index_map(s.take(n)));
            },
            EntryView::Internal { outboard, data } => {
                assert(reconcile(ps.take(n), obs, cols) =~= index_map(s.take(n)));
            },
        }
    }
}

/// Rebuilding an index from its own snapshot gives the index back.
pub proof fn snapshot_round_trip(s: Pairs)
    requires
        unique_keys(s),
    ensures
        reconcile(snapshot_paths(s), snapshot_outboards(s), snapshot_collections(s)) == index_map(s),
{
    lemma_round_trip_prefix(s, s.len() as int);
    assert(snapshot_paths(s).take(s.len() as int) =~= snapshot_paths(s));
    assert(s.take(s.len() as int) =~= s);
}

impl Database {
    /// Take a snapshot: a path record and an outboard record for every entry,
    /// and a content record for every internal one, in storage order.
    pub fn snapshot(&self) -> (r: Snapshot)
        requires
            self.wf(),
        ensures
            r.paths_v() == snapshot_paths(self.pairs()),
            r.outboards_v() == snapshot_outboards(self.pairs()),
            r.collections_v() == snapshot_collections(self.pairs()),
    {
        proof {
            self.lemma_pairs();
        }
        let ghost s = self.pairs();
        let mut paths: Vec<(ContentHash, u64, Option<String>)> = Vec::new();
        let mut outboards: Vec<(ContentHash, Vec<u8>)> = Vec::new();
        let mut collections: Vec<(ContentHash, Vec<u8>)> = Vec::new();
        let mut i: usize = 0;
        while i < self.entries.len()
            invariant
                0 <= i <= self.entries@.len(),
                s == pairs_view(self.entries@),
                paths_view(paths@) == snapshot_paths(s).take(i as int),
                blobs_view(outboards@) == snapshot_outboards(s).take(i as int),
                blobs_view(collections@) == snapshot_collections(s.take(i as int)),
            decreases self.entries@.len() - i,
        {
            let h = self.entries[i].0;
            let e = &self.entries[i].1;
            let ghost pp = paths@;
            let ghost po = outboards@;
            let ghost pc = collections@;
            assert(s.take(i + 1).drop_last() =~= s.take(i as int));
            assert(s.take(i + 1).last() == s[i as int]);
            let path = match e.blob_path() {
                Some(p) => Some(p.clone()),
                None => None,
            };
            assert(opt_str_view(path) == snapshot_paths(s)[i as int].2);
            paths.push((h, e.size(), path));
            outboards.push((h, copy_bytes(e.outboard())));
            match e {
                DbEntry::Internal { data, .. } => {
                    collections.push((h, copy_bytes(data)));
                    assert(blobs_view(collections@) =~= blobs_view(pc).push((h@, data@)));
                },
                DbEntry::External { .. } => {},
            }
            assert(paths_view(paths@).drop_last() =~= paths_view(pp));
            assert(paths_view(paths@)[i as int] == snapshot_paths(s)[i as int]);
            assert(paths_view(paths@) =~= snapshot_paths(s).take(i + 1));
            assert(blobs_view(outboards@).drop_last() =~= blobs_view(po));
            assert(blobs_view(outboards@)[i as int] == snapshot_outboards(s)[i as int]);
            assert(blobs_view(outboards@) =~= snapshot_outboards(s).take(i + 1));
            i = i + 1;
        }
        assert(s.take(i as int) =~= s);
        Snapshot { paths, outboards, collections }
    }

    /// Rebuild a database from a snapshot: see `reconcile`.
    pub fn from_snapshot(snapshot: &Snapshot) -> (r: Database)
        ensures
            r.wf(),
            r@ == reconcile(snapshot.paths_v(), snapshot.outboards_v(), snapshot.collections_v()),
    {
        let ghost ps = snapshot.paths_v();
        let ghost obs = snapshot.outboards_v();
        let ghost cols = snapshot.collections_v();
        let mut db = Database::new();
        let mut i: usize = 0;
        while i < snapshot.paths.len()
            invariant
                0 <= i <= snapshot.paths@.len(),
                ps == snapshot.paths_v(),
                obs == snapshot.outboards_v(),
                cols == snapshot.collections_v(),
                db.wf(),
                db@ == reconcile(ps.take(i as int), obs, cols),
            decreases snapshot.paths@.len() - i,
        {
            assert(ps.take(i + 1).drop_last() =~= ps.take(i as int));
            assert(ps.take(i + 1).last() == ps[i as int]);
            let (h, size, path) = &snapshot.paths[i];
            match find_last(&snapshot.outboards, h) {
                Some(oi) => {
                    let o = copy_bytes(&snapshot.outboards[oi].1);
                    match path {
                        Some(p) => {
                            db.put(*h, DbEntry::External { outboard: o, path: p.clone(), size: *size });
                        },
                        None => match find_last(&snapshot.collections, h) {
                            Some(ci) => {
                                let d = copy_bytes(&snapshot.collections[ci].1);
                                db.put(*h, DbEntry::Internal { outboard: o, data: d });
                            },
                            None => {},
                        },
                    }
                },
                None => {},
            }
            i = i + 1;
        }
        assert(ps.take(i as int) =~= ps);
        db
    }
}

/// Rebuilding a database from the snapshot it gives yields the same index.
pub proof fn database_snapshot_round_trip(db: Database, snap: Snapshot, back: Database)
    requires
        db.wf(),
        snap.paths_v() == snapshot_paths(db.pairs()),
        snap.outboards_v() == snapshot_outboards(db.pairs()),
        snap.collections_v() == snapshot_collections(db.pairs()),
        back@ == reconcile(snap.paths_v(), snap.outboards_v(), snap.collections_v()),
    ensures
        back@ == db@,
{
    db.lemma_pairs();
    snapshot_round_trip(db.pairs());
}

/// Records with the same hash are the same record.
pub open spec fn consistent(paths: PathsView) -> bool {
    forall|i: int, j: int| 0 <= i < paths.len() && 0 <= j < paths.len() && paths[i].0 == paths[j].0 ==> paths[i] == paths[j]
}

/// The entry that one path record yields, if any.
pub open spec fn record_entry(rec: (Seq<u8>, u64, Option<Seq<char>>), obs: BlobsView, cols: BlobsView) -> Option<EntryView> {
    match (rec.2, lookup_last(obs, rec.0), lookup_last(cols, rec.0)) {
        (Some(path), Some(o), _) => Some(EntryView::External { outboard: o, path, size: rec.1 }),
        (None, Some(o), Some(d)) => Some(EntryView::Internal { outboard: o, data: d }),
        _ => None,
    }
}

proof fn lemma_reconcile_members(paths: PathsView, obs: BlobsView, cols: BlobsView)
    requires
        consistent(paths),
    ensures
        forall|h: Seq<u8>| #[trigger] reconcile(paths, obs, cols).contains_key(h) <==> exists|i: int| 0 <= i < paths.len() && paths[i].0 == h && record_entry(paths[i], obs, cols) is Some,
        forall|i: int| 0 <= i < paths.len() && record_entry(#[trigger] paths[i], obs, cols) is Some ==> reconcile(paths, obs, cols)[paths[i].0] == record_entry(paths[i], obs, cols)->Some_0,
    decreases paths.len(),
{
    if paths.len() > 0 {
        let t = paths.drop_last();
        let x = paths.last();
        assert(consistent(t));
        lemma_reconcile_members(t, obs, cols);
        let m = reconcile(t, obs, cols);
        let r = reconcile(paths, obs, cols);
        assert(r == match record_entry(x, obs, cols) {
            Some(e) => m.insert(x.0, e),
            None => m,
        });
        assert forall|h: Seq<u8>| #[trigger] r.contains_key(h) <==> exists|i: int| 0 <= i < paths.len() && paths[i].0 == h && record_entry(paths[i], obs, cols) is Some by {
            if r.contains_key(h) && !(h == x.0 && record_entry(x, obs, cols) is Some) {
                assert(m.contains_key(h));
                let i = choose|i: int| 0 <= i < t.len() && t[i].0 == h && record_entry(t[i], obs, cols) is Some;
                assert(paths[i] == t[i]);
            }
            if exists|i: int| 0 <= i < paths.len() && paths[i].0 == h && record_entry(paths[i], obs, cols) is Some {
                let i = choose|i: int| 0 <= i < paths.len() && paths[i].0 == h && record_entry(paths[i], obs, cols) is Some;
                if i < t.len() {
                    assert(t[i] == paths[i]);
                    assert(m.contains_key(h));
                }
            }
        }
        assert forall|i: int| 0 <= i < paths.len() && record_entry(#[trigger] paths[i], obs, cols) is Some implies r[paths[i].0] == record_entry(paths[i], obs, cols)->Some_0 by {
            if paths[i].0 == x.0 {
                assert(paths[i] == x);
            } else {
                assert(t[i] == paths[i]);
            }
        }
    }
}

proof fn lemma_reconcile_lookups(paths: PathsView, obs: BlobsView, cols: BlobsView, obs2: BlobsView, cols2: BlobsView)
    requires
        forall|h: Seq<u8>| #[trigger] lookup_last(obs, h) == lookup_last(obs2, h),
        forall|h: Seq<u8>| #[trigger] lookup_last(cols, h) == lookup_last(cols2, h),
    ensures
        reconcile(paths, obs, cols) == reconcile(paths, obs2, cols2),
    decreases paths.len(),
{
    if paths.len() > 0 {
        lemma_reconcile_lookups(paths.drop_last(), obs, cols, obs2, cols2);
        assert(lookup_last(obs, paths.last().0) == lookup_last(obs2, paths.last().0));
        assert(lookup_last(cols, paths.last().0) == lookup_last(cols2, paths.last().0));
    }
}

/// Persisting and loading again gives the same index. The paths file may come
/// back in another order (it is written sorted by hash), and the outboard and
/// content records in any order, as long as each hash finds the same bytes as
/// in the snapshot that was written.
pub proof fn persisted_round_trip(db: Database, paths: PathsView, obs: BlobsView, cols: BlobsView)
    requires
        db.wf(),
        same_members(paths, snapshot_paths(db.pairs())),
        forall|h: Seq<u8>| #[trigger] lookup_last(obs, h) == lookup_last(snapshot_outboards(db.pairs()), h),
        forall|h: Seq<u8>| #[trigger] lookup_last(cols, h) == lookup_last(snapshot_collections(db.pairs()), h),
    ensures
        reconcile(paths, obs, cols) == db@,
{
    db.lemma_pairs();
    let s = db.pairs();
    let src = snapshot_paths(s);
    let o1 = snapshot_outboards(s);
    let c1 = snapshot_collections(s);
    snapshot_round_trip(s);
    lemma_reconcile_lookups(paths, obs, cols, o1, c1);
    assert(consistent(src)) by {
        assert forall|i: int, j: int| 0 <= i < src.len() && 0 <= j < src.len() && src[i].0 == src[j].0 implies src[i] == src[j] by {
            assert(s[i].0 == src[i].0 && s[j].0 == src[j].0);
        }
    }
    assert(consistent(paths)) by {
        assert forall|i: int, j: int| 0 <= i < paths.len() && 0 <= j < paths.len() && paths[i].0 == paths[j].0 implies paths[i] == paths[j] by {
            assert(is_member(src, paths[i]));
            assert(is_member(src, paths[j]));
            let a = choose|a: int| 0 <= a < src.len() && src[a] == paths[i];
            let b = choose|b: int| 0 <= b < src.len() && src[b] == paths[j];
        }
    }
    lemma_reconcile_members(paths, o1, c1);
    lemma_reconcile_members(src, o1, c1);
    let m1 = reconcile(paths, o1, c1);
    let m2 = reconcile(src, o1, c1);
    assert forall|h: Seq<u8>| #[trigger] m1.contains_key(h) <==> m2.contains_key(h) by {
        if m1.contains_key(h) {
            let i = choose|i: int| 0 <= i < paths.len() && paths[i].0 == h && record_entry(paths[i], o1, c1) is Some;
            assert(is_member(src, paths[i]));
            let a = choose|a: int| 0 <= a < src.len() && src[a] == paths[i];
        }
        if m2.contains_key(h) {
            let a = choose|a: int| 0 <= a < src.len() && src[a].0 == h && record_entry(src[a], o1, c1) is Some;
            assert(is_member(paths, src[a]));
            let i = choose|i: int| 0 <= i < paths.len() && paths[i] == src[a];
        }
    }
    assert forall|h: Seq<u8>| m1.contains_key(h) implies m1[h] == m2[h] by {
        let i = choose|i: int| 0 <= i < paths.len() && paths[i].0 == h && record_entry(paths[i], o1, c1) is Some;
        assert(is_member(src, paths[i]));
        let a = choose|a: int| 0 <= a < src.len() && src[a] == paths[i];
        assert(record_entry(src[a], o1, c1) is Some);
    }
    assert(m1 =~= m2);
}

} // verus!
