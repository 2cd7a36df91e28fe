use crate::database::{index_map, lemma_index_map_domain, lemma_index_map_value, pairs_view, unique_keys, Database};
use crate::entry::{DbEntry, EntryView};
use crate::hash::ContentHash;
use crate::order::{
    is_member, lemma_lex_asymmetric, lemma_lex_irreflexive, lemma_lex_total, lemma_lex_transitive, lex_less, lex_lt, path_less, path_lt,
    same_members,
};
use crate::outboard::{bytes_equal, hash_of, outboard_and_hash, outboard_of};
use vstd::prelude::*;
use vstd::string::{StrSliceExecFns, StringExecFns};
use vstd::utf8::encode_utf8;

verus! {

/// A message of a validation sweep.
#[derive(Clone, Debug, PartialEq, Eq)]
pub enum ValidateProgress {
    /// The sweep begins, over `total` entries.
    Starting { total: u64 },
    /// Entry `id` is about to be checked.
    Entry { id: u64, hash: ContentHash, path: Option<String>, size: u64 },
    /// Entry `id` has been checked up to `offset` (advisory).
    Progress { id: u64, offset: u64 },
    /// Entry `id` is done; `error` holds what went wrong, if anything.
    Done { id: u64, error: Option<String> },
}

/// One entry of a sweep, with its position in the sweep's order.
pub struct ValidationTask {
    pub id: u64,
    pub hash: ContentHash,
    pub entry: DbEntry,
}

/// The order of a sweep: external entries first, by path (see `path_lt`) and
/// then hash;
/// internal entries after them, by hash.
pub open spec fn task_lt(a: (Seq<u8>, EntryView), b: (Seq<u8>, EntryView)) -> bool {
    match (a.1, b.1) {
        (EntryView::External { path: pa, .. }, EntryView::External { path: pb, .. }) =>
            path_lt(encode_utf8(pa), encode_utf8(pb)) || (encode_utf8(pa) == encode_utf8(pb) && lex_lt(a.0, b.0)),
        (EntryView::External { .. }, EntryView::Internal { .. }) => true,
        (EntryView::Internal { .. }, EntryView::External { .. }) => false,
        (EntryView::Internal { .. }, EntryView::Internal { .. }) => lex_lt(a.0, b.0),
    }
}

proof fn lemma_task_order(a: (Seq<u8>, EntryView), b: (Seq<u8>, EntryView), c: (Seq<u8>, EntryView))
    ensures
        !task_lt(a, a),
        task_lt(a, b) ==> !task_lt(b, a),
        a.0 != b.0 ==> task_lt(a, b) || task_lt(b, a),
        task_lt(a, b) && task_lt(b, c) ==> task_lt(a, c),
{
    lemma_lex_irreflexive(a.0, false);
    lemma_lex_asymmetric(a.0, b.0, false);
    lemma_lex_total(a.0, b.0, false);
    lemma_lex_transitive(a.0, b.0, c.0, false);
    match (a.1, b.1, c.1) {
        (EntryView::External { path: pa, .. }, EntryView::External { path: pb, .. }, EntryView::External { path: pc, .. }) => {
            lemma_lex_irreflexive(encode_utf8(pa), true);
            lemma_lex_asymmetric(encode_utf8(pa), encode_utf8(pb), true);
            lemma_lex_total(encode_utf8(pa), encode_utf8(pb), true);
            lemma_lex_transitive(encode_utf8(pa), encode_utf8(pb), encode_utf8(pc), true);
        },
        (EntryView::External { path: pa, .. }, EntryView::External { path: pb, .. }, _) => {
            lemma_lex_irreflexive(encode_utf8(pa), true);
            lemma_lex_asymmetric(encode_utf8(pa), encode_utf8(pb), true);
            lemma_lex_total(encode_utf8(pa), encode_utf8(pb), true);
        },
        (EntryView::External { path: pa, .. }, _, _) => {
            lemma_lex_irreflexive(encode_utf8(pa), true);
        },
        _ => {},
    }
}

/// Whether entry `a` comes before entry `b` in a sweep.
fn task_less(a: &(ContentHash, DbEntry), b: &(ContentHash, DbEntry)) -> (r: bool)
    ensures
        r == task_lt((a.0@, a.1@), (b.0@, b.1@)),
{
    match (&a.1, &b.1) {
        (DbEntry::External { path: pa, .. }, DbEntry::External { path: pb, .. }) => {
            let ba = pa.as_str().as_bytes();
            let bb = pb.as_str().as_bytes();
            path_less(ba, bb) || (bytes_equal(ba, bb) && lex_less(a.0.bytes.as_slice(), b.0.bytes.as_slice()))
        },
        (DbEntry::External { .. }, DbEntry::Internal { .. }) => true,
        (DbEntry::Internal { .. }, DbEntry::External { .. }) => false,
        (DbEntry::Internal { .. }, DbEntry::Internal { .. }) => lex_less(a.0.bytes.as_slice(), b.0.bytes.as_slice()),
    }
}

/// Strictly increasing in the order of a sweep.
pub open spec fn sweep_sorted(s: Seq<(Seq<u8>, EntryView)>) -> bool {
    forall|i: int, j: int| 0 <= i < j < s.len() ==> task_lt(s[i], s[j])
}

/// Insert `x` at its place in a sorted list that does not hold its hash.
fn insert_sorted(out: &mut Vec<(ContentHash, DbEntry)>, x: (ContentHash, DbEntry)) -> (p: usize)
    requires
        sweep_sorted(pairs_view(old(out)@)),
        unique_keys(pairs_view(old(out)@)),
        forall|a: int| 0 <= a < old(out)@.len() ==> (#[trigger] old(out)@[a]).0@ != x.0@,
    ensures
        p <= old(out)@.len(),
        pairs_view(final(out)@) == pairs_view(old(out)@).insert(p as int, (x.0@, x.1@)),
        sweep_sorted(pairs_view(final(out)@)),
        unique_keys(pairs_view(final(out)@)),
{
    let ghost xv = (x.0@, x.1@);
    let ghost o = pairs_view(out@);
    let mut p: usize = 0;
    while p < out.len() && !task_less(&x, &out[p])
        invariant
            0 <= p <= out@.len(),
            o == pairs_view(out@),
            xv == (x.0@, x.1@),
            forall|a: int| 0 <= a < p ==> !task_lt(xv, #[trigger] o[a]),
        decreases out@.len() - p,
    {
        p = p + 1;
    }
    proof {
        assert forall|a: int| 0 <= a < p implies task_lt(#[trigger] o[a], xv) by {
            assert(o[a].0 == out@[a].0@);
            lemma_task_order(xv, o[a], xv);
        }
        assert forall|a: int| p <= a < o.len() implies task_lt(xv, #[trigger] o[a]) by {
            lemma_task_order(xv, o[p as int], o[a]);
        }
    }
    out.insert(p, x);
    proof {
        let o2 = pairs_view(out@);
        assert(o2 =~= o.insert(p as int, xv));
        assert forall|a: int, b: int| 0 <= a < b < o2.len() implies task_lt(o2[a], o2[b]) by {
            if b < p {
            } else if a < p && b == p {
            } else if a < p {
                assert(o2[b] == o[b - 1]);
            } else if a == p {
                assert(o2[b] == o[b - 1]);
            } else {
                assert(o2[a] == o[a - 1] && o2[b] == o[b - 1]);
            }
        }
        assert forall|a: int, b: int| 0 <= a < o2.len() && 0 <= b < o2.len() && a != b implies o2[a].0 != o2[b].0 by {
            lemma_task_order(o2[a], o2[b], o2[b]);
        }
    }
    p
}

proof fn lemma_inserted_members(inp: Seq<(Seq<u8>, EntryView)>, o: Seq<(Seq<u8>, EntryView)>, p: int, i: int)
    requires
        0 <= i < inp.len(),
        0 <= p <= o.len(),
        same_members(o, inp.take(i)),
    ensures
        same_members(o.insert(p, inp[i]), inp.take(i + 1)),
{
    let o2 = o.insert(p, inp[i]);
    let t = inp.take(i);
    let t2 = inp.take(i + 1);
    assert forall|a: int| 0 <= a < o2.len() implies is_member(t2, #[trigger] o2[a]) by {
        if a == p {
            assert(t2[i] == o2[a]);
        } else {
            let b = if a < p { a } else { a - 1 };
            assert(o2[a] == o[b]);
            assert(is_member(t, o[b]));
            let j = choose|j: int| 0 <= j < t.len() && t[j] == o[b];
            assert(t2[j] == o2[a]);
        }
    }
    assert forall|j: int| 0 <= j < t2.len() implies is_member(o2, #[trigger] t2[j]) by {
        if j == i {
            assert(o2[p] == t2[j]);
        } else {
            assert(t2[j] == t[j]);
            assert(is_member(o, t[j]));
            let a = choose|a: int| 0 <= a < o.len() && o[a] == t[j];
            if a < p {
                assert(o2[a] == t2[j]);
            } else {
                assert(o2[a + 1] == t2[j]);
            }
        }
    }
}

/// Sort pairs with distinct hashes into the order of a sweep.
fn sort_for_sweep(items: &Vec<(ContentHash, DbEntry)>) -> (r: Vec<(ContentHash, DbEntry)>)
    requires
        unique_keys(pairs_view(items@)),
    ensures
        sweep_sorted(pairs_view(r@)),
        unique_keys(pairs_view(r@)),
        same_members(pairs_view(r@), pairs_view(items@)),
        r@.len() == items@.len(),
{
    let ghost inp = pairs_view(items@);
    let mut out: Vec<(ContentHash, DbEntry)> = Vec::new();
    let mut i: usize = 0;
    assert(pairs_view(out@) =~= Seq::empty());
    while i < items.len()
        invariant
            0 <= i <= items@.len(),
            inp == pairs_view(items@),
            unique_keys(inp),
            sweep_sorted(pairs_view(out@)),
            unique_keys(pairs_view(out@)),
            same_members(pairs_view(out@), inp.take(i as int)),
            out@.len() == i,
        decreases items@.len() - i,
    {
        let x = (items[i].0, items[i].1.duplicate());
        let ghost o = pairs_view(out@);
        assert((x.0@, x.1@) == inp[i as int]);
        assert forall|a: int| 0 <= a < out@.len() implies (#[trigger] out@[a]).0@ != x.0@ by {
            assert(o[a].0 == out@[a].0@);
            assert(is_member(inp.take(i as int), o[a]));
            let j = choose|j: int| 0 <= j < i && inp.take(i as int)[j] == o[a];
            assert(inp[j].0 != inp[i as int].0);
        }
        let p = insert_sorted(&mut out, x);
        proof {
            lemma_inserted_members(inp, o, p as int, i as int);
        }
        i = i + 1;
    }
    assert(inp.take(i as int) =~= inp);
    out
}

/// The (hash, entry) values of a list of tasks.
pub open spec fn tasks_view(s: Seq<ValidationTask>) -> Seq<(Seq<u8>, EntryView)> {
    s.map_values(|t: ValidationTask| (t.hash@, t.entry@))
}

impl Database {
    /// The entries of a validation sweep in its order, numbered from 0.
    pub fn validation_plan(&self) -> (r: Vec<ValidationTask>)
        requires
            self.wf(),
        ensures
            sweep_sorted(tasks_view(r@)),
            unique_keys(tasks_view(r@)),
            r@.len() == self@.len(),
            forall|i: int| 0 <= i < r@.len() ==> (#[trigger] r@[i]).id == i as u64,
            forall|i: int| 0 <= i < r@.len() ==> self@.contains_key((#[trigger] r@[i]).hash@) && self@[r@[i].hash@] == r@[i].entry@,
            forall|k: Seq<u8>| #[trigger] self@.contains_key(k) ==> exists|i: int| 0 <= i < r@.len() && r@[i].hash@ == k,
    {
        let inner = self.to_inner();
        let sorted = sort_for_sweep(&inner);
        let ghost sv = pairs_view(sorted@);
        let ghost iv = pairs_view(inner@);
        let mut r: Vec<ValidationTask> = Vec::new();
        let mut i: usize = 0;
        while i < sorted.len()
            invariant
                0 <= i <= sorted@.len(),
                sv == pairs_view(sorted@),
                tasks_view(r@) == sv.take(i as int),
                r@.len() == i,
                forall|j: int| 0 <= j < i ==> (#[trigger] r@[j]).id == j as u64,
            decreases sorted@.len() - i,
        {
            let ghost prev = r@;
            r.push(ValidationTask { id: i as u64, hash: sorted[i].0, entry: sorted[i].1.duplicate() });
            assert(tasks_view(r@) =~= sv.take(i + 1)) by {
                assert(tasks_view(r@).drop_last() =~= tasks_view(prev));
            }
            i = i + 1;
        }
        assert(sv.take(i as int) =~= sv);
        proof {
            let tv = tasks_view(r@);
            lemma_index_map_domain(iv);
            assert forall|i: int| 0 <= i < r@.len() implies self@.contains_key((#[trigger] r@[i]).hash@) && self@[r@[i].hash@] == r@[i].entry@ by {
                assert(tv[i] == sv[i]);
                assert(is_member(iv, sv[i]));
                let j = choose|j: int| 0 <= j < iv.len() && iv[j] == sv[i];
                lemma_index_map_value(iv, j);
            }
            assert forall|k: Seq<u8>| #[trigger] self@.contains_key(k) implies exists|i: int| 0 <= i < r@.len() && r@[i].hash@ == k by {
                let j = choose|j: int| 0 <= j < iv.len() && iv[j].0 == k;
                assert(is_member(sv, iv[j]));
                let a = choose|a: int| 0 <= a < sv.len() && sv[a] == iv[j];
                assert(tv[a] == sv[a]);
                assert(r@[a].hash@ == k);
            }
        }
        r
    }
}

/// The message that opens a sweep over `tasks`.
pub fn starting(tasks: &Vec<ValidationTask>) -> (r: ValidateProgress)
    ensures
        r == (ValidateProgress::Starting { total: tasks@.len() as u64 }),
{
    ValidateProgress::Starting { total: tasks.len() as u64 }
}

/// Content is valid under a hash and an outboard when both are what the
/// content itself gives.
pub open spec fn content_valid(hash: Seq<u8>, outboard: Seq<u8>, data: Seq<u8>) -> bool {
    hash_of(data) == hash && outboard_of(data) == outboard
}

/// Check content against the hash and outboard stored for it: `None` when
/// valid, else what is wrong.
pub fn check_content(hash: &ContentHash, outboard: &[u8], data: &[u8]) -> (r: Option<String>)
    ensures
        r is None <==> content_valid(hash@, outboard@, data@),
        r matches Some(m) ==> m@.len() > 0,
{
    proof {
        reveal_strlit("content does not match its hash");
        reveal_strlit("outboard does not match the content");
    }
    let (computed_outboard, computed_hash) = outboard_and_hash(data);
    if !computed_hash.same(hash) {
        Some(String::from_str("content does not match its hash"))
    } else if !bytes_equal(computed_outboard.as_slice(), outboard) {
        Some(String::from_str("outboard does not match the content"))
    } else {
        None
    }
}

impl ValidationTask {
    /// The message that announces this entry.
    pub fn announce(&self) -> (r: ValidateProgress)
        ensures
            r matches ValidateProgress::Entry { id, hash, path, size } && id == self.id && hash == self.hash
                && size == self.entry@.size() as u64 && crate::snapshot::opt_str_view(path) == (match self.entry@ {
                EntryView::External { path, .. } => Some(path),
                EntryView::Internal { .. } => None,
            }),
    {
        let path = match self.entry.blob_path() {
            Some(p) => Some(p.clone()),
            None => None,
        };
        ValidateProgress::Entry { id: self.id, hash: self.hash, path, size: self.entry.size() }
    }

    /// Check this entry. For an external entry `file` is what reading its file
    /// gave: the bytes, or a description of the failure; an internal entry
    /// checks the content it holds and ignores `file`. `None` when valid,
    /// else a non-empty message.
    pub fn verify(&self, file: &Result<Vec<u8>, String>) -> (r: Option<String>)
        ensures
            match self.entry@ {
                EntryView::Internal { outboard, data } => r is None <==> content_valid(self.hash@, outboard, data),
                EntryView::External { outboard, .. } => match file {
                    Ok(bytes) => r is None <==> content_valid(self.hash@, outboard, bytes@),
                    Err(e) => r matches Some(m) && (e@.len() > 0 ==> m@ == e@),
                },
            },
            r matches Some(m) ==> m@.len() > 0,
    {
        proof {
            reveal_strlit("the file could not be read");
        }
        match &self.entry {
            DbEntry::Internal { outboard, data } => check_content(&self.hash, outboard.as_slice(), data.as_slice()),
            DbEntry::External { outboard, .. } => match file {
                Ok(bytes) => check_content(&self.hash, outboard.as_slice(), bytes.as_slice()),
                Err(e) => if e.as_str().unicode_len() == 0 {
                    Some(String::from_str("the file could not be read"))
                } else {
                    Some(e.clone())
                },
            },
        }
    }
}

/// The content that a sweep checks for an entry, given what each file holds.
pub open spec fn checked_content(e: EntryView, files: Map<Seq<char>, Seq<u8>>) -> Seq<u8> {
    match e {
        EntryView::External { path, .. } => files[path],
        EntryView::Internal { data, .. } => data,
    }
}

/// A store whose entries were built from their content and not tampered
/// with validates cleanly: every task of its sweep finds its content valid,
/// and the sweep counts every entry once.
pub proof fn intact_store_validates(db: Database, plan: Seq<ValidationTask>, files: Map<Seq<char>, Seq<u8>>)
    requires
        forall|k: Seq<u8>| #[trigger] db@.contains_key(k) ==> content_valid(k, db@[k].outboard(), checked_content(db@[k], files)),
        forall|i: int| 0 <= i < plan.len() ==> db@.contains_key((#[trigger] plan[i]).hash@) && db@[plan[i].hash@] == plan[i].entry@,
    ensures
        forall|i: int| 0 <= i < plan.len() ==> content_valid((#[trigger] plan[i]).hash@, plan[i].entry@.outboard(), checked_content(plan[i].entry@, files)),
{
    assert forall|i: int| 0 <= i < plan.len() implies content_valid((#[trigger] plan[i]).hash@, plan[i].entry@.outboard(), checked_content(plan[i].entry@, files)) by {
        assert(db@.contains_key(plan[i].hash@));
    }
}

} // verus!
