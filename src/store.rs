use crate::hash::{format_hash, hex_encoding, parse_hash, parsed_hash, ContentHash};
use crate::order::{is_member, lemma_lex_irreflexive, lemma_lex_transitive, lex_less, lex_lt, same_members};
use crate::snapshot::{opt_str_view, paths_view, PathsView};
use vstd::prelude::*;
use vstd::seq_lib::{to_multiset_build, to_multiset_insert};
use vstd::string::{StrSliceExecFns, StringExecFns};

verus! {

/// `name` joined onto the directory `dir`: a separator goes between them
/// unless `dir` is empty or already ends in one.
pub open spec fn path_join(dir: Seq<char>, name: Seq<char>) -> Seq<char> {
    if dir.len() == 0 || dir.last() == '/' {
        dir + name
    } else {
        dir + seq!['/'] + name
    }
}

/// Join the relative `name` onto the directory `dir`.
pub fn join(dir: &String, name: &str) -> (r: String)
    ensures
        r@ == path_join(dir@, name@),
{
    proof {
        reveal_strlit("/");
    }
    let n = dir.as_str().unicode_len();
    if n == 0 || dir.as_str().get_char(n - 1) == '/' {
        dir.clone().concat(name)
    } else {
        let r = dir.clone().concat("/").concat(name);
        assert(r@ =~= dir@ + seq!['/'] + name@);
        r
    }
}

/// Where the parts of a store live under its directory.
pub struct DataPaths {
    pub data_dir: String,
    pub outboards_dir: String,
    pub collections_dir: String,
    pub paths_file: String,
}

impl DataPaths {
    /// The layout under `data_dir`: `outboards/`, `collections/` and the
    /// `paths` file.
    pub fn new(data_dir: String) -> (r: DataPaths)
        ensures
            r.data_dir@ == data_dir@,
            r.outboards_dir@ == path_join(data_dir@, "outboards"@),
            r.collections_dir@ == path_join(data_dir@, "collections"@),
            r.paths_file@ == path_join(data_dir@, "paths"@),
    {
        let outboards_dir = join(&data_dir, "outboards");
        let collections_dir = join(&data_dir, "collections");
        let paths_file = join(&data_dir, "paths");
        DataPaths { data_dir, outboards_dir, collections_dir, paths_file }
    }

    /// The file that holds the outboard of `hash`.
    pub fn outboard_file(&self, hash: &ContentHash) -> (r: String)
        ensures
            r@ == path_join(self.outboards_dir@, hex_encoding(hash@)),
    {
        join(&self.outboards_dir, format_hash(hash).as_str())
    }

    /// The file that holds the content of the internal entry `hash`.
    pub fn collection_file(&self, hash: &ContentHash) -> (r: String)
        ensures
            r@ == path_join(self.collections_dir@, hex_encoding(hash@)),
    {
        join(&self.collections_dir, format_hash(hash).as_str())
    }
}

/// Some record among the first `n` is for hash `k`.
pub open spec fn records_have(paths: Seq<(ContentHash, u64, Option<String>)>, n: int, k: Seq<u8>) -> bool {
    exists|a: int| 0 <= a < n && paths[a].0@ == k
}

/// Hash `k` is among `hashes`.
pub open spec fn hashes_have(hashes: Seq<ContentHash>, k: Seq<u8>) -> bool {
    exists|j: int| 0 <= j < hashes.len() && hashes[j]@ == k
}

/// Each distinct hash of the path records, once.
pub fn required_hashes(paths: &Vec<(ContentHash, u64, Option<String>)>) -> (r: Vec<ContentHash>)
    ensures
        forall|k: Seq<u8>| #![trigger records_have(paths@, paths@.len() as int, k)] #![trigger hashes_have(r@, k)]
            records_have(paths@, paths@.len() as int, k) <==> hashes_have(r@, k),
        forall|i: int, j: int| 0 <= i < r@.len() && 0 <= j < r@.len() && i != j ==> r@[i]@ != r@[j]@,
{
    let mut r: Vec<ContentHash> = Vec::new();
    let mut i: usize = 0;
    while i < paths.len()
        invariant
            0 <= i <= paths@.len(),
            forall|k: Seq<u8>| #![trigger records_have(paths@, i as int, k)] #![trigger hashes_have(r@, k)]
                records_have(paths@, i as int, k) <==> hashes_have(r@, k),
            forall|a: int, b: int| 0 <= a < r@.len() && 0 <= b < r@.len() && a != b ==> r@[a]@ != r@[b]@,
        decreases paths@.len() - i,
    {
        let h = paths[i].0;
        let ghost prev = r@;
        if !contains_hash(&r, &h) {
            r.push(h);
            assert(r@[r@.len() - 1] == h);
        }
        assert forall|k: Seq<u8>| #![trigger records_have(paths@, i + 1, k)] #![trigger hashes_have(r@, k)]
            records_have(paths@, i + 1, k) <==> hashes_have(r@, k) by {
            if hashes_have(r@, k) {
                let j = choose|j: int| 0 <= j < r@.len() && r@[j]@ == k;
                if j < prev.len() {
                    assert(prev[j]@ == k);
                    assert(hashes_have(prev, k));
                    let a = choose|a: int| 0 <= a < i && paths@[a].0@ == k;
                    assert(paths@[a].0@ == k);
                } else {
                    assert(paths@[i as int].0@ == k);
                }
            }
            if records_have(paths@, i + 1, k) {
                let a = choose|a: int| 0 <= a < i + 1 && paths@[a].0@ == k;
                if a < i {
                    assert(records_have(paths@, i as int, k));
                    let j = choose|j: int| 0 <= j < prev.len() && prev[j]@ == k;
                    assert(r@[j]@ == k);
                } else if hashes_have(prev, k) {
                    let j = choose|j: int| 0 <= j < prev.len() && prev[j]@ == k;
                    assert(r@[j]@ == k);
                }
            }
        }
        i = i + 1;
    }
    r
}

/// Whether `h` is among `hashes`.
pub fn contains_hash(hashes: &Vec<ContentHash>, h: &ContentHash) -> (r: bool)
    ensures
        r == hashes_have(hashes@, h@),
{
    let mut j: usize = 0;
    while j < hashes.len()
        invariant
            0 <= j <= hashes@.len(),
            forall|a: int| 0 <= a < j ==> (#[trigger] hashes@[a])@ != h@,
        decreases hashes@.len() - j,
    {
        if hashes[j].same(h) {
            return true;
        }
        j = j + 1;
    }
    false
}

/// The hash that a file of the collections directory holds content for: its
/// name must spell a hash, and the hash must be one the store requires; any
/// other file is skipped.
pub fn collection_file_hash(name: &str, required: &Vec<ContentHash>) -> (r: Option<ContentHash>)
    ensures
        r matches Some(h) ==> parsed_hash(name@) == Some(h@) && hashes_have(required@, h@),
        r is None ==> match parsed_hash(name@) {
            Some(h) => !hashes_have(required@, h),
            None => true,
        },
{
    match parse_hash(name) {
        Some(h) => if contains_hash(required, &h) {
            Some(h)
        } else {
            None
        },
        None => None,
    }
}

/// Path records in increasing hash order (equal hashes in any order).
pub open spec fn hash_sorted(s: PathsView) -> bool {
    forall|i: int, j: int| 0 <= i < j < s.len() ==> !lex_lt(s[j].0, s[i].0)
}

fn insert_by_hash(out: &mut Vec<(ContentHash, u64, Option<String>)>, x: (ContentHash, u64, Option<String>)) -> (p: usize)
    requires
        hash_sorted(paths_view(old(out)@)),
    ensures
        p <= old(out)@.len(),
        paths_view(final(out)@) == paths_view(old(out)@).insert(p as int, (x.0@, x.1, opt_str_view(x.2))),
        hash_sorted(paths_view(final(out)@)),
{
    let ghost o = paths_view(out@);
    let ghost xv = (x.0@, x.1, opt_str_view(x.2));
    let mut p: usize = 0;
    while p < out.len() && !lex_less(x.0.bytes.as_slice(), out[p].0.bytes.as_slice())
        invariant
            0 <= p <= out@.len(),
            o == paths_view(out@),
            xv == (x.0@, x.1, opt_str_view(x.2)),
            forall|a: int| 0 <= a < p ==> !lex_lt(xv.0, (#[trigger] o[a]).0),
        decreases out@.len() - p,
    {
        p = p + 1;
    }
    out.insert(p, x);
    proof {
        let o2 = paths_view(out@);
        assert(o2 =~= o.insert(p as int, xv));
        assert forall|a: int, b: int| 0 <= a < b < o2.len() implies !lex_lt(o2[b].0, o2[a].0) by {
            if b < p {
                assert(o2[a] == o[a] && o2[b] == o[b]);
                assert(!lex_lt(o[b].0, o[a].0));
            } else if a < p && b == p {
            } else if a < p {
                assert(o2[a] == o[a] && o2[b] == o[b - 1]);
                assert(!lex_lt(o[b - 1].0, o[a].0));
            } else if a == p {
                assert(o2[b] == o[b - 1]);
                assert(lex_lt(xv.0, o[p as int].0));
                if p < b - 1 {
                    assert(!lex_lt(o[b - 1].0, o[p as int].0));
                }
                lemma_lex_transitive(o[b - 1].0, xv.0, o[p as int].0, false);
                lemma_lex_irreflexive(o[p as int].0, false);
            } else {
                assert(o2[a] == o[a - 1] && o2[b] == o[b - 1]);
                assert(!lex_lt(o[b - 1].0, o[a - 1].0));
            }
        }
    }
    p
}

/// The path records sorted by hash.
pub fn sort_paths(paths: &Vec<(ContentHash, u64, Option<String>)>) -> (r: Vec<(ContentHash, u64, Option<String>)>)
    ensures
        hash_sorted(paths_view(r@)),
        r@.len() == paths@.len(),
        same_members(paths_view(r@), paths_view(paths@)),
        paths_view(r@).to_multiset() == paths_view(paths@).to_multiset(),
{
    let ghost inp = paths_view(paths@);
    let mut out: Vec<(ContentHash, u64, Option<String>)> = Vec::new();
    let mut i: usize = 0;
    assert(paths_view(out@) =~= Seq::empty());
    assert(inp.take(0) =~= Seq::empty());
    while i < paths.len()
        invariant
            0 <= i <= paths@.len(),
            inp == paths_view(paths@),
            out@.len() == i,
            hash_sorted(paths_view(out@)),
            same_members(paths_view(out@), inp.take(i as int)),
            paths_view(out@).to_multiset() == inp.take(i as int).to_multiset(),
        decreases paths@.len() - i,
    {
        let x = (paths[i].0, paths[i].1, match &paths[i].2 {
            Some(s) => Some(s.clone()),
            None => None,
        });
        let ghost o = paths_view(out@);
        assert((x.0@, x.1, opt_str_view(x.2)) == inp[i as int]);
        let p = insert_by_hash(&mut out, x);
        proof {
            lemma_members_insert(inp, o, p as int, i as int);
            to_multiset_insert(o, p as int, inp[i as int]);
            to_multiset_build(inp.take(i as int), inp[i as int]);
            assert(inp.take(i + 1) =~= inp.take(i as int).push(inp[i as int]));
        }
        i = i + 1;
    }
    assert(inp.take(i as int) =~= inp);
    out
}

proof fn lemma_members_insert(inp: PathsView, o: PathsView, p: int, i: int)
    requires
        0 <= i < inp.len(),
        0 <= p <= o.len(),
        same_members(o, inp.take(i)),
    ensures
        same_members(o.insert(p, inp[i]), inp.take(i + 1)),
{
    let o2 = o.insert(p, inp[i]);
    let t = inp.take(i);
    let t2 = inp.take(i + 1);
    assert forall|a: int| 0 <= a < o2.len() implies is_member(t2, #[trigger] o2[a]) by {
        if a == p {
            assert(t2[i] == o2[a]);
        } else {
            let b = if a < p { a } else { a - 1 };
            assert(o2[a] == o[b]);
            assert(is_member(t, o[b]));
            let j = choose|j: int| 0 <= j < t.len() && t[j] == o[b];
            assert(t2[j] == o2[a]);
        }
    }
    assert forall|j: int| 0 <= j < t2.len() implies is_member(o2, #[trigger] t2[j]) by {
        if j == i {
            assert(o2[p] == t2[j]);
        } else {
            assert(t2[j] == t[j]);
            assert(is_member(o, t[j]));
            let a = choose|a: int| 0 <= a < o.len() && o[a] == t[j];
            if a < p {
                assert(o2[a] == t2[j]);
            } else {
                assert(o2[a + 1] == t2[j]);
            }
        }
    }
}

/// Path records as the paths file stores them.
pub type RawPaths = Vec<([u8; 32], u64, Option<String>)>;

pub open spec fn raw_paths_view(s: Seq<([u8; 32], u64, Option<String>)>) -> PathsView {
    s.map_values(|p: ([u8; 32], u64, Option<String>)| (p.0@, p.1, opt_str_view(p.2)))
}

/// The records that the bytes of a paths file decode to, if they decode.
pub uninterp spec fn paths_file_decoding(b: Seq<u8>) -> Option<PathsView>;

/// Relies on postcard::from_bytes for a list of (32 bytes, u64, optional
/// string): the records, or an error on bytes that do not decode.
#[verifier::external_body]
fn postcard_decode_paths(b: &[u8]) -> (r: Option<RawPaths>)
    ensures
        r matches Some(v) ==> paths_file_decoding(b@) == Some(raw_paths_view(v@)),
        r is None ==> paths_file_decoding(b@) is None,
{
    postcard::from_bytes::<RawPaths>(b).ok()
}

/// Relies on postcard::to_stdvec: bytes that postcard::from_bytes reads back
/// as the same records. Serializing into a growable vector of a sequence of
/// known length never fails.
#[verifier::external_body]
fn postcard_encode_paths(v: &RawPaths) -> (r: Vec<u8>)
    ensures
        paths_file_decoding(r@) == Some(raw_paths_view(v@)),
{
    postcard::to_stdvec(v).expect("serializing into a vector does not fail")
}

/// The bytes of the paths file for some records: the records sorted by hash.
pub fn encode_paths(paths: &Vec<(ContentHash, u64, Option<String>)>) -> (r: Vec<u8>)
    ensures
        paths_file_decoding(r@) matches Some(d) && hash_sorted(d) && d.len() == paths@.len()
            && same_members(d, paths_view(paths@)) && d.to_multiset() == paths_view(paths@).to_multiset(),
{
    let sorted = sort_paths(paths);
    let mut raw: RawPaths = Vec::new();
    let mut i: usize = 0;
    while i < sorted.len()
        invariant
            0 <= i <= sorted@.len(),
            raw_paths_view(raw@) == paths_view(sorted@).take(i as int),
        decreases sorted@.len() - i,
    {
        let ghost prev = raw@;
        let path = match &sorted[i].2 {
            Some(s) => Some(s.clone()),
            None => None,
        };
        raw.push((sorted[i].0.bytes, sorted[i].1, path));
        assert(raw_paths_view(raw@).drop_last() =~= raw_paths_view(prev));
        assert(raw_paths_view(raw@) =~= paths_view(sorted@).take(i + 1));
        i = i + 1;
    }
    assert(paths_view(sorted@).take(i as int) =~= paths_view(sorted@));
    postcard_encode_paths(&raw)
}

/// The records of a paths file, or `None` for bytes that do not decode.
pub fn decode_paths(b: &[u8]) -> (r: Option<Vec<(ContentHash, u64, Option<String>)>>)
    ensures
        r matches Some(v) ==> paths_file_decoding(b@) == Some(paths_view(v@)),
        r is None ==> paths_file_decoding(b@) is None,
{
    let raw = match postcard_decode_paths(b) {
        Some(v) => v,
        None => return None,
    };
    let mut out: Vec<(ContentHash, u64, Option<String>)> = Vec::new();
    let mut i: usize = 0;
    while i < raw.len()
        invariant
            0 <= i <= raw@.len(),
            paths_view(out@) == raw_paths_view(raw@).take(i as int),
        decreases raw@.len() - i,
    {
        let ghost prev = out@;
        let path = match &raw[i].2 {
            Some(s) => Some(s.clone()),
            None => None,
        };
        out.push((ContentHash::from_bytes(raw[i].0), raw[i].1, path));
        assert(paths_view(out@).drop_last() =~= paths_view(prev));
        assert(paths_view(out@) =~= raw_paths_view(raw@).take(i + 1));
        i = i + 1;
    }
    assert(raw_paths_view(raw@).take(i as int) =~= raw_paths_view(raw@));
    Some(out)
}

} // verus!
