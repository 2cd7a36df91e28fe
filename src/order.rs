use vstd::prelude::*;

verus! {

/// Rank of a byte: its value, except that with `sep` the path separator `/`
/// ranks below every other byte.
pub open spec fn byte_rank(b: u8, sep: bool) -> int {
    if sep && b == 47 {
        -1
    } else {
        b as int
    }
}

/// Strict lexicographic order on byte strings, bytes compared by rank.
pub open spec fn ranked_lt(a: Seq<u8>, b: Seq<u8>, sep: bool) -> bool
    decreases a.len(),
{
    if a.len() == 0 {
        b.len() > 0
    } else if b.len() == 0 {
        false
    } else if a[0] != b[0] {
        byte_rank(a[0], sep) < byte_rank(b[0], sep)
    } else {
        ranked_lt(a.drop_first(), b.drop_first(), sep)
    }
}

/// Plain byte order.
pub open spec fn lex_lt(a: Seq<u8>, b: Seq<u8>) -> bool {
    ranked_lt(a, b, false)
}

/// Path order: segment by segment, each segment in byte order, a path that
/// is a prefix of the other (in segments) first. For paths without empty or
/// `.` segments this is the order of std's `Path` comparison.
pub open spec fn path_lt(a: Seq<u8>, b: Seq<u8>) -> bool {
    ranked_lt(a, b, true)
}

pub proof fn lemma_lex_irreflexive(a: Seq<u8>, sep: bool)
    ensures
        !ranked_lt(a, a, sep),
    decreases a.len(),
{
    if a.len() > 0 {
        lemma_lex_irreflexive(a.drop_first(), sep);
    }
}

pub proof fn lemma_lex_asymmetric(a: Seq<u8>, b: Seq<u8>, sep: bool)
    ensures
        ranked_lt(a, b, sep) ==> !ranked_lt(b, a, sep),
    decreases a.len(),
{
    if a.len() > 0 && b.len() > 0 && a[0] == b[0] {
        lemma_lex_asymmetric(a.drop_first(), b.drop_first(), sep);
    }
}

pub proof fn lemma_lex_total(a: Seq<u8>, b: Seq<u8>, sep: bool)
    ensures
        a != b ==> ranked_lt(a, b, sep) || ranked_lt(b, a, sep),
    decreases a.len(),
{
    if a.len() > 0 && b.len() > 0 && a[0] == b[0] {
        lemma_lex_total(a.drop_first(), b.drop_first(), sep);
        if a.drop_first() == b.drop_first() {
            assert(a =~= seq![a[0]] + a.drop_first());
            assert(b =~= seq![b[0]] + b.drop_first());
        }
    }
    if a.len() == 0 && b.len() == 0 {
        assert(a =~= b);
    }
}

pub proof fn lemma_lex_transitive(a: Seq<u8>, b: Seq<u8>, c: Seq<u8>, sep: bool)
    ensures
        ranked_lt(a, b, sep) && ranked_lt(b, c, sep) ==> ranked_lt(a, c, sep),
    decreases a.len(),
{
    if a.len() > 0 && b.len() > 0 && c.len() > 0 {
        lemma_lex_transitive(a.drop_first(), b.drop_first(), c.drop_first(), sep);
    }
}

/// Whether `a` comes strictly before `b`, bytes compared by rank.
pub fn ranked_less(a: &[u8], b: &[u8], sep: bool) -> (r: bool)
    ensures
        r == ranked_lt(a@, b@, sep),
{
    let mut i: usize = 0;
    assert(a@.subrange(0, a@.len() as int) =~= a@);
    assert(b@.subrange(0, b@.len() as int) =~= b@);
    loop
        invariant
            0 <= i <= a@.len(),
            i <= b@.len(),
            ranked_lt(a@, b@, sep) == ranked_lt(a@.subrange(i as int, a@.len() as int), b@.subrange(i as int, b@.len() as int), sep),
        decreases a@.len() - i,
    {
        let ghost sa = a@.subrange(i as int, a@.len() as int);
        let ghost sb = b@.subrange(i as int, b@.len() as int);
        if i == a.len() {
            return i < b.len();
        }
        if i == b.len() {
            return false;
        }
        if a[i] != b[i] {
            assert(sa[0] == a@[i as int] && sb[0] == b@[i as int]);
            if sep && a[i] == 47 {
                return true;
            }
            if sep && b[i] == 47 {
                return false;
            }
            return a[i] < b[i];
        }
        assert(sa.drop_first() =~= a@.subrange(i + 1, a@.len() as int));
        assert(sb.drop_first() =~= b@.subrange(i + 1, b@.len() as int));
        i = i + 1;
    }
}

/// Whether `a` comes strictly before `b` in byte order.
pub fn lex_less(a: &[u8], b: &[u8]) -> (r: bool)
    ensures
        r == lex_lt(a@, b@),
{
    ranked_less(a, b, false)
}

/// Whether path bytes `a` come strictly before `b` in path order.
pub fn path_less(a: &[u8], b: &[u8]) -> (r: bool)
    ensures
        r == path_lt(a@, b@),
{
    ranked_less(a, b, true)
}

/// `x` occurs in `s`.
pub open spec fn is_member<T>(s: Seq<T>, x: T) -> bool {
    exists|a: int| 0 <= a < s.len() && s[a] == x
}

/// The same elements, each side's found in the other.
pub open spec fn same_members<T>(s: Seq<T>, t: Seq<T>) -> bool {
    &&& forall|a: int| 0 <= a < s.len() ==> is_member(t, #[trigger] s[a])
    &&& forall|j: int| 0 <= j < t.len() ==> is_member(s, #[trigger] t[j])
}

} // verus!
