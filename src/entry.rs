use vstd::prelude::*;

verus! {

/// Where the bytes of one hash live, together with their outboard.
#[derive(Clone, Debug, PartialEq, Eq)]
pub enum DbEntry {
    /// The content is a file at `path`, of `size` bytes.
    External { outboard: Vec<u8>, path: String, size: u64 },
    /// The content is held by the store itself.
    Internal { outboard: Vec<u8>, data: Vec<u8> },
}

/// The mathematical value of an entry.
pub enum EntryView {
    External { outboard: Seq<u8>, path: Seq<char>, size: u64 },
    Internal { outboard: Seq<u8>, data: Seq<u8> },
}

impl EntryView {
    pub open spec fn outboard(self) -> Seq<u8> {
        match self {
            EntryView::External { outboard, .. } => outboard,
            EntryView::Internal { outboard, .. } => outboard,
        }
    }

    /// The declared size of an external file, or the length of held content.
    pub open spec fn size(self) -> nat {
        match self {
            EntryView::External { size, .. } => size as nat,
            EntryView::Internal { data, .. } => data.len(),
        }
    }
}

impl View for DbEntry {
    type V = EntryView;

    open spec fn view(&self) -> EntryView {
        match self {
            DbEntry::External { outboard, path, size } => EntryView::External {
                outboard: outboard@,
                path: path@,
                size: *size,
            },
            DbEntry::Internal { outboard, data } => EntryView::Internal {
                outboard: outboard@,
                data: data@,
            },
        }
    }
}

/// A copy of a byte buffer.
pub fn copy_bytes(v: &[u8]) -> (r: Vec<u8>)
    ensures
        r@ == v@,
{
    let mut r: Vec<u8> = Vec::with_capacity(v.len());
    let mut i: usize = 0;
    while i < v.len()
        invariant
            0 <= i <= v.len(),
            r@ == v@.take(i as int),
        decreases v.len() - i,
    {
        r.push(v[i]);
        i = i + 1;
        assert(r@ =~= v@.take(i as int));
    }
    assert(v@.take(v.len() as int) =~= v@);
    r
}

impl DbEntry {
    /// A copy of this entry with the same value.
    pub fn duplicate(&self) -> (r: DbEntry)
        ensures
            r@ == self@,
    {
        match self {
            DbEntry::External { outboard, path, size } => DbEntry::External {
                outboard: copy_bytes(outboard),
                path: path.clone(),
                size: *size,
            },
            DbEntry::Internal { outboard, data } => DbEntry::Internal {
                outboard: copy_bytes(outboard),
                data: copy_bytes(data),
            },
        }
    }

    pub fn is_external(&self) -> (r: bool)
        ensures
            r == (self@ is External),
    {
        matches!(self, DbEntry::External { .. })
    }

    pub fn outboard(&self) -> (r: &Vec<u8>)
        ensures
            r@ == self@.outboard(),
    {
        match self {
            DbEntry::External { outboard, .. } => outboard,
            DbEntry::Internal { outboard, .. } => outboard,
        }
    }

    /// The size reported for this entry: the declared one for a file, the
    /// content's length otherwise.
    pub fn size(&self) -> (r: u64)
        ensures
            r == self@.size() as u64,
    {
        match self {
            DbEntry::External { size, .. } => *size,
            DbEntry::Internal { data, .. } => data.len() as u64,
        }
    }

    /// The file path of an external entry.
    pub fn blob_path(&self) -> (r: Option<&String>)
        ensures
            r matches Some(p) ==> self@ matches EntryView::External { path, .. } && p@ == path,
            r is None ==> self@ is Internal,
    {
        match self {
            DbEntry::External { path, .. } => Some(path),
            DbEntry::Internal { .. } => None,
        }
    }
}

} // verus!
