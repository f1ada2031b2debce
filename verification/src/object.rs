//! Objects and the store that keeps them under the digest of their record.
use crate::digest::is_digest;
use crate::digest::sha1_digest;
use crate::digest::sha1_hex;
use crate::table::Table;
use crate::text::append;
use crate::text::bytes_eq;
use crate::text::is_token;
use crate::text::lowered;
use crate::text::to_lower;
use vstd::prelude::*;
use vstd::slice::slice_subrange;
use vstd::slice::slice_to_vec;

verus! {

/// What an object holds. `Unknown` stands for a tag that names no kind: no
/// object that is read has it.
#[derive(Debug, Clone, Copy, PartialEq, Eq, Structural)]
pub enum Kind {
    Unknown,
    Blob,
    Tree,
    Commit,
}

/// Why an operation on the store gave no result.
#[derive(Debug, Clone, Copy, PartialEq, Eq, Structural)]
pub enum Error {
    /// No object is stored under the id.
    NotFound,
    /// A record, a tree line or a commit header is not in the expected form.
    BadFormat,
    /// Trees are nested deeper than `MAX_TREE_DEPTH`.
    Corrupt,
}

/// An object read from the store.
#[derive(Debug)]
pub struct Object {
    pub kind: Kind,
    pub contents: Vec<u8>,
}

/// The tag of a kind: its name in lower case ASCII.
pub open spec fn kind_name(kind: Kind) -> Seq<u8> {
    match kind {
        Kind::Unknown => seq![110u8, 111u8, 110u8, 101u8],
        Kind::Blob => seq![98u8, 108u8, 111u8, 98u8],
        Kind::Tree => seq![116u8, 114u8, 101u8, 101u8],
        Kind::Commit => seq![99u8, 111u8, 109u8, 109u8, 105u8, 116u8],
    }
}

/// The kind that a tag names, whatever the case of its letters; `Unknown` for
/// any other tag.
pub open spec fn kind_of(tag: Seq<u8>) -> Kind {
    let t = lowered(tag);
    if t == kind_name(Kind::Blob) {
        Kind::Blob
    } else if t == kind_name(Kind::Tree) {
        Kind::Tree
    } else if t == kind_name(Kind::Commit) {
        Kind::Commit
    } else {
        Kind::Unknown
    }
}

/// What is stored for an object: the tag, a zero byte, the contents.
pub open spec fn record(kind: Kind, contents: Seq<u8>) -> Seq<u8> {
    kind_name(kind) + seq![0u8] + contents
}

/// The id of an object: the digest of its record.
pub open spec fn object_id(kind: Kind, contents: Seq<u8>) -> Seq<u8> {
    sha1_hex(record(kind, contents))
}

/// The index of the first zero byte at or after `i`, or the length.
pub open spec fn header_end(rec: Seq<u8>, i: int) -> int
    decreases rec.len() - i,
{
    if 0 <= i < rec.len() && rec[i] != 0 {
        header_end(rec, i + 1)
    } else {
        i
    }
}

/// The kind and contents that a record holds, if it has a zero byte to end
/// its tag and the tag names a kind.
pub open spec fn parse_record(rec: Seq<u8>) -> Option<(Kind, Seq<u8>)> {
    let z = header_end(rec, 0);
    if 0 <= z < rec.len() && kind_of(rec.subrange(0, z)) != Kind::Unknown {
        Some((kind_of(rec.subrange(0, z)), rec.subrange(z + 1, rec.len() as int)))
    } else {
        None
    }
}

/// What reading `id` from the store `m` gives: `NotFound` where nothing is
/// stored under `id`, `BadFormat` where the record has no zero byte or its
/// tag names no kind, else the kind and the contents.
pub open spec fn fetch(m: Map<Seq<u8>, Seq<u8>>, id: Seq<u8>) -> Result<(Kind, Seq<u8>), Error> {
    if !m.contains_key(id) {
        Err(Error::NotFound)
    } else {
        match parse_record(m[id]) {
            Some(found) => Ok(found),
            None => Err(Error::BadFormat),
        }
    }
}

/// The store `m` after an object of this kind and contents was written.
pub open spec fn put(m: Map<Seq<u8>, Seq<u8>>, kind: Kind, contents: Seq<u8>) -> Map<
    Seq<u8>,
    Seq<u8>,
> {
    m.insert(object_id(kind, contents), record(kind, contents))
}

/// Whether the store `after` holds all that `m` holds, unchanged.
pub open spec fn extends(after: Map<Seq<u8>, Seq<u8>>, m: Map<Seq<u8>, Seq<u8>>) -> bool {
    forall|k: Seq<u8>| #[trigger] m.contains_key(k) ==> after.contains_key(k) && after[k] == m[k]
}

/// Whether the store `m` holds the record of this object under its id.
pub open spec fn holds(m: Map<Seq<u8>, Seq<u8>>, kind: Kind, contents: Seq<u8>) -> bool {
    m.contains_key(object_id(kind, contents)) && m[object_id(kind, contents)] == record(
        kind,
        contents,
    )
}

/// Whether writing this object replaces no other: nothing is stored under
/// its id yet, or the object itself is.
pub open spec fn put_keeps(m: Map<Seq<u8>, Seq<u8>>, kind: Kind, contents: Seq<u8>) -> bool {
    m.contains_key(object_id(kind, contents)) ==> holds(m, kind, contents)
}

impl Kind {
    /// The tag of this kind.
    pub fn name(&self) -> (r: Vec<u8>)
        ensures
            r@ == kind_name(*self),
    {
        let r: Vec<u8> = match self {
            Kind::Unknown => vec![110u8, 111u8, 110u8, 101u8],
            Kind::Blob => vec![98u8, 108u8, 111u8, 98u8],
            Kind::Tree => vec![116u8, 114u8, 101u8, 101u8],
            Kind::Commit => vec![99u8, 111u8, 109u8, 109u8, 105u8, 116u8],
        };
        assert(r@ =~= kind_name(*self));
        r
    }

    /// The kind that `tag` names.
    pub fn from_bytes(tag: &[u8]) -> (r: Kind)
        ensures
            r == kind_of(tag@),
    {
        let t = to_lower(tag);
        if bytes_eq(t.as_slice(), Kind::Blob.name().as_slice()) {
            Kind::Blob
        } else if bytes_eq(t.as_slice(), Kind::Tree.name().as_slice()) {
            Kind::Tree
        } else if bytes_eq(t.as_slice(), Kind::Commit.name().as_slice()) {
            Kind::Commit
        } else {
            Kind::Unknown
        }
    }
}

/// The tag of a kind is a token that names this kind.
pub proof fn lemma_kind_name(kind: Kind)
    ensures
        is_token(kind_name(kind)),
        kind_of(kind_name(kind)) == kind,
{
    let t = lowered(kind_name(kind));
    assert(t =~= kind_name(kind));
    assert(kind_name(Kind::Blob)[0] == 98u8);
    assert(kind_name(Kind::Tree)[0] == 116u8);
    assert(kind_name(Kind::Commit)[0] == 99u8);
    assert(kind_name(Kind::Unknown)[0] == 110u8);
}

/// A record that was built from a kind and contents holds just these.
pub proof fn lemma_record_parses(kind: Kind, contents: Seq<u8>)
    requires
        kind != Kind::Unknown,
    ensures
        parse_record(record(kind, contents)) == Some((kind, contents)),
{
    let rec = record(kind, contents);
    let n = kind_name(kind).len() as int;
    assert(rec[n] == 0u8);
    assert forall|k: int| 0 <= k < n implies rec[k] != 0u8 by {
        assert(rec[k] == kind_name(kind)[k]);
    }
    lemma_header_end(rec, 0, n);
    assert(rec.subrange(0, n) =~= kind_name(kind));
    assert(rec.subrange(n + 1, rec.len() as int) =~= contents);
    let t = lowered(kind_name(kind));
    assert(t =~= kind_name(kind));
    assert(kind_name(Kind::Blob).len() == 4);
    assert(kind_name(Kind::Blob)[0] == 98u8);
    assert(kind_name(Kind::Tree)[0] == 116u8);
    assert(kind_name(Kind::Commit)[0] == 99u8);
    assert(kind_name(Kind::Unknown)[0] == 110u8);
}

/// Where the tag of a record ends: at the first zero byte.
pub proof fn lemma_header_end(rec: Seq<u8>, i: int, z: int)
    requires
        0 <= i <= z <= rec.len(),
        forall|k: int| i <= k < z ==> rec[k] != 0u8,
        z < rec.len() ==> rec[z] == 0u8,
    ensures
        header_end(rec, i) == z,
    decreases z - i,
{
    if i < z {
        lemma_header_end(rec, i + 1, z);
    }
}

/// Writes an object of this kind and contents and returns its id. Writing
/// what is there already changes nothing. What was written reads back,
/// unless the kind is `Unknown`.
pub fn hash_contents(store: &mut Table, contents: &[u8], kind: Kind) -> (id: Vec<u8>)
    ensures
        id@ == object_id(kind, contents@),
        is_digest(id@),
        final(store)@ == put(old(store)@, kind, contents@),
        old(store).slots().is_prefix_of(final(store).slots()),
        kind != Kind::Unknown ==> fetch(final(store)@, id@) == Ok::<(Kind, Seq<u8>), Error>(
            (kind, contents@),
        ),
{
    proof {
        if kind != Kind::Unknown {
            lemma_record_parses(kind, contents@);
        }
    }
    let mut text = kind.name();
    text.push(0u8);
    append(&mut text, contents);
    assert(text@ =~= record(kind, contents@));
    let id = sha1_digest(text.as_slice());
    let key = slice_to_vec(id.as_slice());
    store.insert(key, text);
    id
}

/// Reads the object stored under `object`. Fails with `NotFound` where
/// there is none, and with `BadFormat` where the record has no zero byte
/// after its tag or the tag is none of `blob`, `tree` and `commit`.
pub fn get(store: &Table, object: &[u8]) -> (r: Result<Object, Error>)
    ensures
        match r {
            Ok(o) => fetch(store@, object@) == Ok::<(Kind, Seq<u8>), Error>((o.kind, o.contents@))
                && o.kind != Kind::Unknown,
            Err(e) => fetch(store@, object@) == Err::<(Kind, Seq<u8>), Error>(e),
        },
{
    match store.lookup(object) {
        None => Err(Error::NotFound),
        Some(rec) => {
            let mut z: usize = 0;
            while z < rec.len() && rec[z] != 0
                invariant
                    z <= rec.len(),
                    header_end(rec@, 0) == header_end(rec@, z as int),
                decreases rec.len() - z,
            {
                z += 1;
            }
            if z >= rec.len() {
                Err(Error::BadFormat)
            } else {
                let kind = Kind::from_bytes(slice_subrange(rec.as_slice(), 0, z));
                if kind == Kind::Unknown {
                    return Err(Error::BadFormat);
                }
                let contents = slice_to_vec(slice_subrange(rec.as_slice(), z + 1, rec.len()));
                Ok(Object { kind, contents })
            }
        },
    }
}

/// Writing the same object twice gives the same id and leaves the store as
/// the first write left it.
pub proof fn lemma_put_idempotent(m: Map<Seq<u8>, Seq<u8>>, kind: Kind, contents: Seq<u8>)
    ensures
        put(put(m, kind, contents), kind, contents) == put(m, kind, contents),
        put(m, kind, contents)[object_id(kind, contents)] == record(kind, contents),
        kind != Kind::Unknown ==> fetch(put(m, kind, contents), object_id(kind, contents)) == Ok::<
            (Kind, Seq<u8>),
            Error,
        >((kind, contents)),
{
    if kind != Kind::Unknown {
        lemma_record_parses(kind, contents);
    }
    assert(put(put(m, kind, contents), kind, contents) =~= put(m, kind, contents));
}

} // verus!
