//! Identities and kinds of the objects a tree holds.

use vstd::prelude::*;
use vstd::std_specs::cmp::PartialEqSpecImpl;
use crate::bytes::{append_hex, hex};

verus! {

/// The content hash that identifies a tree, blob or commit.
#[derive(Clone, Copy, Debug)]
pub struct ObjectId {
    pub bytes: [u8; 20],
}

impl PartialEq for ObjectId {
    fn eq(&self, other: &Self) -> (r: bool) {
        let mut i: usize = 0;
        while i < 20
            invariant
                i <= 20,
                forall|j: int| 0 <= j < i ==> self.bytes[j] == other.bytes[j],
            decreases 20 - i,
        {
            if self.bytes[i] != other.bytes[i] {
                return false;
            }
            i += 1;
        }
        assert(self.bytes =~= other.bytes);
        true
    }
}

impl Eq for ObjectId {}

impl PartialEqSpecImpl for ObjectId {
    open spec fn obeys_eq_spec() -> bool {
        true
    }

    open spec fn eq_spec(&self, other: &Self) -> bool {
        *self == *other
    }
}

impl ObjectId {
    /// The id in lower-case hexadecimal, as it is written in text.
    pub fn to_hex(&self) -> (r: Vec<u8>)
        ensures
            r@ == hex(self.bytes@),
    {
        let mut out: Vec<u8> = Vec::new();
        append_hex(&mut out, self.bytes.as_slice());
        assert(Seq::<u8>::empty() + hex(self.bytes@) =~= hex(self.bytes@));
        out
    }
}

/// What a tree entry is.
#[derive(Clone, Copy, Debug, PartialEq, Eq, Structural, Hash)]
pub enum EntryKind {
    Tree,
    Blob,
    BlobExecutable,
    Link,
    Commit,
}

impl EntryKind {
    /// The entry holds the bytes of a regular file, executable or not.
    pub open spec fn spec_is_blob(self) -> bool {
        self == EntryKind::Blob || self == EntryKind::BlobExecutable
    }

    /// Whether the entry holds the bytes of a regular file, executable or not.
    pub fn is_blob(&self) -> (r: bool)
        ensures
            r == self.spec_is_blob(),
    {
        match self {
            EntryKind::Blob => true,
            EntryKind::BlobExecutable => true,
            _ => false,
        }
    }
}

/// What a tree holds at a path: the kind of the entry and the object it names.
#[derive(Clone, Copy, Debug, PartialEq, Eq)]
pub struct TreeEntry {
    pub kind: EntryKind,
    pub id: ObjectId,
}

} // verus!
