//! Inode numbers: a 64-bit value whose high half names a file and whose low
//! half names a directory of the tag tree.

use vstd::prelude::*;

verus! {

pub type FileNumber = u64;

pub type TagNumber = u64;

/// The inode of the top of the virtual tree: a tag inode with tag half 1.
pub const ROOT_INO: u64 = 1;

/// The largest value that fits in one half of an inode.
pub const HALF_MAX: u64 = 0xFFFF_FFFF;

/// The file half of an inode.
pub open spec fn file_part(ino: u64) -> u64 {
    ino >> 32u64
}

/// The tag half of an inode.
pub open spec fn tag_part(ino: u64) -> u64 {
    ino & 0xFFFF_FFFFu64
}

/// The inode made of a file half and a tag half.
pub open spec fn compose(file: u64, tag: u64) -> u64 {
    (file << 32u64) | tag
}

/// An inode denotes a tag directory exactly when its file half is zero.
pub open spec fn denotes_tag(ino: u64) -> bool {
    file_part(ino) == 0
}

#[derive(Clone, Copy, Debug, PartialEq, Eq, Hash, Structural)]
pub struct Ino(pub u64);

impl Ino {
    pub fn is_tag(&self) -> (r: bool)
        ensures
            r == denotes_tag(self.0),
    {
        self.file() == 0
    }

    pub fn is_file(&self) -> (r: bool)
        ensures
            r == !denotes_tag(self.0),
    {
        !self.is_tag()
    }

    pub fn file(&self) -> (r: FileNumber)
        ensures
            r == file_part(self.0),
            r <= HALF_MAX,
    {
        let v = self.0;
        assert(v >> 32u64 <= 0xFFFF_FFFFu64) by (bit_vector);
        v >> 32u64
    }

    pub fn tag(&self) -> (r: TagNumber)
        ensures
            r == tag_part(self.0),
            r <= HALF_MAX,
    {
        let v = self.0;
        assert(v & 0xFFFF_FFFFu64 <= 0xFFFF_FFFFu64) by (bit_vector);
        v & 0xFFFF_FFFFu64
    }

    /// Builds an inode from an unshifted file half and tag half.
    pub fn from_parts(file: u64, tag: u64) -> (r: Ino)
        ensures
            r.0 == compose(file, tag),
    {
        Ino((file << 32u64) | tag)
    }

    pub fn from_tag(tag: u64) -> (r: Ino)
        ensures
            r.0 == compose(0, tag),
            tag <= HALF_MAX ==> denotes_tag(r.0) && tag_part(r.0) == tag,
    {
        proof {
            if tag <= HALF_MAX {
                lemma_parts_of_compose(0, tag);
            }
        }
        Ino::from_parts(0, tag)
    }
}

/// Splitting an inode built from two halves gives the halves back.
pub proof fn lemma_parts_of_compose(file: u64, tag: u64)
    requires
        file <= HALF_MAX,
        tag <= HALF_MAX,
    ensures
        file_part(compose(file, tag)) == file,
        tag_part(compose(file, tag)) == tag,
{
    assert(file <= 0xFFFF_FFFFu64 && tag <= 0xFFFF_FFFFu64 ==> ((file << 32u64) | tag) >> 32u64
        == file) by (bit_vector);
    assert(tag <= 0xFFFF_FFFFu64 ==> ((file << 32u64) | tag) & 0xFFFF_FFFFu64 == tag)
        by (bit_vector);
}

/// Every inode is a tag directory or a file, never both, and it is a tag
/// directory exactly when its file half is zero.
pub proof fn lemma_classification(ino: u64)
    ensures
        denotes_tag(ino) <==> file_part(ino) == 0,
        denotes_tag(ino) != !denotes_tag(ino),
{
}

/// Rebuilding an inode from its two halves gives the same inode.
pub proof fn lemma_compose_of_parts(ino: u64)
    ensures
        compose(file_part(ino), tag_part(ino)) == ino,
{
    assert(((ino >> 32u64) << 32u64) | (ino & 0xFFFF_FFFFu64) == ino) by (bit_vector);
}

} // verus!
