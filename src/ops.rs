//! The filesystem operations, as the kernel asks for them: each one resolves
//! inodes and names against the tag index and tree, changes them where it
//! must, and says what to answer. Reading file contents and attributes from
//! the source directory is left to the caller.

use vstd::prelude::*;
use vstd::std_specs::hash::group_hash_axioms;

use crate::collections::rebind;
use crate::ordered::{
    enumerates, in_order, lemma_in_order, lookup_all, members, named_files, pairs_in_order,
    sort_numbers,
};
use crate::index::{in_all, intersection_of, key_of, TagFS};
use crate::ino::{compose, denotes_tag, file_part, tag_part, Ino, FileNumber, TagNumber, HALF_MAX};
use crate::savefile::names_view;
use crate::tree::{added_if_needed, TagTree};

verus! {

broadcast use group_hash_axioms;

/// A handle on a file opened in the source directory.
#[derive(Clone, Copy, Debug, PartialEq, Eq, Hash, Structural)]
pub struct FileHandle(pub u64);

/// Why an operation is refused.
#[derive(Clone, Copy, Debug, PartialEq, Eq, Hash, Structural)]
pub enum FsError {
    /// No such file, tag, directory, or file under this directory.
    NotFound,
    /// A directory operation on a file's inode.
    NotDir,
    /// A rename other than of a tag or of a file between directories, or a
    /// reserved name.
    NotSupported,
    /// The 32-bit space of directory numbers is used up.
    NoSpace,
}

/// What an inode or a name resolves to.
#[derive(Debug)]
pub enum Entry {
    /// A tag directory with this inode.
    Folder(u64),
    /// A file with this inode; its attributes are those of the source file
    /// `name`.
    File { ino: u64, name: Vec<u8> },
}

/// The kind of a directory entry.
#[derive(Clone, Copy, Debug, PartialEq, Eq, Hash, Structural)]
pub enum EntryKind {
    Directory,
    RegularFile,
}

/// One entry of a directory listing.
#[derive(Debug)]
pub struct DirEntry {
    pub ino: u64,
    pub kind: EntryKind,
    pub name: Vec<u8>,
}

/// The tag directories listed under directory `tp`: one for each tag of
/// `pairs` that is not on its path, in the order of `pairs`.
pub open spec fn tag_rows(
    tree: TagTree,
    tp: int,
    path: Seq<TagNumber>,
    pairs: Seq<(u64, Seq<u8>)>,
) -> Seq<(u64, EntryKind, Seq<u8>)>
    decreases pairs.len(),
{
    if pairs.len() == 0 {
        seq![]
    } else {
        let rest = tag_rows(tree, tp, path, pairs.drop_last());
        let p = pairs.last();
        if path.contains(p.0) {
            rest
        } else {
            rest.push((compose(0, tree.child_with(tp, p.0)->0), EntryKind::Directory, p.1))
        }
    }
}

/// How many tags of `pairs` off the path of directory `tp` have no
/// directory below it yet: the directories that listing them creates.
pub open spec fn missing_dirs(tree: TagTree, tp: int, path: Seq<TagNumber>, pairs: Seq<(u64, Seq<u8>)>) -> nat
    decreases pairs.len(),
{
    if pairs.len() == 0 {
        0
    } else {
        missing_dirs(tree, tp, path, pairs.drop_last()) + if !path.contains(pairs.last().0)
            && tree.child_with(tp, pairs.last().0) is None {
            1nat
        } else {
            0nat
        }
    }
}

proof fn lemma_missing_prefix(tree: TagTree, tp: int, path: Seq<TagNumber>, pairs: Seq<(u64, Seq<u8>)>, i: int)
    requires
        0 <= i <= pairs.len(),
    ensures
        missing_dirs(tree, tp, path, pairs.take(i)) <= missing_dirs(tree, tp, path, pairs),
    decreases pairs.len() - i,
{
    if i == pairs.len() {
        assert(pairs.take(i) =~= pairs);
    } else {
        lemma_missing_prefix(tree, tp, path, pairs, i + 1);
        assert(pairs.take(i + 1).drop_last() =~= pairs.take(i));
    }
}

/// The files listed under directory `tp`, in the order of `pairs`.
pub open spec fn file_rows(tp: int, pairs: Seq<(u64, Seq<u8>)>) -> Seq<(u64, EntryKind, Seq<u8>)> {
    pairs.map_values(|p: (u64, Seq<u8>)| (compose(p.0, tp as u64), EntryKind::RegularFile, p.1))
}

/// The whole listing of directory `tp` whose inode is `ino`: itself, its
/// parent, its tag directories, its files.
pub open spec fn listing(
    tree: TagTree,
    tp: int,
    ino: u64,
    up: u64,
    path: Seq<TagNumber>,
    tags: Seq<(u64, Seq<u8>)>,
    files: Seq<(u64, Seq<u8>)>,
) -> Seq<(u64, EntryKind, Seq<u8>)> {
    seq![(ino, EntryKind::Directory, seq![46u8]), (up, EntryKind::Directory, seq![46u8, 46u8])]
        + tag_rows(tree, tp, path, tags) + file_rows(tp, files)
}

/// The inode of the parent of directory `tp`; the root is its own parent.
pub open spec fn parent_ino(tree: TagTree, tp: int) -> u64 {
    match tree.node(tp).parent {
        Some(p) => compose(0, p),
        None => compose(0, tp as u64),
    }
}

/// `v` holds the rows of `rows` from index `from` on.
pub open spec fn shows(v: Seq<DirEntry>, rows: Seq<(u64, EntryKind, Seq<u8>)>, from: int) -> bool {
    &&& v.len() == rows.len() - from
    &&& forall|k: int|
        0 <= k < v.len() ==> {
            let e = #[trigger] v[k];
            &&& e.ino == rows[from + k].0
            &&& e.kind == rows[from + k].1
            &&& e.name@ == rows[from + k].2
        }
}

/// Materializing more directories leaves the tag directories listed before
/// where they were.
pub proof fn lemma_tag_rows_stable(
    new: TagTree,
    old: TagTree,
    tp: int,
    path: Seq<TagNumber>,
    pairs: Seq<(u64, Seq<u8>)>,
)
    requires
        new.wf(),
        old.wf(),
        new.extends(&old),
        old.has_node(tp),
        forall|i: int|
            0 <= i < pairs.len() && !path.contains(#[trigger] pairs[i].0) ==> old.child_with(
                tp,
                pairs[i].0,
            ) is Some,
    ensures
        tag_rows(new, tp, path, pairs) == tag_rows(old, tp, path, pairs),
    decreases pairs.len(),
{
    if pairs.len() > 0 {
        let rest = pairs.drop_last();
        assert forall|i: int|
            0 <= i < rest.len() && !path.contains(#[trigger] rest[i].0) implies old.child_with(
                tp,
                rest[i].0,
            ) is Some by {
            assert(rest[i] == pairs[i]);
        }
        lemma_tag_rows_stable(new, old, tp, path, rest);
        let p = pairs.last();
        assert(p == pairs[pairs.len() - 1]);
        if !path.contains(p.0) {
            new.lemma_extends_child(&old, tp, p.0);
        }
    }
}

/// The files that a listing shows are the right ones: a named file is listed
/// in a directory exactly when it carries every tag of the directory's path,
/// and at the root every named file is listed.
pub proof fn lemma_listed_iff_tagged(
    fs: &TagFS,
    path: Seq<TagNumber>,
    files: Seq<(u64, Seq<u8>)>,
    tp: u64,
    f: FileNumber,
)
    requires
        fs.wf(),
        tp <= HALF_MAX,
        fs.file_names().contains_key(f),
        enumerates(files, named_files(fs.file_names(), intersection_of(fs.file_names(), fs.sets(), path))),
    ensures
        (exists|i: int|
            0 <= i < files.len() && (#[trigger] file_rows(tp as int, files)[i]).0 == compose(f, tp))
            <==> (path.len() == 0 || in_all(fs.sets(), path, f)),
{
    let m = named_files(fs.file_names(), intersection_of(fs.file_names(), fs.sets(), path));
    let rows = file_rows(tp as int, files);
    crate::ino::lemma_parts_of_compose(f, tp);
    if exists|i: int| 0 <= i < files.len() && (#[trigger] rows[i]).0 == compose(f, tp) {
        let i = choose|i: int| 0 <= i < files.len() && (#[trigger] rows[i]).0 == compose(f, tp);
        let a = files[i].0;
        assert(m.contains_key(a));
        assert(a <= HALF_MAX);
        crate::ino::lemma_parts_of_compose(a, tp);
        assert(a == f);
    }
    if path.len() == 0 || in_all(fs.sets(), path, f) {
        assert(m.contains_key(f));
        let i = choose|i: int| 0 <= i < files.len() && files[i].0 == f;
        assert(rows[i].0 == compose(f, tp));
    }
}

/// Whether `t` is one of `path`.
fn contains_tag(path: &Vec<TagNumber>, t: TagNumber) -> (r: bool)
    ensures
        r == path@.contains(t),
{
    let mut i: usize = 0;
    while i < path.len()
        invariant
            i <= path@.len(),
            forall|j: int| 0 <= j < i ==> path@[j] != t,
        decreases path@.len() - i,
    {
        if path[i] == t {
            return true;
        }
        i = i + 1;
    }
    false
}

/// `v` is what `readdir(ino, offset)` lists when it takes the index from
/// `old` to `new`: the listing of the directory, with its tags and its files
/// by increasing number, each listed tag directory materialized, from entry
/// `offset` on.
pub open spec fn lists_dir(old: &TagFS, new: &TagFS, ino: u64, offset: u64, v: Seq<DirEntry>) -> bool {
    let tp = tag_part(ino) as int;
    let path = old.tree.path_of(tp);
    let tags = in_order(old.tag_names());
    let files = in_order(
        named_files(old.file_names(), intersection_of(old.file_names(), old.sets(), path)),
    );
    &&& forall|i: int|
        0 <= i < tags.len() && !path.contains(#[trigger] tags[i].0) ==> new.tree.child_with(
            tp,
            tags[i].0,
        ) is Some
    &&& lists_from(v, listing(new.tree, tp, ino, parent_ino(old.tree, tp), path, tags, files), offset)
}

/// Listing a directory again from entry `k`, with no change to the index in
/// between, gives the entries of the first full listing from `k` on: the
/// order of a listing is stable, so paging neither skips nor repeats.
pub proof fn lemma_readdir_resumes(
    s0: &TagFS,
    s1: &TagFS,
    s2: &TagFS,
    ino: u64,
    k: u64,
    v0: Seq<DirEntry>,
    v1: Seq<DirEntry>,
)
    requires
        s0.wf(),
        s1.wf(),
        s2.wf(),
        s0.tree.has_node(tag_part(ino) as int),
        same_index(s1, s0),
        s1.tree.extends(&s0.tree),
        lists_dir(s0, s1, ino, 0, v0),
        same_index(s2, s1),
        s2.tree.extends(&s1.tree),
        lists_dir(s1, s2, ino, k, v1),
    ensures
        v1.len() == if k < v0.len() { v0.len() - k } else { 0 },
        forall|i: int|
            0 <= i < v1.len() ==> {
                &&& (#[trigger] v1[i]).ino == v0[k + i].ino
                &&& v1[i].kind == v0[k + i].kind
                &&& v1[i].name@ == v0[k + i].name@
            },
{
    let tp = tag_part(ino) as int;
    let path = s0.tree.path_of(tp);
    s1.tree.lemma_extends_path(&s0.tree, tp);
    let tags = in_order(s0.tag_names());
    let files = in_order(
        named_files(s0.file_names(), intersection_of(s0.file_names(), s0.sets(), path)),
    );
    s1.tree.lemma_has_node_index(tp);
    assert(parent_ino(s1.tree, tp) == parent_ino(s0.tree, tp));
    lemma_tag_rows_stable(s2.tree, s1.tree, tp, path, tags);
    let rows = listing(s2.tree, tp, ino, parent_ino(s0.tree, tp), path, tags, files);
    assert(rows == listing(s1.tree, tp, ino, parent_ino(s0.tree, tp), path, tags, files));
}

/// `v` holds the rows of `rows` that follow the first `offset` ones.
pub open spec fn lists_from(v: Seq<DirEntry>, rows: Seq<(u64, EntryKind, Seq<u8>)>, offset: u64) -> bool {
    shows(v, rows, if offset < rows.len() { offset as int } else { rows.len() as int })
}

/// The name of the trash folder that desktops try to create, refused by
/// `mkdir`.
pub open spec fn trash_name() -> Seq<u8> {
    seq![46u8, 84u8, 114u8, 97u8, 115u8, 104u8, 45u8, 49u8, 48u8, 48u8, 48u8]
}

/// `sets` with `f` taken out of the set of every tag of `path`.
pub open spec fn untag(sets: Map<TagNumber, Set<FileNumber>>, path: Seq<TagNumber>, f: FileNumber) -> Map<
    TagNumber,
    Set<FileNumber>,
> {
    Map::new(
        |k: TagNumber| sets.contains_key(k),
        |k: TagNumber| if path.contains(k) { sets[k].remove(f) } else { sets[k] },
    )
}

/// `sets` with `f` put in the set of every tag of `path`.
pub open spec fn retag(sets: Map<TagNumber, Set<FileNumber>>, path: Seq<TagNumber>, f: FileNumber) -> Map<
    TagNumber,
    Set<FileNumber>,
> {
    Map::new(
        |k: TagNumber| sets.contains_key(k),
        |k: TagNumber| if path.contains(k) { sets[k].insert(f) } else { sets[k] },
    )
}

/// `a` and `b` hold the same index, whatever their trees.
pub open spec fn same_index(a: &TagFS, b: &TagFS) -> bool {
    &&& a.tag_content == b.tag_content
    &&& a.files == b.files
    &&& a.tags == b.tags
    &&& a.file_tally == b.file_tally
}

fn trash_name_bytes() -> (r: Vec<u8>)
    ensures
        r@ == trash_name(),
{
    let r: Vec<u8> = vec![46u8, 84u8, 114u8, 97u8, 115u8, 104u8, 45u8, 49u8, 48u8, 48u8, 48u8];
    assert(r@ =~= trash_name());
    r
}

impl TagFS {
    /// Resolves `name` in the directory `parent`: a file listed there, or a
    /// tag directory below it, materialized on first visit.
    pub fn lookup(&mut self, parent: u64, name: &[u8]) -> (r: Result<Entry, FsError>)
        requires
            old(self).wf(),
        ensures
            final(self).wf(),
            same_index(final(self), old(self)),
            ({
                let tp = tag_part(parent) as int;
                let path = old(self).tree.path_of(tp);
                if !denotes_tag(parent) {
                    r == Err::<Entry, FsError>(FsError::NotDir) && final(self).tree == old(self).tree
                } else if !old(self).tree.has_node(tp) {
                    r == Err::<Entry, FsError>(FsError::NotFound) && final(self).tree == old(self).tree
                } else if let Some(f) = key_of(old(self).file_names(), name@) {
                    &&& final(self).tree == old(self).tree
                    &&& if in_all(old(self).sets(), path, f) {
                        r matches Ok(Entry::File { ino, name: n }) && ino == compose(f, tp as u64)
                            && n@ == name@
                    } else {
                        r == Err::<Entry, FsError>(FsError::NotFound)
                    }
                } else if let Some(t) = key_of(old(self).tag_names(), name@) {
                    if old(self).tree.child_with(tp, t) is Some || old(self).tree.counter < HALF_MAX {
                        r matches Ok(Entry::Folder(ino)) && ino == compose(0, tag_part(ino))
                            && added_if_needed(&old(self).tree, &final(self).tree, tp, t, tag_part(ino))
                    } else {
                        r == Err::<Entry, FsError>(FsError::NoSpace) && final(self).tree == old(
                            self,
                        ).tree
                    }
                } else {
                    r == Err::<Entry, FsError>(FsError::NotFound) && final(self).tree == old(self).tree
                }
            }),
    {
        let parent_ino = Ino(parent);
        if parent_ino.is_file() {
            return Err(FsError::NotDir);
        }
        let tp = parent_ino.tag();
        let node = match self.tree.lookup(tp) {
            Some(n) => n,
            None => return Err(FsError::NotFound),
        };
        match self.get_fnb_by_name(name) {
            Some(file) => {
                let path = node.collect_tags(&self.tree);
                if self.contains_in_all(&path, file) {
                    Ok(Entry::File { ino: Ino::from_parts(file, tp).0, name: vstd::slice::slice_to_vec(name) })
                } else {
                    Err(FsError::NotFound)
                }
            },
            None => match self.get_tnb_by_name(name) {
                Some(tag) => {
                    if node.find_child(&self.tree, tag).is_none() && self.tree.counter >= HALF_MAX {
                        return Err(FsError::NoSpace);
                    }
                    let child = self.tree.add_to_if_needed(tp, tag);
                    Ok(Entry::Folder(Ino::from_tag(child).0))
                },
                None => Err(FsError::NotFound),
            },
        }
    }

    /// What the attributes of `ino` come from: a tag directory's are made up,
    /// a file's are those of its source file.
    pub fn getattr(&self, ino: u64) -> (r: Result<Entry, FsError>)
        ensures
            if denotes_tag(ino) {
                r matches Ok(Entry::Folder(i)) && i == ino
            } else if self.file_names().contains_key(file_part(ino)) {
                r matches Ok(Entry::File { ino: i, name: n }) && i == ino && n@ == self.file_names()[file_part(ino)]
            } else {
                r == Err::<Entry, FsError>(FsError::NotFound)
            },
    {
        let i = Ino(ino);
        if i.is_tag() {
            return Ok(Entry::Folder(ino));
        }
        match self.get_fnm_by_number(i.file()) {
            Some(name) => Ok(Entry::File { ino, name }),
            None => Err(FsError::NotFound),
        }
    }

    /// Creates the tag `name`, with a directory under the root whose inode
    /// carries the new tag's number.
    pub fn mkdir(&mut self, name: &[u8]) -> (r: Result<u64, FsError>)
        requires
            old(self).wf(),
        ensures
            final(self).wf(),
            if name@ == trash_name() {
                r == Err::<u64, FsError>(FsError::NotSupported) && *final(self) == *old(self)
            } else if old(self).tree.counter >= HALF_MAX {
                r == Err::<u64, FsError>(FsError::NoSpace) && *final(self) == *old(self)
            } else {
                let t = (old(self).tree.counter + 1) as u64;
                &&& r == Ok::<u64, FsError>(compose(0, t))
                &&& final(self).sets() == old(self).sets().insert(t, Set::<u64>::empty())
                &&& final(self).order() == old(self).order().push(t)
                &&& final(self).tag_names() == rebind(old(self).tag_names(), t, name@)
                &&& final(self).files == old(self).files
                &&& final(self).file_tally == old(self).file_tally
                &&& final(self).tree.extends(&old(self).tree)
                &&& final(self).tree.counter == t
                &&& final(self).tree.has_node(t as int)
                &&& final(self).tree.nodes@.len() == old(self).tree.nodes@.len() + 1
                &&& final(self).tree.node(t as int).parent == Some(1u64)
                &&& final(self).tree.node(t as int).tag == t
                &&& final(self).tree.node(t as int).children@ == Seq::<u64>::empty()
                &&& final(self).tree.path_of(t as int) == seq![t]
                &&& final(self).tree.node(1).children@ == old(self).tree.node(1).children@.push(t)
                &&& final(self).tree.child_with(1, t) == Some(t)
                &&& forall|i: int|
                    1 <= i < old(self).tree.nodes@.len() ==> #[trigger] final(self).tree.nodes@[i]
                        == old(self).tree.nodes@[i]
            },
    {
        let trash = trash_name_bytes();
        if crate::index::bytes_eq(name, trash.as_slice()) {
            return Err(FsError::NotSupported);
        }
        if self.tree.counter >= HALF_MAX {
            return Err(FsError::NoSpace);
        }
        let tnb = self.create_tag(vstd::slice::slice_to_vec(name));
        Ok(Ino::from_tag(tnb).0)
    }

    /// Takes the file `name` out of the directory `parent`: it loses every
    /// tag of the directory's path. The source file stays.
    pub fn unlink(&mut self, parent: u64, name: &[u8]) -> (r: Result<(), FsError>)
        requires
            old(self).wf(),
        ensures
            final(self).wf(),
            ({
                let tp = tag_part(parent) as int;
                if !old(self).tree.has_node(tp) {
                    r == Err::<(), FsError>(FsError::NotFound) && *final(self) == *old(self)
                } else if let Some(f) = key_of(old(self).file_names(), name@) {
                    &&& r == Ok::<(), FsError>(())
                    &&& final(self).sets() == untag(old(self).sets(), old(self).tree.path_of(tp), f)
                    &&& final(self).order() == old(self).order()
                    &&& final(self).files == old(self).files
                    &&& final(self).tags == old(self).tags
                    &&& final(self).file_tally == old(self).file_tally
                    &&& final(self).tree == old(self).tree
                } else {
                    r == Err::<(), FsError>(FsError::NotFound) && *final(self) == *old(self)
                }
            }),
    {
        let node = match self.tree.lookup(Ino(parent).tag()) {
            Some(n) => n,
            None => return Err(FsError::NotFound),
        };
        let file = match self.get_fnb_by_name(name) {
            Some(f) => f,
            None => return Err(FsError::NotFound),
        };
        let path = node.collect_tags(&self.tree);
        self.untag_all(&path, file);
        Ok(())
    }

    /// Moves a file between directories, or renames a tag.
    ///
    /// Where `name` is a tag, it takes the name `newname`. Where `name` is
    /// `newname` and the directories differ, the file `name` loses the tags
    /// of the old directory's path, then gains those of the new one's.
    /// Anything else is refused.
    pub fn rename(&mut self, parent: u64, name: &[u8], newparent: u64, newname: &[u8]) -> (r: Result<(), FsError>)
        requires
            old(self).wf(),
        ensures
            final(self).wf(),
            final(self).tree == old(self).tree,
            if let Some(t) = key_of(old(self).tag_names(), name@) {
                &&& r == Ok::<(), FsError>(())
                &&& final(self).tag_names() == rebind(old(self).tag_names(), t, newname@)
                &&& final(self).tag_content == old(self).tag_content
                &&& final(self).files == old(self).files
                &&& final(self).file_tally == old(self).file_tally
            } else if name@ == newname@ && parent != newparent {
                let (tp, tq) = (tag_part(parent) as int, tag_part(newparent) as int);
                if let Some(f) = key_of(old(self).file_names(), name@) {
                    if old(self).tree.has_node(tp) && old(self).tree.has_node(tq) {
                        &&& r == Ok::<(), FsError>(())
                        &&& final(self).sets() == retag(
                            untag(old(self).sets(), old(self).tree.path_of(tp), f),
                            old(self).tree.path_of(tq),
                            f,
                        )
                        &&& final(self).order() == old(self).order()
                        &&& final(self).files == old(self).files
                        &&& final(self).tags == old(self).tags
                        &&& final(self).file_tally == old(self).file_tally
                    } else {
                        r == Err::<(), FsError>(FsError::NotFound) && *final(self) == *old(self)
                    }
                } else {
                    r == Err::<(), FsError>(FsError::NotFound) && *final(self) == *old(self)
                }
            } else {
                r == Err::<(), FsError>(FsError::NotSupported) && *final(self) == *old(self)
            },
    {
        if let Some(tag) = self.get_tnb_by_name(name) {
            crate::collections::names_insert(&mut self.tags, tag, vstd::slice::slice_to_vec(newname));
            proof {
                crate::index::lemma_rebind_injective(old(self).tag_names(), tag, newname@);
            }
            return Ok(());
        }
        if crate::index::bytes_eq(name, newname) && parent != newparent {
            let file = match self.get_fnb_by_name(name) {
                Some(f) => f,
                None => return Err(FsError::NotFound),
            };
            let from = match self.tree.lookup(Ino(parent).tag()) {
                Some(n) => n.collect_tags(&self.tree),
                None => return Err(FsError::NotFound),
            };
            let to = match self.tree.lookup(Ino(newparent).tag()) {
                Some(n) => n.collect_tags(&self.tree),
                None => return Err(FsError::NotFound),
            };
            self.untag_all(&from, file);
            self.retag_all(&to, file);
            return Ok(());
        }
        Err(FsError::NotSupported)
    }

    /// The source file to open for `ino`: only a file can be opened.
    pub fn open(&self, ino: u64) -> (r: Result<Vec<u8>, FsError>)
        ensures
            if !denotes_tag(ino) && self.file_names().contains_key(file_part(ino)) {
                r matches Ok(n) && n@ == self.file_names()[file_part(ino)]
            } else {
                r == Err::<Vec<u8>, FsError>(FsError::NotFound)
            },
    {
        let i = Ino(ino);
        if !i.is_file() {
            return Err(FsError::NotFound);
        }
        match self.get_fnm_by_number(i.file()) {
            Some(name) => Ok(name),
            None => Err(FsError::NotFound),
        }
    }

    /// Takes `f` out of the set of every tag of `path`.
    fn untag_all(&mut self, path: &Vec<TagNumber>, f: FileNumber)
        requires
            old(self).wf(),
        ensures
            final(self).wf(),
            final(self).sets() == untag(old(self).sets(), path@, f),
            final(self).order() == old(self).order(),
            final(self).files == old(self).files,
            final(self).tags == old(self).tags,
            final(self).file_tally == old(self).file_tally,
            final(self).tree == old(self).tree,
    {
        let ghost start = self.sets();
        let mut i: usize = 0;
        while i < path.len()
            invariant
                self.wf(),
                start == old(self).sets(),
                i <= path@.len(),
                self.sets() == untag(start, path@.take(i as int), f),
                self.order() == old(self).order(),
                self.files == old(self).files,
                self.tags == old(self).tags,
                self.file_tally == old(self).file_tally,
                self.tree == old(self).tree,
            decreases path@.len() - i,
        {
            let ghost before = self.sets();
            self.remove_file_from(f, path[i]);
            proof {
                let t0 = path@.take(i as int);
                let t1 = path@.take(i + 1);
                assert(t1 =~= t0.push(path@[i as int]));
                assert forall|k: u64| #[trigger] self.sets().contains_key(k) implies self.sets()[k]
                    =~= untag(start, t1, f)[k] by {
                    if k == path@[i as int] {
                        assert(t1[i as int] == k);
                    } else {
                        assert(t1.contains(k) == t0.contains(k)) by {
                            if t1.contains(k) {
                                let j = choose|j: int| 0 <= j < t1.len() && t1[j] == k;
                                assert(t0[j] == k);
                            }
                            if t0.contains(k) {
                                let j = choose|j: int| 0 <= j < t0.len() && t0[j] == k;
                                assert(t1[j] == k);
                            }
                        }
                    }
                }
                assert(self.sets() =~= untag(start, t1, f));
            }
            i = i + 1;
        }
        proof {
            assert(path@.take(i as int) =~= path@);
        }
    }

    /// Puts `f` in the set of every tag of `path`.
    fn retag_all(&mut self, path: &Vec<TagNumber>, f: FileNumber)
        requires
            old(self).wf(),
        ensures
            final(self).wf(),
            final(self).sets() == retag(old(self).sets(), path@, f),
            final(self).order() == old(self).order(),
            final(self).files == old(self).files,
            final(self).tags == old(self).tags,
            final(self).file_tally == old(self).file_tally,
            final(self).tree == old(self).tree,
    {
        let ghost start = self.sets();
        let mut i: usize = 0;
        while i < path.len()
            invariant
                self.wf(),
                start == old(self).sets(),
                i <= path@.len(),
                self.sets() == retag(start, path@.take(i as int), f),
                self.order() == old(self).order(),
                self.files == old(self).files,
                self.tags == old(self).tags,
                self.file_tally == old(self).file_tally,
                self.tree == old(self).tree,
            decreases path@.len() - i,
        {
            self.add_file_to(f, path[i]);
            proof {
                let t0 = path@.take(i as int);
                let t1 = path@.take(i + 1);
                assert(t1 =~= t0.push(path@[i as int]));
                assert forall|k: u64| #[trigger] self.sets().contains_key(k) implies self.sets()[k]
                    =~= retag(start, t1, f)[k] by {
                    if k == path@[i as int] {
                        assert(t1[i as int] == k);
                    } else {
                        assert(t1.contains(k) == t0.contains(k)) by {
                            if t1.contains(k) {
                                let j = choose|j: int| 0 <= j < t1.len() && t1[j] == k;
                                assert(t0[j] == k);
                            }
                            if t0.contains(k) {
                                let j = choose|j: int| 0 <= j < t0.len() && t0[j] == k;
                                assert(t1[j] == k);
                            }
                        }
                    }
                }
                assert(self.sets() =~= retag(start, t1, f));
            }
            i = i + 1;
        }
        proof {
            assert(path@.take(i as int) =~= path@);
        }
    }

    /// Lists directory `ino` from entry `offset` on: `.`, `..`, a directory
    /// for each tag not on its path, and the files that carry every tag of
    /// its path. Tags and files come in the order their maps give them.
    pub fn readdir(&mut self, ino: u64, offset: u64) -> (r: Result<Vec<DirEntry>, FsError>)
        requires
            old(self).wf(),
        ensures
            final(self).wf(),
            same_index(final(self), old(self)),
            ({
                let tp = tag_part(ino) as int;
                let path = old(self).tree.path_of(tp);
                if !denotes_tag(ino) {
                    r == Err::<Vec<DirEntry>, FsError>(FsError::NotDir) && final(self).tree == old(self).tree
                } else if !old(self).tree.has_node(tp) {
                    r == Err::<Vec<DirEntry>, FsError>(FsError::NotFound) && final(self).tree == old(self).tree
                } else if old(self).tree.counter + missing_dirs(
                    old(self).tree,
                    tp,
                    path,
                    in_order(old(self).tag_names()),
                ) > HALF_MAX {
                    r == Err::<Vec<DirEntry>, FsError>(FsError::NoSpace) && final(self).tree == old(self).tree
                } else {
                    r matches Ok(v) && final(self).tree.extends(&old(self).tree) && lists_dir(
                        old(self),
                        final(self),
                        ino,
                        offset,
                        v@,
                    )
                }
            }),
    {
        let i = Ino(ino);
        if i.is_file() {
            return Err(FsError::NotDir);
        }
        let tp = i.tag();
        let path = match self.tree.lookup(tp) {
            Some(n) => n.collect_tags(&self.tree),
            None => return Err(FsError::NotFound),
        };
        let ordered_tags = pairs_in_order(&self.tags);
        let ghost tv = names_view(ordered_tags@);
        let mut missing: u64 = 0;
        let mut j: usize = 0;
        while j < ordered_tags.len()
            invariant
                self.wf(),
                self.tree.has_node(tp as int),
                tv == names_view(ordered_tags@),
                path@ == self.tree.path_of(tp as int),
                j <= ordered_tags@.len(),
                missing <= j,
                missing == missing_dirs(self.tree, tp as int, path@, tv.take(j as int)),
            decreases ordered_tags@.len() - j,
        {
            let t = ordered_tags[j].0;
            proof {
                assert(tv.take(j + 1).drop_last() =~= tv.take(j as int));
                assert(tv.take(j + 1).last() == tv[j as int]);
            }
            if !contains_tag(&path, t) && self.tree.find(tp, t).is_none() {
                missing = missing + 1;
            }
            j = j + 1;
        }
        proof {
            assert(tv.take(j as int) =~= tv);
        }
        if missing > HALF_MAX - self.tree.counter {
            return Err(FsError::NoSpace);
        }
        let chosen = self.calculate_intersection(path.as_slice());
        let numbers = sort_numbers(&members(&chosen));
        let named = lookup_all(&self.files, &numbers);
        let ghost prev = *self;
        proof {
            let m = prev.tag_names();
            assert(enumerates(tv, m));
            assert forall|j: int| 0 <= j < ordered_tags@.len() implies #[trigger] ordered_tags@[j].0 <= prev.tree.counter by {
                assert(tv[j].0 == ordered_tags@[j].0);
                assert(m.contains_key(tv[j].0));
            }
            lemma_in_order(names_view(named@), named_files(prev.file_names(), chosen@));
        }
        let v = self.list_directory(ino, offset, &ordered_tags, &named);
        Ok(v)
    }

    /// Lists directory `ino` from entry `offset` on, given its tags and its
    /// files as pairs of number and name, in the order to list them. Each tag
    /// directory listed is materialized.
    pub fn list_directory(
        &mut self,
        ino: u64,
        offset: u64,
        tags: &Vec<(TagNumber, Vec<u8>)>,
        files: &Vec<(FileNumber, Vec<u8>)>,
    ) -> (r: Vec<DirEntry>)
        requires
            old(self).wf(),
            denotes_tag(ino),
            old(self).tree.has_node(tag_part(ino) as int),
            old(self).tree.counter + missing_dirs(
                old(self).tree,
                tag_part(ino) as int,
                old(self).tree.path_of(tag_part(ino) as int),
                names_view(tags@),
            ) <= HALF_MAX,
            forall|i: int| 0 <= i < tags@.len() ==> #[trigger] tags@[i].0 <= old(self).tree.counter,
        ensures
            final(self).wf(),
            same_index(final(self), old(self)),
            final(self).tree.extends(&old(self).tree),
            ({
                let tp = tag_part(ino) as int;
                let path = old(self).tree.path_of(tp);
                let rows = listing(
                    final(self).tree,
                    tp,
                    ino,
                    parent_ino(old(self).tree, tp),
                    path,
                    names_view(tags@),
                    names_view(files@),
                );
                &&& final(self).tree.path_of(tp) == path
                &&& forall|i: int|
                    0 <= i < tags@.len() && !path.contains(#[trigger] tags@[i].0)
                        ==> final(self).tree.child_with(tp, tags@[i].0) is Some
                &&& shows(r@, rows, if offset < rows.len() { offset as int } else { rows.len() as int })
            }),
    {
        let tp = Ino(ino).tag();
        let node = self.tree.lookup(tp).unwrap();
        let path = node.collect_tags(&self.tree);
        let up = match node.parent {
            Some(p) => Ino::from_tag(p).0,
            None => Ino::from_tag(tp).0,
        };
        let ghost start = *self;
        let ghost tv = names_view(tags@);
        let ghost fv = names_view(files@);
        let ghost head = seq![(ino, EntryKind::Directory, seq![46u8]), (up, EntryKind::Directory, seq![46u8, 46u8])];
        let mut all: Vec<DirEntry> = Vec::new();
        all.push(DirEntry { ino, kind: EntryKind::Directory, name: vec![46u8] });
        all.push(DirEntry { ino: up, kind: EntryKind::Directory, name: vec![46u8, 46u8] });
        proof {
            assert(tag_rows(self.tree, tp as int, path@, tv.take(0)) =~= seq![]) by {
                assert(tv.take(0).len() == 0);
            }
            assert(head + tag_rows(self.tree, tp as int, path@, tv.take(0)) =~= head);
            assert(all@[0].name@ =~= seq![46u8]);
            assert(all@[1].name@ =~= seq![46u8, 46u8]);
        }
        let mut i: usize = 0;
        while i < tags.len()
            invariant
                self.wf(),
                start == *old(self),
                start.tree.wf(),
                same_index(self, old(self)),
                self.tree.extends(&start.tree),
                self.tree.counter <= start.tree.counter + missing_dirs(
                    start.tree,
                    tp as int,
                    path@,
                    tv.take(i as int),
                ),
                start.tree.counter + missing_dirs(start.tree, tp as int, path@, tv) <= HALF_MAX,
                forall|j: int| 0 <= j < tags@.len() ==> #[trigger] tags@[j].0 <= start.tree.counter,
                start.tree.has_node(tp as int),
                tp == tag_part(ino),
                path@ == start.tree.path_of(tp as int),
                tv == names_view(tags@),
                i <= tags@.len(),
                shows(all@, head + tag_rows(self.tree, tp as int, path@, tv.take(i as int)), 0),
                forall|j: int|
                    0 <= j < i && !path@.contains(#[trigger] tags@[j].0) ==> self.tree.child_with(
                        tp as int,
                        tags@[j].0,
                    ) is Some,
            decreases tags@.len() - i,
        {
            let t = tags[i].0;
            let ghost prev = self.tree;
            let ghost t0 = tv.take(i as int);
            let ghost t1 = tv.take(i + 1);
            proof {
                assert(t1.drop_last() =~= t0);
                assert(t1.last() == tv[i as int]);
                assert(tv[i as int].0 == t);
            }
            if !contains_tag(&path, t) {
                proof {
                    self.tree.lemma_extends_path(&start.tree, tp as int);
                    self.tree.lemma_extends_trans(&self.tree, &self.tree);
                    lemma_missing_prefix(start.tree, tp as int, path@, tv, i + 1);
                    if start.tree.child_with(tp as int, t) is Some {
                        self.tree.lemma_extends_child(&start.tree, tp as int, t);
                    }
                }
                let c = self.tree.add_to_if_needed(tp, t);
                proof {
                    assert(tags@[i as int].0 == t);
                    assert forall|j: int| 1 <= j < self.tree.nodes@.len() implies #[trigger] self.tree.nodes@[j].tag
                        <= self.tree.counter by {
                        if j < prev.nodes@.len() {
                            assert(prev.nodes@[j].tag <= prev.counter);
                        }
                    }
                }
                all.push(DirEntry { ino: Ino::from_tag(c).0, kind: EntryKind::Directory, name: vstd::slice::slice_to_vec(tags[i].1.as_slice()) });
                proof {
                    self.tree.lemma_extends_trans(&prev, &start.tree);
                    lemma_tag_rows_stable(self.tree, prev, tp as int, path@, t0);
                    assert forall|j: int|
                        0 <= j < i + 1 && !path@.contains(#[trigger] tags@[j].0) implies self.tree.child_with(
                            tp as int,
                            tags@[j].0,
                        ) is Some by {
                        if j < i {
                            self.tree.lemma_extends_child(&prev, tp as int, tags@[j].0);
                        }
                    }
                    assert(tag_rows(self.tree, tp as int, path@, t1) == tag_rows(self.tree, tp as int, path@, t0).push(
                        (compose(0, c), EntryKind::Directory, tv[i as int].1)));
                    assert((head + tag_rows(self.tree, tp as int, path@, t0)).push((compose(0, c), EntryKind::Directory, tv[i as int].1))
                        =~= head + tag_rows(self.tree, tp as int, path@, t1));
                }
            } else {
                proof {
                    assert(tag_rows(self.tree, tp as int, path@, t1) == tag_rows(self.tree, tp as int, path@, t0));
                }
            }
            i = i + 1;
        }
        proof {
            assert(tv.take(tags@.len() as int) =~= tv);
            self.tree.lemma_extends_path(&start.tree, tp as int);
        }
        let ghost tree_rows = head + tag_rows(self.tree, tp as int, path@, tv);
        let mut j: usize = 0;
        while j < files.len()
            invariant
                tree_rows == head + tag_rows(self.tree, tp as int, path@, tv),
                fv == names_view(files@),
                j <= files@.len(),
                tp == tag_part(ino),
                shows(all@, tree_rows + file_rows(tp as int, fv.take(j as int)), 0),
            decreases files@.len() - j,
        {
            all.push(DirEntry { ino: Ino::from_parts(files[j].0, tp).0, kind: EntryKind::RegularFile, name: vstd::slice::slice_to_vec(files[j].1.as_slice()) });
            proof {
                assert(file_rows(tp as int, fv.take(j + 1)) =~= file_rows(tp as int, fv.take(j as int)).push(
                    (compose(files@[j as int].0, tp), EntryKind::RegularFile, files@[j as int].1@)));
                assert((tree_rows + file_rows(tp as int, fv.take(j as int))).push(
                    (compose(files@[j as int].0, tp), EntryKind::RegularFile, files@[j as int].1@))
                    =~= tree_rows + file_rows(tp as int, fv.take(j + 1)));
            }
            j = j + 1;
        }
        let ghost rows = tree_rows + file_rows(tp as int, fv);
        proof {
            assert(fv.take(files@.len() as int) =~= fv);
            assert(rows =~= listing(self.tree, tp as int, ino, parent_ino(start.tree, tp as int), path@, tv, fv));
        }
        let mut r: Vec<DirEntry> = Vec::new();
        let mut k: usize = if offset < all.len() as u64 { offset as usize } else { all.len() };
        let ghost from = k as int;
        while k < all.len()
            invariant
                shows(all@, rows, 0),
                0 <= from <= k <= all@.len(),
                shows(r@, rows.take(k as int), from),
            decreases all@.len() - k,
        {
            let e = &all[k];
            let ghost before = r@;
            r.push(DirEntry { ino: e.ino, kind: e.kind, name: vstd::slice::slice_to_vec(e.name.as_slice()) });
            proof {
                let t1 = rows.take(k + 1);
                assert(rows.len() == all@.len());
                assert(before.len() == k - from);
                assert forall|m: int| 0 <= m < r@.len() implies {
                    let x = #[trigger] r@[m];
                    &&& x.ino == t1[from + m].0
                    &&& x.kind == t1[from + m].1
                    &&& x.name@ == t1[from + m].2
                } by {
                    if m < before.len() {
                        assert(r@[m] == before[m]);
                        assert(rows.take(k as int)[from + m] == t1[from + m]);
                    } else {
                        assert(all@[k as int] == all@[0 + k as int]);
                    }
                }
            }
            k = k + 1;
        }
        proof {
            assert(rows.take(k as int) =~= rows);
        }
        r
    }

    /// Whether `f` is in the set of every tag of `path`.
    fn contains_in_all(&self, path: &Vec<TagNumber>, f: FileNumber) -> (r: bool)
        requires
            self.wf(),
        ensures
            r == in_all(self.sets(), path@, f),
    {
        let mut i: usize = 0;
        while i < path.len()
            invariant
                self.wf(),
                i <= path@.len(),
                forall|j: int|
                    0 <= j < i ==> self.sets().contains_key(#[trigger] path@[j]) && self.sets()[path@[j]].contains(f),
            decreases path@.len() - i,
        {
            match crate::collections::sets_get(&self.tag_content, path[i]) {
                Some(set) => {
                    if !set.contains(&f) {
                        return false;
                    }
                },
                None => {
                    return false;
                },
            }
            i = i + 1;
        }
        true
    }
}

} // verus!
