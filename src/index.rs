//! The tag index: which files and tags exist, by number and by name, and which
//! files carry each tag.

use std::collections::HashSet;

use bimap::BiHashMap;
use indexmap::IndexMap;
use vstd::prelude::*;
use vstd::slice::slice_to_vec;
use vstd::std_specs::hash::{group_hash_axioms, spec_hash_keys_iter};
use vstd::std_specs::iter::IteratorSpec;

use crate::collections::{
    name_pairs, names_get_by_left, names_get_by_right, names_insert, names_iter, names_new,
    names_remove_by_left, rebind, set_contents, set_order, sets_get, sets_insert, sets_keys,
    sets_new,
};
use crate::ino::{FileNumber, TagNumber, HALF_MAX, ROOT_INO};
use crate::tree::TagTree;

verus! {

broadcast use group_hash_axioms;

/// No two keys of `m` share a name.
pub open spec fn injective(m: Map<u64, Seq<u8>>) -> bool {
    forall|a: u64, b: u64|
        #![trigger m[a], m[b]]
        m.contains_key(a) && m.contains_key(b) && m[a] == m[b] ==> a == b
}

/// The number that `m` binds to `name`, if any.
pub open spec fn key_of(m: Map<u64, Seq<u8>>, name: Seq<u8>) -> Option<u64> {
    if exists|k: u64| m.contains_key(k) && m[k] == name {
        Some(choose|k: u64| m.contains_key(k) && m[k] == name)
    } else {
        None
    }
}

/// `f` is in the set of every tag of `path`; a tag without a set has no files.
pub open spec fn in_all(sets: Map<u64, Set<u64>>, path: Seq<TagNumber>, f: FileNumber) -> bool {
    forall|i: int|
        0 <= i < path.len() ==> sets.contains_key(#[trigger] path[i]) && sets[path[i]].contains(f)
}

/// The files listed under a directory whose path is `path`: every known file
/// at the root, else the files that carry every tag of the path.
pub open spec fn intersection_of(
    files: Map<u64, Seq<u8>>,
    sets: Map<u64, Set<u64>>,
    path: Seq<TagNumber>,
) -> Set<FileNumber> {
    if path.len() == 0 {
        files.dom()
    } else {
        Set::new(|f: FileNumber| in_all(sets, path, f))
    }
}

/// `order` lists the keys of `sets`, each once.
pub open spec fn keys_match(order: Seq<u64>, sets: Map<u64, Set<u64>>) -> bool {
    &&& order.no_duplicates()
    &&& forall|i: int| 0 <= i < order.len() ==> sets.contains_key(#[trigger] order[i])
    &&& forall|k: u64| #[trigger] sets.contains_key(k) ==> order.contains(k)
}

/// Giving a key that is there already a new set keeps the keys.
pub(crate) proof fn lemma_keys_match_update(order: Seq<u64>, sets: Map<u64, Set<u64>>, k: u64, v: Set<u64>)
    requires
        keys_match(order, sets),
        sets.contains_key(k),
    ensures
        keys_match(order, sets.insert(k, v)),
{
}

/// The tag index, with the tree of directories visited in this session.
pub struct TagFS {
    pub tree: TagTree,
    /// The files of each tag, in the order the tags were created.
    pub tag_content: IndexMap<TagNumber, HashSet<FileNumber>>,
    pub files: BiHashMap<FileNumber, Vec<u8>>,
    pub tags: BiHashMap<TagNumber, Vec<u8>>,
    /// The last file number handed out.
    pub file_tally: FileNumber,
}

impl TagFS {
    pub open spec fn sets(&self) -> Map<TagNumber, Set<FileNumber>> {
        set_contents(self.tag_content)
    }

    pub open spec fn order(&self) -> Seq<TagNumber> {
        set_order(self.tag_content)
    }

    pub open spec fn file_names(&self) -> Map<FileNumber, Seq<u8>> {
        name_pairs(self.files)
    }

    pub open spec fn tag_names(&self) -> Map<TagNumber, Seq<u8>> {
        name_pairs(self.tags)
    }

    pub open spec fn wf(&self) -> bool {
        &&& self.tree.wf()
        &&& keys_match(self.order(), self.sets())
        &&& injective(self.file_names())
        &&& injective(self.tag_names())
        &&& 1 <= self.file_tally <= HALF_MAX
        &&& forall|f: u64| #[trigger]
            self.file_names().contains_key(f) ==> 2 <= f <= self.file_tally
        &&& forall|t: u64| #[trigger] self.tag_names().contains_key(t) ==> t <= self.tree.counter
        &&& forall|t: u64| #[trigger] self.sets().contains_key(t) ==> t <= self.tree.counter
        &&& forall|i: int|
            1 <= i < self.tree.nodes@.len() ==> #[trigger] self.tree.nodes@[i].tag <= self.tree.counter
    }

    /// An empty index.
    pub fn new() -> (r: TagFS)
        ensures
            r.wf(),
            r.sets().dom() == Set::<u64>::empty(),
            r.order() == Seq::<u64>::empty(),
            r.file_names().dom() == Set::<u64>::empty(),
            r.tag_names().dom() == Set::<u64>::empty(),
            r.file_tally == 1,
            r.tree.counter == ROOT_INO,
            r.tree.nodes@.len() == 1,
    {
        TagFS {
            tree: TagTree::new(),
            tag_content: sets_new(),
            files: names_new(),
            tags: names_new(),
            file_tally: 1,
        }
    }

    pub fn get_fnb_by_name(&self, name: &[u8]) -> (r: Option<FileNumber>)
        requires
            self.wf(),
        ensures
            r == key_of(self.file_names(), name@),
    {
        let r = names_get_by_right(&self.files, name);
        proof {
            lemma_key_of(self.file_names(), name@, r);
        }
        r
    }

    pub fn get_fnm_by_number(&self, number: FileNumber) -> (r: Option<Vec<u8>>)
        ensures
            match r {
                Some(v) => self.file_names().contains_key(number) && v@ == self.file_names()[number],
                None => !self.file_names().contains_key(number),
            },
    {
        names_get_by_left(&self.files, number)
    }

    pub fn get_tnb_by_name(&self, name: &[u8]) -> (r: Option<TagNumber>)
        requires
            self.wf(),
        ensures
            r == key_of(self.tag_names(), name@),
    {
        let r = names_get_by_right(&self.tags, name);
        proof {
            lemma_key_of(self.tag_names(), name@, r);
        }
        r
    }

    /// Defines a new tag named `tag`, with no files.
    pub fn create_tag(&mut self, tag: Vec<u8>) -> (r: TagNumber)
        requires
            old(self).wf(),
            old(self).tree.counter < HALF_MAX,
        ensures
            final(self).wf(),
            r == old(self).tree.counter + 1,
            !old(self).sets().contains_key(r),
            final(self).sets() == old(self).sets().insert(r, Set::<u64>::empty()),
            final(self).order() == old(self).order().push(r),
            final(self).tag_names() == rebind(old(self).tag_names(), r, tag@),
            final(self).files == old(self).files,
            final(self).file_tally == old(self).file_tally,
            final(self).tree.extends(&old(self).tree),
            final(self).tree.counter == r,
            final(self).tree.has_node(r as int),
            final(self).tree.node(r as int).parent == Some(ROOT_INO),
            final(self).tree.node(r as int).tag == r,
            final(self).tree.node(r as int).children@ == Seq::<u64>::empty(),
            final(self).tree.path_of(r as int) == seq![r],
            final(self).tree.nodes@.len() == old(self).tree.nodes@.len() + 1,
            final(self).tree.node(ROOT_INO as int).children@ == old(self).tree.node(
                ROOT_INO as int,
            ).children@.push(r),
            forall|i: int|
                1 <= i < old(self).tree.nodes@.len() ==> #[trigger] final(self).tree.nodes@[i] == old(
                    self,
                ).tree.nodes@[i],
            final(self).tree.child_with(ROOT_INO as int, r) == Some(r),
    {
        proof {
            let root = old(self).tree.node(ROOT_INO as int);
            let kids = root.children@;
            let t = (old(self).tree.counter + 1) as u64;
            if let Some(c) = old(self).tree.child_with(ROOT_INO as int, t) {
                old(self).tree.lemma_first_tag(kids, t);
                let j = choose|j: int| 0 <= j < kids.len() && kids[j] == c;
                assert(old(self).tree.has_node(old(self).tree.nodes@[0].children@[j] as int));
                old(self).tree.lemma_has_node_index(c as int);
                assert(old(self).tree.index_of(c as int) >= 1);
            }
        }
        let tnb = self.tree.create_new();
        let empty: HashSet<u64> = HashSet::new();
        sets_insert(&mut self.tag_content, tnb, empty);
        names_insert(&mut self.tags, tnb, tag);
        proof {
            let old_order = old(self).order();
            assert(old(self).wf());
            assert(!old(self).sets().contains_key(tnb));
            assert(!old_order.contains(tnb));
            assert forall|k: u64| #[trigger] self.sets().contains_key(k) implies self.order().contains(k) by {
                if k == tnb {
                    assert(self.order()[old_order.len() as int] == tnb);
                } else {
                    assert(old_order.contains(k));
                    let i = choose|i: int| 0 <= i < old_order.len() && old_order[i] == k;
                    assert(self.order()[i] == k);
                }
            }
            assert forall|i: int| 0 <= i < self.order().len() implies self.sets().contains_key(
                #[trigger] self.order()[i],
            ) by {
                if i < old_order.len() {
                    assert(old_order[i] == self.order()[i]);
                }
            }
            lemma_rebind_injective(old(self).tag_names(), tnb, tag@);
        }
        tnb
    }

    /// Adds a file named `file` under a fresh number.
    pub fn add_file(&mut self, file: Vec<u8>) -> (r: FileNumber)
        requires
            old(self).wf(),
            old(self).file_tally < HALF_MAX,
        ensures
            final(self).wf(),
            r == old(self).file_tally + 1,
            !old(self).file_names().contains_key(r),
            final(self).file_tally == r,
            final(self).file_names() == rebind(old(self).file_names(), r, file@),
            final(self).tag_content == old(self).tag_content,
            final(self).tags == old(self).tags,
            final(self).tree == old(self).tree,
    {
        self.file_tally = self.file_tally + 1;
        let fnb = self.file_tally;
        names_insert(&mut self.files, fnb, file);
        proof {
            assert(old(self).wf());
            lemma_rebind_injective(old(self).file_names(), fnb, file@);
        }
        fnb
    }

    /// Gives file `file` the tag `to`; nothing changes where `to` has no set.
    pub fn add_file_to(&mut self, file: FileNumber, to: TagNumber)
        requires
            old(self).wf(),
        ensures
            final(self).wf(),
            final(self).sets() == if old(self).sets().contains_key(to) {
                old(self).sets().insert(to, old(self).sets()[to].insert(file))
            } else {
                old(self).sets()
            },
            final(self).order() == old(self).order(),
            final(self).files == old(self).files,
            final(self).tags == old(self).tags,
            final(self).file_tally == old(self).file_tally,
            final(self).tree == old(self).tree,
    {
        if let Some(mut set) = sets_get(&self.tag_content, to) {
            set.insert(file);
            sets_insert(&mut self.tag_content, to, set);
        }
        proof {
            if old(self).sets().contains_key(to) {
                lemma_keys_match_update(old(self).order(), old(self).sets(), to, self.sets()[to]);
            }
        }
    }

    /// Takes the tag `from` off file `file`; nothing changes where `from` has
    /// no set.
    pub fn remove_file_from(&mut self, file: FileNumber, from: TagNumber)
        requires
            old(self).wf(),
        ensures
            final(self).wf(),
            final(self).sets() == if old(self).sets().contains_key(from) {
                old(self).sets().insert(from, old(self).sets()[from].remove(file))
            } else {
                old(self).sets()
            },
            final(self).order() == old(self).order(),
            final(self).files == old(self).files,
            final(self).tags == old(self).tags,
            final(self).file_tally == old(self).file_tally,
            final(self).tree == old(self).tree,
    {
        if let Some(mut set) = sets_get(&self.tag_content, from) {
            set.remove(&file);
            sets_insert(&mut self.tag_content, from, set);
        }
        proof {
            if old(self).sets().contains_key(from) {
                lemma_keys_match_update(old(self).order(), old(self).sets(), from, self.sets()[from]);
            }
        }
    }

    /// The files listed under a directory whose path of tags is `path`.
    pub fn calculate_intersection(&self, path: &[TagNumber]) -> (r: HashSet<FileNumber>)
        requires
            self.wf(),
        ensures
            r@ == intersection_of(self.file_names(), self.sets(), path@),
    {
        if path.len() == 0 {
            let pairs = names_iter(&self.files);
            let mut all: HashSet<FileNumber> = HashSet::new();
            let mut i: usize = 0;
            while i < pairs.len()
                invariant
                    i <= pairs@.len(),
                    forall|y: u64|
                        #![trigger all@.contains(y)]
                        all@.contains(y) <==> exists|j: int| 0 <= j < i && pairs@[j].0 == y,
                decreases pairs@.len() - i,
            {
                all.insert(pairs[i].0);
                i = i + 1;
            }
            proof {
                assert forall|y: u64| self.file_names().contains_key(y) implies all@.contains(y) by {
                    if self.file_names().contains_key(y) {
                        let j = choose|j: int| 0 <= j < pairs@.len() && pairs@[j].0 == y;
                    }
                }
                assert(all@ =~= self.file_names().dom());
            }
            return all;
        }
        let mut chosen: Vec<HashSet<FileNumber>> = Vec::new();
        let mut i: usize = 0;
        while i < path.len()
            invariant
                i <= path@.len(),
                chosen@.len() == i,
                forall|j: int| 0 <= j < i ==> self.sets().contains_key(#[trigger] path@[j]),
                forall|j: int| 0 <= j < i ==> (#[trigger] chosen@[j])@ == self.sets()[path@[j]],
            decreases path@.len() - i,
        {
            match sets_get(&self.tag_content, path[i]) {
                Some(set) => {
                    let ghost prev = chosen@;
                    chosen.push(set);
                    assert(forall|j: int| 0 <= j < i ==> chosen@[j] == prev[j]);
                },
                None => {
                    let none: HashSet<FileNumber> = HashSet::new();
                    proof {
                        assert forall|f: FileNumber| !in_all(self.sets(), path@, f) by {
                            assert(!self.sets().contains_key(path@[i as int]));
                        }
                        assert(none@ =~= intersection_of(self.file_names(), self.sets(), path@));
                    }
                    return none;
                },
            }
            i = i + 1;
        }
        let mut result: HashSet<FileNumber> = HashSet::new();
        let first = &chosen[0];
        let ghost keys = spec_hash_keys_iter(first).remaining();
        let ghost mut count: int = 0;
        for x in it: first.iter()
            invariant
                it.seq() == keys,
                count == it.index(),
                chosen@.len() == path@.len(),
                chosen@.len() > 0,
                *first == chosen@[0],
                forall|j: int| 0 <= j < path@.len() ==> self.sets().contains_key(#[trigger] path@[j]),
                forall|j: int|
                    0 <= j < path@.len() ==> (#[trigger] chosen@[j])@ == self.sets()[path@[j]],
                forall|y: u64|
                    #![trigger result@.contains(y)]
                    result@.contains(y) <==> (exists|j: int|
                        0 <= j < it.index() && *it.seq()[j] == y) && in_all(
                        self.sets(),
                        path@,
                        y,
                    ),
        {
            let ghost idx = it.index();
            let ghost prev = result@;
            assert(*x == *it.seq()[idx]);
            let keep = contained_in_all(&chosen, *x);
            assert(keep == in_all(self.sets(), path@, *x)) by {
                if keep {
                    assert forall|j: int| 0 <= j < path@.len() implies self.sets().contains_key(
                        #[trigger] path@[j],
                    ) && self.sets()[path@[j]].contains(*x) by {
                        assert(chosen@[j]@.contains(*x));
                    }
                } else {
                    let j = choose|j: int| 0 <= j < chosen@.len() && !(#[trigger] chosen@[j])@.contains(*x);
                    assert(!self.sets()[path@[j]].contains(*x));
                }
            }
            if keep {
                result.insert(*x);
            }
            assert forall|y: u64| #[trigger] result@.contains(y) <==> (exists|j: int|
                0 <= j < idx + 1 && *it.seq()[j] == y) && in_all(self.sets(), path@, y) by {
                if y != *x {
                    if exists|j: int| 0 <= j < idx + 1 && *it.seq()[j] == y {
                        let j = choose|j: int| 0 <= j < idx + 1 && *it.seq()[j] == y;
                        assert(j < idx);
                    }
                }
            }
            proof {
                count = count + 1;
            }
        }
        proof {
            assert(keys.unref().to_set() == first@);
            assert forall|y: u64| in_all(self.sets(), path@, y) implies #[trigger] result@.contains(y) by {
                if in_all(self.sets(), path@, y) {
                    assert(self.sets().contains_key(path@[0]));
                    assert(first@.contains(y));
                    assert(keys.unref().to_set().contains(y));
                    let j = choose|j: int| 0 <= j < keys.unref().len() && keys.unref()[j] == y;
                    assert(*keys[j] == y);
                }
            }
            assert(result@ =~= intersection_of(self.file_names(), self.sets(), path@));
        }
        result
    }

    /// Re-indexes against `names`, the regular files now in the source
    /// directory: a file whose name is gone is forgotten, with its tags; a
    /// file whose name stays keeps its number and tags; a new name becomes a
    /// new untagged file. The savefile's name is never a file.
    pub fn repopulate(&mut self, names: &Vec<Vec<u8>>)
        requires
            old(self).wf(),
            old(self).file_tally + names@.len() <= HALF_MAX,
        ensures
            final(self).wf(),
            repopulated(old(self), final(self), names@),
    {
        let ghost keep = listed(names@);
        let ghost start = *self;
        let save = savefile_name_bytes();
        let pairs = names_iter(&self.files);
        let ghost mut gone: Set<FileNumber> = Set::empty();
        proof {
            assert(without_files(start.sets(), gone) =~= start.sets()) by {
                assert forall|k: u64| #[trigger] start.sets().contains_key(k) implies start.sets()[k].difference(gone)
                    =~= start.sets()[k] by {}
            }
            assert(self.file_names() =~= Map::new(
                |f: u64| start.file_names().contains_key(f) && !gone.contains(f),
                |f: u64| start.file_names()[f],
            ));
        }
        let mut i: usize = 0;
        while i < pairs.len()
            invariant
                self.wf(),
                start.wf(),
                start == *old(self),
                save@ == savefile_name(),
                keep == listed(names@),
                i <= pairs@.len(),
                pairs@.len() == start.file_names().len(),
                forall|j: int|
                    0 <= j < pairs@.len() ==> start.file_names().contains_key(#[trigger] pairs@[j].0)
                        && pairs@[j].1@ == start.file_names()[pairs@[j].0],
                forall|a: int, b: int|
                    0 <= a < b < pairs@.len() ==> #[trigger] pairs@[a].0 != #[trigger] pairs@[b].0,
                forall|f: u64| #[trigger]
                    start.file_names().contains_key(f) ==> exists|j: int|
                        0 <= j < pairs@.len() && pairs@[j].0 == f,
                forall|f: u64|
                    #![trigger gone.contains(f)]
                    gone.contains(f) <==> (exists|j: int| 0 <= j < i && pairs@[j].0 == f)
                        && start.file_names().contains_key(f) && !keep.contains(start.file_names()[f]),
                self.file_names() == Map::new(
                    |f: u64| start.file_names().contains_key(f) && !gone.contains(f),
                    |f: u64| start.file_names()[f],
                ),
                self.sets() == without_files(start.sets(), gone),
                self.order() == start.order(),
                self.tags == start.tags,
                self.tree == start.tree,
                self.file_tally == start.file_tally,
            decreases pairs@.len() - i,
        {
            let fnb = pairs[i].0;
            let stays = !bytes_eq(pairs[i].1.as_slice(), save.as_slice()) && is_listed(
                names,
                pairs[i].1.as_slice(),
            );
            let ghost old_gone = gone;
            if !stays {
                self.omit_file(fnb);
                proof {
                    gone = gone.insert(fnb);
                    assert(self.sets() =~= without_files(start.sets(), gone)) by {
                        assert forall|k: u64| #[trigger] self.sets().contains_key(k) implies self.sets()[k]
                            =~= start.sets()[k].difference(gone) by {}
                    }
                    assert(self.file_names() =~= Map::new(
                        |f: u64| start.file_names().contains_key(f) && !gone.contains(f),
                        |f: u64| start.file_names()[f],
                    ));
                }
            }
            proof {
                assert forall|f: u64| #[trigger] gone.contains(f) <==> (exists|j: int|
                    0 <= j < i + 1 && pairs@[j].0 == f) && start.file_names().contains_key(f)
                    && !keep.contains(start.file_names()[f]) by {
                    if f == fnb {
                        assert(pairs@[i as int].0 == fnb);
                        if !stays {
                            assert(gone.contains(f));
                        } else {
                            if old_gone.contains(f) {
                                let j = choose|j: int| 0 <= j < i && pairs@[j].0 == f;
                                assert(pairs@[j].0 != pairs@[i as int].0);
                            }
                        }
                    } else {
                        if exists|j: int| 0 <= j < i + 1 && pairs@[j].0 == f {
                            let j = choose|j: int| 0 <= j < i + 1 && pairs@[j].0 == f;
                            assert(j != i);
                        }
                    }
                }
            }
            i = i + 1;
        }
        proof {
            assert(gone =~= dropped_files(start.file_names(), keep)) by {
                assert forall|f: u64| dropped_files(start.file_names(), keep).contains(f) implies #[trigger] gone.contains(f) by {
                    if dropped_files(start.file_names(), keep).contains(f) {
                        assert(start.file_names().contains_key(f));
                    }
                }
            }
        }
        let ghost mid = *self;
        let mut i: usize = 0;
        while i < names.len()
            invariant
                self.wf(),
                start.wf(),
                start == *old(self),
                save@ == savefile_name(),
                keep == listed(names@),
                i <= names@.len(),
                mid.file_tally == start.file_tally,
                start.file_tally <= self.file_tally <= start.file_tally + i,
                start.file_tally + names@.len() <= HALF_MAX,
                mid.file_names() == Map::new(
                    |f: u64| start.file_names().contains_key(f) && !gone.contains(f),
                    |f: u64| start.file_names()[f],
                ),
                gone == dropped_files(start.file_names(), keep),
                forall|f: u64| #[trigger]
                    mid.file_names().contains_key(f) ==> self.file_names().contains_key(f)
                        && self.file_names()[f] == mid.file_names()[f],
                forall|f: u64| #[trigger]
                    self.file_names().contains_key(f) && !mid.file_names().contains_key(f) ==> start.file_tally
                        < f <= self.file_tally,
                forall|f: u64|
                    start.file_tally < f <= self.file_tally ==> #[trigger] self.file_names().contains_key(f),
                self.file_names().values() == mid.file_names().values().union(
                    listed(names@.take(i as int)),
                ),
                self.sets() == without_files(start.sets(), gone),
                self.order() == start.order(),
                self.tags == start.tags,
                self.tree == start.tree,
            decreases names@.len() - i,
        {
            let ghost before = *self;
            let name = names[i].as_slice();
            if !bytes_eq(name, save.as_slice()) {
                match self.get_fnb_by_name(name) {
                    Some(_) => {},
                    None => {
                        let fresh = slice_to_vec(name);
                        let r = self.add_file(fresh);
                        proof {
                            assert(self.file_names() =~= before.file_names().insert(r, name@));
                        }
                    },
                }
            }
            proof {
                lemma_listed_push(names@, i as int);
                let extra = if name@ == savefile_name() {
                    before.file_names().values()
                } else {
                    before.file_names().values().insert(name@)
                };
                assert(self.file_names().values() =~= extra) by {
                    if name@ != savefile_name() && key_of(before.file_names(), name@) is Some {
                        let f = key_of(before.file_names(), name@)->0;
                        assert(before.file_names().dom().contains(f));
                    }
                    if self.file_names() != before.file_names() {
                        let r = self.file_tally;
                        assert(self.file_names().dom().contains(r));
                        assert forall|n: Seq<u8>| #[trigger] before.file_names().values().contains(n)
                            implies self.file_names().values().contains(n) by {
                            let f = choose|f: u64| #[trigger] before.file_names().dom().contains(f)
                                && before.file_names()[f] == n;
                            assert(self.file_names().dom().contains(f));
                        }
                    }
                }
                assert(self.file_names().values() =~= mid.file_names().values().union(
                    listed(names@.take(i + 1)),
                ));
            }
            i = i + 1;
        }
        proof {
            assert(names@.take(i as int) =~= names@);
            assert(mid.file_names().values().subset_of(keep)) by {
                assert forall|n: Seq<u8>| #[trigger] mid.file_names().values().contains(n) implies keep.contains(n) by {
                    let f = choose|f: u64| #[trigger] mid.file_names().dom().contains(f) && mid.file_names()[f] == n;
                    assert(!gone.contains(f));
                }
            }
            assert(self.file_names().values() =~= keep);
            assert forall|f: FileNumber|
                #![trigger old(self).file_names().contains_key(f)]
                old(self).file_names().contains_key(f) && keep.contains(old(self).file_names()[f])
                implies self.file_names().contains_key(f) && self.file_names()[f] == old(self).file_names()[f] by {
                assert(!gone.contains(f));
                assert(mid.file_names().contains_key(f));
            }
            assert forall|f: FileNumber|
                #![trigger old(self).file_names().contains_key(f)]
                old(self).file_names().contains_key(f) && !keep.contains(old(self).file_names()[f])
                implies !self.file_names().contains_key(f) by {
                assert(gone.contains(f));
                assert(!mid.file_names().contains_key(f));
            }
        }
    }

    /// Forgets file `fnb`: its name, and its place in every tag's set.
    pub fn omit_file(&mut self, fnb: FileNumber)
        requires
            old(self).wf(),
        ensures
            final(self).wf(),
            final(self).file_names() == old(self).file_names().remove(fnb),
            final(self).sets() == without_file(old(self).sets(), fnb),
            final(self).order() == old(self).order(),
            final(self).tags == old(self).tags,
            final(self).file_tally == old(self).file_tally,
            final(self).tree == old(self).tree,
    {
        names_remove_by_left(&mut self.files, fnb);
        self.purge(fnb);
    }

    /// Removes `fnb` from every tag's set.
    fn purge(&mut self, fnb: FileNumber)
        requires
            old(self).wf(),
        ensures
            final(self).wf(),
            final(self).sets() == without_file(old(self).sets(), fnb),
            final(self).order() == old(self).order(),
            final(self).files == old(self).files,
            final(self).tags == old(self).tags,
            final(self).file_tally == old(self).file_tally,
            final(self).tree == old(self).tree,
    {
        let keys = sets_keys(&self.tag_content);
        let ghost start = self.sets();
        let mut i: usize = 0;
        while i < keys.len()
            invariant
                self.wf(),
                keys@ == self.order(),
                self.order() == old(self).order(),
                start == old(self).sets(),
                self.files == old(self).files,
                self.tags == old(self).tags,
                self.file_tally == old(self).file_tally,
                self.tree == old(self).tree,
                i <= keys@.len(),
                self.sets().dom() == start.dom(),
                forall|j: int|
                    0 <= j < keys@.len() ==> self.sets()[#[trigger] keys@[j]] == if j < i {
                        start[keys@[j]].remove(fnb)
                    } else {
                        start[keys@[j]]
                    },
            decreases keys@.len() - i,
        {
            let k = keys[i];
            assert(self.order().contains(k));
            self.remove_file_from(fnb, k);
            proof {
                assert forall|j: int| 0 <= j < keys@.len() implies self.sets()[#[trigger] keys@[j]]
                    == if j < i + 1 {
                    start[keys@[j]].remove(fnb)
                } else {
                    start[keys@[j]]
                } by {
                    if j != i {
                        assert(keys@[j] != keys@[i as int]);
                    }
                }
                assert(self.sets().dom() =~= start.dom());
            }
            i = i + 1;
        }
        proof {
            assert forall|k: u64| #[trigger] self.sets().contains_key(k) implies self.sets()[k]
                == start[k].remove(fnb) by {
                let j = choose|j: int| 0 <= j < keys@.len() && keys@[j] == k;
            }
            assert(self.sets() =~= without_file(start, fnb));
        }
    }
}

/// Whether every set of `sets` holds `x`.
fn contained_in_all(sets: &Vec<HashSet<FileNumber>>, x: FileNumber) -> (r: bool)
    ensures
        r == forall|j: int| 0 <= j < sets@.len() ==> (#[trigger] sets@[j])@.contains(x),
{
    let mut i: usize = 0;
    while i < sets.len()
        invariant
            i <= sets@.len(),
            forall|j: int| 0 <= j < i ==> (#[trigger] sets@[j])@.contains(x),
        decreases sets@.len() - i,
    {
        if !sets[i].contains(&x) {
            return false;
        }
        i = i + 1;
    }
    true
}

/// The index `new` is `old` re-indexed against the listing `names`: the
/// files are exactly the listed names; a file whose name is listed keeps its
/// number and its tags; a file whose name is not listed is gone, from every
/// tag too; each new name has a number above the old tally, and every number
/// handed out is a new file.
pub open spec fn repopulated(old: &TagFS, new: &TagFS, names: Seq<Vec<u8>>) -> bool {
    &&& new.file_names().values() == listed(names)
    &&& forall|f: FileNumber|
        #![trigger old.file_names().contains_key(f)]
        old.file_names().contains_key(f) && listed(names).contains(old.file_names()[f])
            ==> new.file_names().contains_key(f) && new.file_names()[f] == old.file_names()[f]
    &&& forall|f: FileNumber|
        #![trigger old.file_names().contains_key(f)]
        old.file_names().contains_key(f) && !listed(names).contains(old.file_names()[f])
            ==> !new.file_names().contains_key(f)
    &&& forall|f: FileNumber|
        #![trigger new.file_names().contains_key(f)]
        new.file_names().contains_key(f) && !old.file_names().contains_key(f) ==> old.file_tally < f
            <= new.file_tally
    &&& old.file_tally <= new.file_tally
    &&& forall|f: FileNumber|
        old.file_tally < f <= new.file_tally ==> #[trigger] new.file_names().contains_key(f)
            && !old.file_names().contains_key(f)
    &&& new.sets() == without_files(old.sets(), dropped_files(old.file_names(), listed(names)))
    &&& new.order() == old.order()
    &&& new.tags == old.tags
    &&& new.tree == old.tree
}

/// Re-indexing twice against the same listing changes nothing the second
/// time.
pub proof fn lemma_repopulate_idempotent(s0: &TagFS, s1: &TagFS, s2: &TagFS, names: Seq<Vec<u8>>)
    requires
        s0.wf(),
        s1.wf(),
        s2.wf(),
        repopulated(s0, s1, names),
        repopulated(s1, s2, names),
    ensures
        s2.file_names() == s1.file_names(),
        s2.file_tally == s1.file_tally,
        s2.sets() == s1.sets(),
        s2.order() == s1.order(),
        s2.tags == s1.tags,
        s2.tree == s1.tree,
{
    let keep = listed(names);
    assert forall|f: FileNumber| s1.file_names().contains_key(f) implies keep.contains(
        s1.file_names()[f],
    ) by {
        assert(s1.file_names().values().contains(s1.file_names()[f]));
    }
    assert forall|f: FileNumber| #[trigger] s2.file_names().contains_key(f) implies s1.file_names().contains_key(f) by {
        if !s1.file_names().contains_key(f) {
            let n = s2.file_names()[f];
            assert(s2.file_names().values().contains(n));
            assert(s1.file_names().values().contains(n));
            let g = choose|g: u64| #[trigger] s1.file_names().dom().contains(g) && s1.file_names()[g] == n;
            assert(s2.file_names().contains_key(g) && s2.file_names()[g] == n);
        }
    }
    assert(s2.file_names() =~= s1.file_names());
    if s2.file_tally > s1.file_tally {
        let f = (s1.file_tally + 1) as u64;
        assert(s2.file_names().contains_key(f));
    }
    assert(dropped_files(s1.file_names(), keep) =~= Set::<FileNumber>::empty());
    assert(s2.sets() =~= s1.sets()) by {
        assert forall|k: u64| #[trigger] s1.sets().contains_key(k) implies s1.sets()[k].difference(
            Set::<FileNumber>::empty(),
        ) =~= s1.sets()[k] by {}
    }
}

/// The name of the savefile in the source directory.
pub open spec fn savefile_name() -> Seq<u8> {
    seq![46u8, 116u8, 97u8, 103u8, 102u8, 115u8]
}

/// The name of the savefile, `.tagfs`.
pub fn savefile_name_bytes() -> (r: Vec<u8>)
    ensures
        r@ == savefile_name(),
{
    let r: Vec<u8> = vec![46u8, 116u8, 97u8, 103u8, 102u8, 115u8];
    assert(r@ =~= savefile_name());
    r
}

/// The file names that a listing of the source directory gives: every name
/// of it but the savefile's.
pub open spec fn listed(names: Seq<Vec<u8>>) -> Set<Seq<u8>> {
    Set::new(
        |n: Seq<u8>|
            n != savefile_name() && exists|i: int| 0 <= i < names.len() && names[i]@ == n,
    )
}

/// The files of `files` whose names are not in `keep`.
pub open spec fn dropped_files(files: Map<FileNumber, Seq<u8>>, keep: Set<Seq<u8>>) -> Set<
    FileNumber,
> {
    Set::new(|f: FileNumber| files.contains_key(f) && !keep.contains(files[f]))
}

/// `sets` with the files of `gone` taken out of every set.
pub open spec fn without_files(sets: Map<TagNumber, Set<FileNumber>>, gone: Set<FileNumber>) -> Map<
    TagNumber,
    Set<FileNumber>,
> {
    Map::new(|k: TagNumber| sets.contains_key(k), |k: TagNumber| sets[k].difference(gone))
}

/// Listing one more name adds it, unless it is the savefile's.
proof fn lemma_listed_push(names: Seq<Vec<u8>>, i: int)
    requires
        0 <= i < names.len(),
    ensures
        listed(names.take(i + 1)) == if names[i]@ == savefile_name() {
            listed(names.take(i))
        } else {
            listed(names.take(i)).insert(names[i]@)
        },
{
    let t0 = names.take(i);
    let t1 = names.take(i + 1);
    assert forall|n: Seq<u8>| #[trigger] listed(t1).contains(n) == (if names[i]@ == savefile_name() {
        listed(t0)
    } else {
        listed(t0).insert(names[i]@)
    }).contains(n) by {
        if listed(t1).contains(n) {
            let j = choose|j: int| 0 <= j < t1.len() && (#[trigger] t1[j])@ == n;
            if j < i {
                assert(t0[j] == t1[j]);
            }
        }
        if listed(t0).contains(n) {
            let j = choose|j: int| 0 <= j < t0.len() && (#[trigger] t0[j])@ == n;
            assert(t0[j] == t1[j]);
        }
        if n == names[i]@ && n != savefile_name() {
            assert(t1[i] == names[i]);
        }
    }
    assert(listed(t1) =~= if names[i]@ == savefile_name() {
        listed(t0)
    } else {
        listed(t0).insert(names[i]@)
    });
}

/// Whether two byte strings are equal.
pub fn bytes_eq(a: &[u8], b: &[u8]) -> (r: bool)
    ensures
        r == (a@ == b@),
{
    if a.len() != b.len() {
        return false;
    }
    let mut i: usize = 0;
    while i < a.len()
        invariant
            a@.len() == b@.len(),
            i <= a@.len(),
            forall|j: int| 0 <= j < i ==> a@[j] == b@[j],
        decreases a@.len() - i,
    {
        if a[i] != b[i] {
            return false;
        }
        i = i + 1;
    }
    assert(a@ =~= b@);
    true
}

/// Whether `name` is one of `names`.
fn is_listed(names: &Vec<Vec<u8>>, name: &[u8]) -> (r: bool)
    ensures
        r == exists|i: int| 0 <= i < names@.len() && names@[i]@ == name@,
{
    let mut i: usize = 0;
    while i < names.len()
        invariant
            i <= names@.len(),
            forall|j: int| 0 <= j < i ==> names@[j]@ != name@,
        decreases names@.len() - i,
    {
        if bytes_eq(names[i].as_slice(), name) {
            return true;
        }
        i = i + 1;
    }
    false
}

/// `sets` with `f` taken out of every set.
pub open spec fn without_file(sets: Map<TagNumber, Set<FileNumber>>, f: FileNumber) -> Map<
    TagNumber,
    Set<FileNumber>,
> {
    Map::new(|k: TagNumber| sets.contains_key(k), |k: TagNumber| sets[k].remove(f))
}

/// Binding a name in a bijective map keeps it bijective.
pub(crate) proof fn lemma_rebind_injective(m: Map<u64, Seq<u8>>, l: u64, r: Seq<u8>)
    requires
        injective(m),
    ensures
        injective(rebind(m, l, r)),
{
}

/// What a lookup by name in a bijective map returns is the one key of that name.
proof fn lemma_key_of(m: Map<u64, Seq<u8>>, name: Seq<u8>, r: Option<u64>)
    requires
        injective(m),
        match r {
            Some(l) => m.contains_key(l) && m[l] == name,
            None => forall|l: u64| #[trigger] m.contains_key(l) ==> m[l] != name,
        },
    ensures
        r == key_of(m, name),
{
    if let Some(l) = r {
        let k = choose|k: u64| m.contains_key(k) && m[k] == name;
        assert(m[k] == m[l]);
    }
}

} // verus!
