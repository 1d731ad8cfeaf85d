//! The tag-path tree: one node for each tag-intersection directory that has
//! been visited, kept in an arena indexed by the node's inode tag half.

use vstd::prelude::*;

use crate::ino::{TagNumber, HALF_MAX, ROOT_INO};

verus! {

/// One directory of the virtual tree. Its contents are the intersection of
/// the tags on the path from the root to it.
#[derive(Debug)]
pub struct TagNode {
    /// The tag half of this directory's inode.
    pub ino_part: u64,
    /// The tag added by this directory; meaningless for the root.
    pub tag: TagNumber,
    /// The `ino_part` of the parent directory; `None` for the root.
    pub parent: Option<u64>,
    /// The `ino_part`s of the directories materialized below this one.
    pub children: Vec<u64>,
}

/// The arena of directories. The root has `ino_part` 1 and sits at index 0;
/// the node at index `i > 0` has `ino_part` `base + i + 1`. The numbers
/// `2..=base + 1` were handed out before this tree existed and name no node.
#[derive(Debug)]
pub struct TagTree {
    pub nodes: Vec<TagNode>,
    pub base: u64,
    pub counter: u64,
}

impl TagTree {
    pub open spec fn ino_at(&self, i: int) -> int {
        if i == 0 {
            ROOT_INO as int
        } else {
            self.base + i + 1
        }
    }

    pub open spec fn index_of(&self, ino: int) -> int {
        if ino == ROOT_INO {
            0
        } else {
            ino - self.base - 1
        }
    }

    /// `ino` is the tag half of a directory of this tree.
    pub open spec fn has_node(&self, ino: int) -> bool {
        ino == ROOT_INO || (self.base + 2 <= ino && ino <= self.counter)
    }

    pub open spec fn node(&self, ino: int) -> TagNode {
        self.nodes@[self.index_of(ino)]
    }

    pub open spec fn wf(&self) -> bool {
        &&& self.nodes@.len() >= 1
        &&& self.counter == self.base + self.nodes@.len()
        &&& self.counter <= HALF_MAX
        &&& forall|i: int|
            0 <= i < self.nodes@.len() ==> #[trigger] self.nodes@[i].ino_part == self.ino_at(i)
        &&& self.nodes@[0].parent is None
        &&& forall|i: int|
            1 <= i < self.nodes@.len() ==> {
                let n = #[trigger] self.nodes@[i];
                &&& n.parent is Some
                &&& self.has_node(n.parent->0 as int)
                &&& n.parent->0 < n.ino_part
            }
        &&& forall|i: int, j: int|
            0 <= i < self.nodes@.len() && 0 <= j < self.nodes@[i].children@.len() ==> {
                let c = #[trigger] self.nodes@[i].children@[j];
                &&& self.has_node(c as int)
                &&& self.node(c as int).parent == Some(self.nodes@[i].ino_part)
            }
    }

    /// The tags from the root down to the directory `ino`, the root excluded.
    pub open spec fn path_of(&self, ino: int) -> Seq<TagNumber>
        decreases ino,
    {
        if ino <= ROOT_INO || !self.has_node(ino) {
            seq![]
        } else {
            match self.node(ino).parent {
                Some(p) => if 1 <= p < ino {
                    self.path_of(p as int).push(self.node(ino).tag)
                } else {
                    seq![]
                },
                None => seq![],
            }
        }
    }

    /// The first directory in `kids` that adds `tag`.
    pub open spec fn first_with_tag(&self, kids: Seq<u64>, tag: TagNumber) -> Option<u64>
        decreases kids.len(),
    {
        if kids.len() == 0 {
            None
        } else if self.node(kids[0] as int).tag == tag {
            Some(kids[0])
        } else {
            self.first_with_tag(kids.drop_first(), tag)
        }
    }

    /// The materialized child of `ino` that adds `tag`, if there is one.
    pub open spec fn child_with(&self, ino: int, tag: TagNumber) -> Option<u64> {
        self.first_with_tag(self.node(ino).children@, tag)
    }

    /// `self` holds every directory of `prev` unchanged, but for children
    /// appended to their lists.
    pub open spec fn extends(&self, prev: &TagTree) -> bool {
        &&& self.base == prev.base
        &&& prev.counter <= self.counter
        &&& prev.nodes@.len() <= self.nodes@.len()
        &&& forall|i: int|
            0 <= i < prev.nodes@.len() ==> {
                let (a, b) = (#[trigger] self.nodes@[i], prev.nodes@[i]);
                &&& a.ino_part == b.ino_part
                &&& a.tag == b.tag
                &&& a.parent == b.parent
                &&& b.children@.is_prefix_of(a.children@)
            }
    }
}

impl TagNode {
    /// The tags from the root down to this directory, the root excluded.
    pub fn collect_tags(&self, tree: &TagTree) -> (r: Vec<TagNumber>)
        requires
            tree.wf(),
            tree.has_node(self.ino_part as int),
        ensures
            r@ == tree.path_of(self.ino_part as int),
    {
        tree.path(self.ino_part)
    }

    /// The first materialized child of this directory that adds `tag`.
    pub fn find_child(&self, tree: &TagTree, tag: TagNumber) -> (r: Option<u64>)
        requires
            tree.wf(),
            forall|j: int|
                0 <= j < self.children@.len() ==> tree.has_node(#[trigger] self.children@[j] as int),
        ensures
            r == tree.first_with_tag(self.children@, tag),
    {
        let mut i: usize = 0;
        assert(self.children@.skip(0) =~= self.children@);
        while i < self.children.len()
            invariant
                tree.wf(),
                i <= self.children@.len(),
                forall|j: int|
                    0 <= j < self.children@.len() ==> tree.has_node(
                        #[trigger] self.children@[j] as int,
                    ),
                tree.first_with_tag(self.children@, tag) == tree.first_with_tag(
                    self.children@.skip(i as int),
                    tag,
                ),
            decreases self.children@.len() - i,
        {
            let c = self.children[i];
            let ghost rest = self.children@.skip(i as int);
            assert(rest[0] == c);
            let n = tree.lookup(c).unwrap();
            if n.tag == tag {
                return Some(c);
            }
            assert(rest.drop_first() =~= self.children@.skip(i as int + 1));
            i = i + 1;
        }
        assert(self.children@.skip(i as int) =~= seq![]);
        None
    }
}

impl TagTree {
    /// A tree holding the root alone.
    pub fn new() -> (r: TagTree)
        ensures
            r.wf(),
            r.base == 0,
            r.counter == ROOT_INO,
            r.nodes@.len() == 1,
            r.node(ROOT_INO as int).children@ == Seq::<u64>::empty(),
    {
        TagTree::starting_after(0)
    }

    /// A tree holding the root alone, whose next number is above `last`:
    /// the numbers up to `last` are taken already.
    pub fn starting_after(last: u64) -> (r: TagTree)
        requires
            last <= HALF_MAX,
        ensures
            r.wf(),
            r.counter == if last > ROOT_INO { last } else { ROOT_INO },
            r.nodes@.len() == 1,
            r.node(ROOT_INO as int).children@ == Seq::<u64>::empty(),
            last <= ROOT_INO ==> r.base == 0,
    {
        let base: u64 = if last > ROOT_INO { last - 1 } else { 0 };
        let root = TagNode { ino_part: ROOT_INO, tag: ROOT_INO, parent: None, children: Vec::new() };
        let mut nodes: Vec<TagNode> = Vec::new();
        nodes.push(root);
        let r = TagTree { nodes, base, counter: base + 1 };
        assert(r.nodes@[0].children@.len() == 0);
        r
    }

    fn index(&self, ino: u64) -> (r: usize)
        requires
            self.wf(),
            self.has_node(ino as int),
        ensures
            r == self.index_of(ino as int),
            r < self.nodes@.len(),
    {
        if ino == ROOT_INO {
            0
        } else {
            (ino - self.base - 1) as usize
        }
    }

    /// The directory whose inode has tag half `ino`, if it exists.
    pub fn lookup(&self, ino: u64) -> (r: Option<&TagNode>)
        requires
            self.wf(),
        ensures
            r is Some <==> self.has_node(ino as int),
            r matches Some(n) ==> *n == self.node(ino as int),
    {
        if ino == ROOT_INO || (ino >= 2 && self.base <= ino - 2 && ino <= self.counter) {
            Some(&self.nodes[self.index(ino)])
        } else {
            None
        }
    }

    fn path(&self, ino: u64) -> (r: Vec<TagNumber>)
        requires
            self.wf(),
            self.has_node(ino as int),
        ensures
            r@ == self.path_of(ino as int),
        decreases ino,
    {
        let idx = self.index(ino);
        proof {
            self.lemma_has_node_index(ino as int);
        }
        if ino == ROOT_INO {
            return Vec::new();
        }
        assert(idx >= 1);
        let n = &self.nodes[idx];
        let p = n.parent.unwrap();
        let mut tags = self.path(p);
        tags.push(n.tag);
        tags
    }

    /// Creates a new child of `node` that adds `tag`, with a fresh `ino_part`.
    pub fn add_to(&mut self, node: u64, tag: TagNumber) -> (r: u64)
        requires
            old(self).wf(),
            old(self).has_node(node as int),
            old(self).counter < HALF_MAX,
        ensures
            final(self).wf(),
            final(self).extends(old(self)),
            r == old(self).counter + 1,
            final(self).counter == r,
            final(self).has_node(r as int),
            final(self).node(r as int).parent == Some(node),
            final(self).node(r as int).tag == tag,
            final(self).node(r as int).children@ == Seq::<u64>::empty(),
            final(self).node(node as int).children@ == old(self).node(node as int).children@.push(r),
            forall|i: int|
                0 <= i < old(self).nodes@.len() && i != old(self).index_of(node as int)
                    ==> #[trigger] final(self).nodes@[i] == old(self).nodes@[i],
    {
        let idx = self.index(node);
        proof {
            self.lemma_has_node_index(node as int);
        }
        let r = self.counter + 1;
        let ghost prev = *self;
        self.nodes[idx].children.push(r);
        self.nodes.push(TagNode { ino_part: r, tag, parent: Some(node), children: Vec::new() });
        self.counter = r;
        proof {
            let len = prev.nodes@.len();
            assert(self.index_of(r as int) == len);
            assert forall|i: int| 0 <= i < self.nodes@.len() implies #[trigger] self.nodes@[i].ino_part
                == self.ino_at(i) by {
                if i < len {
                    assert(prev.nodes@[i].ino_part == prev.ino_at(i));
                }
            }
            assert forall|i: int| 1 <= i < self.nodes@.len() implies {
                let n = #[trigger] self.nodes@[i];
                &&& n.parent is Some
                &&& self.has_node(n.parent->0 as int)
                &&& n.parent->0 < n.ino_part
            } by {
                if i < len {
                    assert(prev.nodes@[i].parent is Some);
                }
            }
            assert forall|i: int, j: int|
                0 <= i < self.nodes@.len() && 0 <= j < self.nodes@[i].children@.len() implies {
                let c = #[trigger] self.nodes@[i].children@[j];
                &&& self.has_node(c as int)
                &&& self.node(c as int).parent == Some(self.nodes@[i].ino_part)
            } by {
                if i < len && j < prev.nodes@[i].children@.len() {
                    let c = prev.nodes@[i].children@[j];
                    assert(self.nodes@[i].children@[j] == c);
                    assert(prev.has_node(c as int));
                    prev.lemma_has_node_index(c as int);
                }
            }
            assert forall|i: int| 0 <= i < prev.nodes@.len() implies {
                let (a, b) = (#[trigger] self.nodes@[i], prev.nodes@[i]);
                &&& a.ino_part == b.ino_part
                &&& a.tag == b.tag
                &&& a.parent == b.parent
                &&& b.children@.is_prefix_of(a.children@)
            } by {}
        }
        r
    }

    /// The child of `node` that adds `tag`: the one materialized before, or
    /// else a new one.
    pub fn add_to_if_needed(&mut self, node: u64, tag: TagNumber) -> (r: u64)
        requires
            old(self).wf(),
            old(self).has_node(node as int),
            old(self).child_with(node as int, tag) is Some || old(self).counter < HALF_MAX,
        ensures
            added_if_needed(old(self), final(self), node as int, tag, r),
    {
        let idx = self.index(node);
        proof {
            self.lemma_has_node_index(node as int);
            assert forall|j: int| 0 <= j < self.nodes@[idx as int].children@.len() implies self.has_node(
                #[trigger] self.nodes@[idx as int].children@[j] as int,
            ) by {}
        }
        let found = self.nodes[idx].find_child(self, tag);
        match found {
            Some(c) => {
                proof {
                    self.lemma_extends_trans(self, self);
                    let kids = self.node(node as int).children@;
                    self.lemma_first_in(kids, tag);
                    self.lemma_has_node_index(c as int);
                    let ci = self.index_of(c as int);
                    assert(ci >= 1);
                    assert(self.nodes@[ci].parent->0 < self.nodes@[ci].ino_part);
                }
                c
            },
            None => {
                let ghost prev = *self;
                let r = self.add_to(node, tag);
                proof {
                    prev.lemma_first_push(prev.node(node as int).children@, r, tag);
                    let kids = prev.node(node as int).children@;
                    assert forall|j: int| 0 <= j < kids.len() implies #[trigger] self.node(
                        kids[j] as int,
                    ).tag == prev.node(kids[j] as int).tag by {
                        assert(prev.has_node(prev.nodes@[idx as int].children@[j] as int));
                        self.lemma_extends_path(&prev, kids[j] as int);
                    }
                    self.lemma_first_same(&prev, kids, tag);
                    self.lemma_first_push(kids, r, tag);
                    self.lemma_extends_path(&prev, node as int);
                    prev.lemma_has_node_index(node as int);
                    assert(node < r);
                }
                r
            },
        }
    }

    /// The materialized child of `node` that adds `tag`, if there is one.
    pub fn find(&self, node: u64, tag: TagNumber) -> (r: Option<u64>)
        requires
            self.wf(),
            self.has_node(node as int),
        ensures
            r == self.child_with(node as int, tag),
    {
        let idx = self.index(node);
        proof {
            self.lemma_has_node_index(node as int);
            assert forall|j: int| 0 <= j < self.nodes@[idx as int].children@.len() implies self.has_node(
                #[trigger] self.nodes@[idx as int].children@[j] as int,
            ) by {}
        }
        self.nodes[idx].find_child(self, tag)
    }

    /// A fresh tag number, with a directory for it under the root whose
    /// `ino_part` is that same number.
    pub fn create_new(&mut self) -> (r: TagNumber)
        requires
            old(self).wf(),
            old(self).counter < HALF_MAX,
        ensures
            final(self).wf(),
            final(self).extends(old(self)),
            r == old(self).counter + 1,
            final(self).counter == r,
            final(self).has_node(r as int),
            final(self).node(r as int).parent == Some(ROOT_INO),
            final(self).node(r as int).tag == r,
            final(self).node(r as int).children@ == Seq::<u64>::empty(),
            final(self).path_of(r as int) == seq![r],
            final(self).nodes@.len() == old(self).nodes@.len() + 1,
            final(self).node(ROOT_INO as int).children@ == old(self).node(
                ROOT_INO as int,
            ).children@.push(r),
            forall|i: int|
                1 <= i < old(self).nodes@.len() ==> #[trigger] final(self).nodes@[i] == old(
                    self,
                ).nodes@[i],
            final(self).child_with(ROOT_INO as int, r) == match old(self).child_with(
                ROOT_INO as int,
                r,
            ) {
                Some(c) => Some(c),
                None => Some(r),
            },
    {
        let tnb = self.counter + 1;
        let ghost prev = *self;
        let r = self.add_to(ROOT_INO, tnb);
        proof {
            self.lemma_extends_path(&prev, ROOT_INO as int);
            assert(self.path_of(ROOT_INO as int) =~= seq![]);
            assert(seq![].push(r) =~= seq![r]);
            let kids = prev.node(ROOT_INO as int).children@;
            assert forall|j: int| 0 <= j < kids.len() implies #[trigger] self.node(kids[j] as int).tag
                == prev.node(kids[j] as int).tag by {
                assert(prev.has_node(prev.nodes@[0].children@[j] as int));
                self.lemma_extends_path(&prev, kids[j] as int);
            }
            self.lemma_first_same(&prev, kids, tnb);
            self.lemma_first_push(kids, r, tnb);
        }
        tnb
    }

    /// A child found in a list of children is in that list and adds the tag.
    pub proof fn lemma_first_tag(&self, kids: Seq<u64>, tag: TagNumber)
        ensures
            self.first_with_tag(kids, tag) matches Some(c) ==> kids.contains(c) && self.node(
                c as int,
            ).tag == tag,
    {
        self.lemma_first_in(kids, tag);
    }

    proof fn lemma_first_in(&self, kids: Seq<u64>, tag: TagNumber)
        ensures
            self.first_with_tag(kids, tag) matches Some(c) ==> kids.contains(c) && self.node(
                c as int,
            ).tag == tag,
        decreases kids.len(),
    {
        if kids.len() > 0 && self.node(kids[0] as int).tag != tag {
            self.lemma_first_in(kids.drop_first(), tag);
            if self.first_with_tag(kids, tag) is Some {
                let c = self.first_with_tag(kids, tag)->0;
                let k = choose|k: int| 0 <= k < kids.drop_first().len() && kids.drop_first()[k] == c;
                assert(kids[k + 1] == c);
            }
        }
    }
}

impl Default for TagTree {
    fn default() -> (r: TagTree)
        ensures
            r.wf(),
            r.base == 0,
            r.counter == ROOT_INO,
            r.nodes@.len() == 1,
            r.node(ROOT_INO as int).children@ == Seq::<u64>::empty(),
    {
        TagTree::new()
    }
}

/// The relation between the tree before and after
/// `add_to_if_needed(node, tag)` that returned `r`.
pub open spec fn added_if_needed(
    old: &TagTree,
    new: &TagTree,
    node: int,
    tag: TagNumber,
    r: u64,
) -> bool {
    &&& new.wf()
    &&& new.extends(old)
    &&& match old.child_with(node, tag) {
        Some(c) => r == c && *new == *old,
        None => {
            &&& r == old.counter + 1
            &&& new.counter == r
            &&& new.nodes@.len() == old.nodes@.len() + 1
            &&& new.node(node).children@ == old.node(node).children@.push(r)
            &&& new.node(r as int).children@ == Seq::<u64>::empty()
            &&& forall|i: int|
                0 <= i < old.nodes@.len() && i != old.index_of(node) ==> #[trigger] new.nodes@[i]
                    == old.nodes@[i]
        },
    }
    &&& new.child_with(node, tag) == Some(r)
    &&& new.has_node(r as int)
    &&& new.node(r as int).parent == Some(node as u64)
    &&& new.node(r as int).tag == tag
    &&& new.path_of(r as int) == old.path_of(node).push(tag)
}

impl TagTree {
    pub proof fn lemma_has_node_index(&self, ino: int)
        requires
            self.wf(),
            self.has_node(ino),
        ensures
            0 <= self.index_of(ino) < self.nodes@.len(),
            self.ino_at(self.index_of(ino)) == ino,
            self.node(ino).ino_part == ino,
    {
        assert(self.nodes@[self.index_of(ino)].ino_part == self.ino_at(self.index_of(ino)));
    }

    /// A tree that extends another one gives every old directory the same path.
    pub proof fn lemma_extends_path(&self, prev: &TagTree, ino: int)
        requires
            self.wf(),
            prev.wf(),
            self.extends(prev),
            prev.has_node(ino),
        ensures
            self.has_node(ino),
            self.node(ino).tag == prev.node(ino).tag,
            self.node(ino).parent == prev.node(ino).parent,
            self.path_of(ino) == prev.path_of(ino),
        decreases ino,
    {
        prev.lemma_has_node_index(ino);
        let i = prev.index_of(ino);
        assert(self.nodes@[i].ino_part == prev.nodes@[i].ino_part);
        if ino > ROOT_INO {
            match prev.node(ino).parent {
                Some(p) => {
                    if 1 <= p < ino {
                        if i >= 1 {
                            assert(prev.has_node(prev.nodes@[i].parent->0 as int));
                        }
                        self.lemma_extends_path(prev, p as int);
                    }
                },
                None => {},
            }
        }
    }

    /// Where two trees give the same tags to the directories in `kids`, they
    /// pick the same first child with a given tag.
    pub proof fn lemma_first_same(&self, prev: &TagTree, kids: Seq<u64>, tag: TagNumber)
        requires
            forall|j: int|
                0 <= j < kids.len() ==> #[trigger] self.node(kids[j] as int).tag == prev.node(
                    kids[j] as int,
                ).tag,
        ensures
            self.first_with_tag(kids, tag) == prev.first_with_tag(kids, tag),
        decreases kids.len(),
    {
        if kids.len() > 0 {
            assert(self.node(kids[0] as int).tag == prev.node(kids[0] as int).tag);
            let rest = kids.drop_first();
            assert forall|j: int| 0 <= j < rest.len() implies #[trigger] self.node(
                rest[j] as int,
            ).tag == prev.node(rest[j] as int).tag by {
                assert(rest[j] == kids[j + 1]);
            }
            self.lemma_first_same(prev, rest, tag);
        }
    }

    /// Appending a child to a list leaves an earlier match in place, and is
    /// the match where there was none.
    pub proof fn lemma_first_push(&self, kids: Seq<u64>, x: u64, tag: TagNumber)
        ensures
            self.first_with_tag(kids.push(x), tag) == match self.first_with_tag(kids, tag) {
                Some(c) => Some(c),
                None => if self.node(x as int).tag == tag {
                    Some(x)
                } else {
                    None
                },
            },
        decreases kids.len(),
    {
        let l = kids.push(x);
        if kids.len() == 0 {
            assert(l.drop_first() =~= seq![]);
            assert(self.first_with_tag(l.drop_first(), tag) is None);
        } else {
            assert(l[0] == kids[0]);
            assert(l.drop_first() =~= kids.drop_first().push(x));
            self.lemma_first_push(kids.drop_first(), x, tag);
        }
    }

    /// A match found in a list is found in any list that extends it.
    pub proof fn lemma_first_prefix(&self, kids: Seq<u64>, more: Seq<u64>, tag: TagNumber)
        requires
            kids.is_prefix_of(more),
            self.first_with_tag(kids, tag) is Some,
        ensures
            self.first_with_tag(more, tag) == self.first_with_tag(kids, tag),
        decreases kids.len(),
    {
        assert(more[0] == kids[0]);
        if self.node(kids[0] as int).tag != tag {
            assert(kids.drop_first().is_prefix_of(more.drop_first())) by {
                assert forall|j: int| 0 <= j < kids.drop_first().len() implies kids.drop_first()[j]
                    == more.drop_first()[j] by {
                    assert(kids[j + 1] == more[j + 1]);
                }
            }
            self.lemma_first_prefix(kids.drop_first(), more.drop_first(), tag);
        }
    }

    /// Extending a tree keeps every child lookup that succeeded.
    pub proof fn lemma_extends_child(&self, prev: &TagTree, ino: int, tag: TagNumber)
        requires
            self.wf(),
            prev.wf(),
            self.extends(prev),
            prev.has_node(ino),
            prev.child_with(ino, tag) is Some,
        ensures
            self.child_with(ino, tag) == prev.child_with(ino, tag),
    {
        prev.lemma_has_node_index(ino);
        let i = prev.index_of(ino);
        let kids = prev.node(ino).children@;
        let more = self.node(ino).children@;
        assert(self.nodes@[i].ino_part == prev.nodes@[i].ino_part);
        assert forall|j: int| 0 <= j < kids.len() implies #[trigger] self.node(kids[j] as int).tag
            == prev.node(kids[j] as int).tag by {
            assert(prev.has_node(prev.nodes@[i].children@[j] as int));
            self.lemma_extends_path(prev, kids[j] as int);
        }
        self.lemma_first_same(prev, kids, tag);
        self.lemma_first_prefix(kids, more, tag);
    }

    /// Every tree extends itself, and extending is transitive.
    pub proof fn lemma_extends_trans(&self, mid: &TagTree, prev: &TagTree)
        requires
            self.extends(mid),
            mid.extends(prev),
        ensures
            self.extends(prev),
            prev.extends(prev),
    {
        assert forall|i: int| 0 <= i < prev.nodes@.len() implies ({
            let (a, b) = (#[trigger] self.nodes@[i], prev.nodes@[i]);
            &&& a.ino_part == b.ino_part
            &&& a.tag == b.tag
            &&& a.parent == b.parent
            &&& b.children@.is_prefix_of(a.children@)
        }) by {
            assert(mid.nodes@[i].ino_part == prev.nodes@[i].ino_part);
        }
        assert forall|i: int| 0 <= i < prev.nodes@.len() implies ({
            let (a, b) = (#[trigger] prev.nodes@[i], prev.nodes@[i]);
            &&& a.ino_part == b.ino_part
            &&& a.tag == b.tag
            &&& a.parent == b.parent
            &&& b.children@.is_prefix_of(a.children@)
        }) by {}
    }
}

/// Materializing the same tag under the same directory twice in a row gives
/// the same directory, and the second call changes nothing.
pub proof fn lemma_tag_node_identity(
    t0: &TagTree,
    t1: &TagTree,
    t2: &TagTree,
    node: int,
    tag: TagNumber,
    r1: u64,
    r2: u64,
)
    requires
        added_if_needed(t0, t1, node, tag, r1),
        added_if_needed(t1, t2, node, tag, r2),
    ensures
        r1 == r2,
        *t2 == *t1,
{
}

} // verus!
