//! Saving the tag index to savefile bytes and loading it back.

use std::collections::HashSet;

use vstd::prelude::*;
use vstd::std_specs::hash::group_hash_axioms;

use crate::collections::{
    name_pairs, names_insert, names_new, rebind, set_contents, set_order, sets_get,
    sets_insert, sets_keys, sets_new,
};
use crate::index::{injective, keys_match, lemma_rebind_injective, TagFS};
use crate::ino::{FileNumber, TagNumber, HALF_MAX};
use crate::ordered::{
    enumerates, in_order, lemma_numbers_in_order, members, numbers_in_order, pairs_in_order,
    sort_numbers,
};
use crate::savefile::{
    decode, decode_state, encode, encode_state, lemma_decode_encode, name_fits, names_view,
    set_fits, state_fits, PersistentState, StateView,
};
use crate::tree::TagTree;

verus! {

broadcast use group_hash_axioms;

/// `st` holds the index of `fs`: its tags in order with their files, its
/// files and its tags by number and name, and its file tally.
pub open spec fn represents(st: StateView, fs: &TagFS) -> bool {
    &&& st.tag_content.len() == fs.order().len()
    &&& forall|i: int|
        0 <= i < st.tag_content.len() ==> {
            let e = #[trigger] st.tag_content[i];
            &&& e.0 == fs.order()[i]
            &&& e.1.no_duplicates()
            &&& e.1.to_set() == fs.sets()[e.0]
        }
    &&& enumerates(st.files, fs.file_names())
    &&& enumerates(st.tags, fs.tag_names())
    &&& st.file_tally == fs.file_tally
}

/// The state of `fs` in its canonical form: tags in their order, each with
/// its files by increasing number; files and tags by increasing number.
pub open spec fn canonical_state(fs: &TagFS) -> StateView {
    StateView {
        tag_content: fs.order().map_values(|k: u64| (k, numbers_in_order(fs.sets()[k]))),
        files: in_order(fs.file_names()),
        tags: in_order(fs.tag_names()),
        file_tally: fs.file_tally,
    }
}

/// The files of each tag after inserting the entries of `es` in order.
pub open spec fn sets_of(es: Seq<(u64, Seq<u64>)>) -> Map<TagNumber, Set<FileNumber>>
    decreases es.len(),
{
    if es.len() == 0 {
        Map::empty()
    } else {
        sets_of(es.drop_last()).insert(es.last().0, es.last().1.to_set())
    }
}

/// The order of the tags after inserting the entries of `es` in order: a
/// tag keeps the place of its first entry.
pub open spec fn order_of(es: Seq<(u64, Seq<u64>)>) -> Seq<TagNumber>
    decreases es.len(),
{
    if es.len() == 0 {
        seq![]
    } else if sets_of(es.drop_last()).contains_key(es.last().0) {
        order_of(es.drop_last())
    } else {
        order_of(es.drop_last()).push(es.last().0)
    }
}

/// The bindings after binding the pairs of `ps` in order.
pub open spec fn bind_all(ps: Seq<(u64, Seq<u8>)>) -> Map<u64, Seq<u8>>
    decreases ps.len(),
{
    if ps.len() == 0 {
        Map::empty()
    } else {
        rebind(bind_all(ps.drop_last()), ps.last().0, ps.last().1)
    }
}

/// A state that an index can be rebuilt from: the tally is a file number,
/// every file number is between 2 and the tally, and every tag number fits
/// the tag half of an inode.
pub open spec fn state_valid(st: StateView) -> bool {
    &&& 1 <= st.file_tally <= HALF_MAX
    &&& forall|i: int|
        0 <= i < st.files.len() ==> 2 <= #[trigger] st.files[i].0 <= st.file_tally
    &&& forall|i: int| 0 <= i < st.tags.len() ==> #[trigger] st.tags[i].0 <= HALF_MAX
    &&& forall|i: int| 0 <= i < st.tag_content.len() ==> #[trigger] st.tag_content[i].0 <= HALF_MAX
}

/// Why saved bytes give no index.
#[derive(Clone, Copy, Debug, PartialEq, Eq, Hash, Structural)]
pub enum LoadError {
    /// The bytes are not those of a state.
    Undecodable,
    /// The state has a number out of its range.
    Inconsistent,
}

impl TagFS {
    /// The persistent part of this index, in its one canonical form: tags
    /// in their order, each with its files by increasing number, files and
    /// tags by increasing number.
    pub fn to_state(&self) -> (r: PersistentState)
        requires
            self.wf(),
        ensures
            r@ == canonical_state(self),
            represents(r@, self),
            state_fits(r@),
    {
        let keys = sets_keys(&self.tag_content);
        let mut content: Vec<(u64, Vec<u64>)> = Vec::new();
        let mut i: usize = 0;
        while i < keys.len()
            invariant
                self.wf(),
                keys@ == self.order(),
                i <= keys@.len(),
                content@.len() == i,
                forall|j: int|
                    0 <= j < i ==> {
                        let e = #[trigger] content@[j];
                        &&& e.0 == self.order()[j]
                        &&& e.1@.no_duplicates()
                        &&& e.1@.to_set() == self.sets()[e.0]
                        &&& e.1@ == numbers_in_order(self.sets()[e.0])
                        &&& e.1@.len() <= u64::MAX
                    },
            decreases keys@.len() - i,
        {
            let k = keys[i];
            assert(self.sets().contains_key(k));
            let set = sets_get(&self.tag_content, k).unwrap();
            let numbers = sort_numbers(&members(&set));
            let n = numbers.len();
            proof {
                lemma_numbers_in_order(numbers@, self.sets()[k]);
                assert forall|a: int, b: int| 0 <= a < numbers@.len() && 0 <= b < numbers@.len() && a != b implies numbers@[a] != numbers@[b] by {
                    if a < b { assert(numbers@[a] < numbers@[b]); } else { assert(numbers@[b] < numbers@[a]); }
                }
            }
            let ghost before = content@;
            content.push((k, numbers));
            assert(forall|j: int| 0 <= j < i ==> content@[j] == before[j]);
            i = i + 1;
        }
        let files = pairs_in_order(&self.files);
        let tags = pairs_in_order(&self.tags);
        let (nc, nf, nt) = (content.len(), files.len(), tags.len());
        let r = PersistentState { tag_content: content, files, tags, file_tally: self.file_tally };
        proof {
            let cs = canonical_state(self);
            assert(r@.tag_content =~= cs.tag_content) by {
                assert forall|j: int| 0 <= j < cs.tag_content.len() implies r@.tag_content[j] == cs.tag_content[j] by {
                    assert(content@[j].0 == self.order()[j]);
                }
            }
            assert forall|j: int| 0 <= j < r@.files.len() implies name_fits(#[trigger] r@.files[j]) by {
                assert(r@.files[j].1 == files@[j].1@);
            }
            assert forall|j: int| 0 <= j < r@.tags.len() implies name_fits(#[trigger] r@.tags[j]) by {
                assert(r@.tags[j].1 == tags@[j].1@);
            }
            assert forall|j: int| 0 <= j < r@.tag_content.len() implies set_fits(#[trigger] r@.tag_content[j]) by {
                assert(r@.tag_content[j].1 == content@[j].1@);
            }
        }
        r
    }

    /// The savefile bytes of this index: the encoding of its canonical state,
    /// the same bytes for the same index whatever order the hashed
    /// collections give.
    pub fn save(&self) -> (r: Vec<u8>)
        requires
            self.wf(),
        ensures
            r@ == encode(canonical_state(self)),
            represents(canonical_state(self), self),
            state_fits(canonical_state(self)),
    {
        let st = self.to_state();
        encode_state(&st)
    }

    /// Rebuilds an index from a state, with a tree holding the root alone
    /// whose next number is above every tag number of the state.
    pub fn from_state(st: PersistentState) -> (r: Option<TagFS>)
        ensures
            r is Some <==> state_valid(st@),
            r matches Some(fs) ==> {
                &&& fs.wf()
                &&& fs.sets() == sets_of(st@.tag_content)
                &&& fs.order() == order_of(st@.tag_content)
                &&& fs.file_names() == bind_all(st@.files)
                &&& fs.tag_names() == bind_all(st@.tags)
                &&& fs.file_tally == st.file_tally
                &&& fs.tree.nodes@.len() == 1
            },
    {
        let ghost sv = st@;
        if st.file_tally < 1 || st.file_tally > HALF_MAX {
            return None;
        }
        let mut last: u64 = 1;
        let mut i: usize = 0;
        while i < st.tag_content.len()
            invariant
                sv == st@,
                i <= st.tag_content@.len(),
                last <= HALF_MAX,
                forall|j: int| 0 <= j < i ==> #[trigger] st.tag_content@[j].0 <= last,
            decreases st.tag_content@.len() - i,
        {
            let k = st.tag_content[i].0;
            if k > HALF_MAX {
                proof {
                    assert(sv.tag_content[i as int].0 == k);
                }
                return None;
            }
            if k > last {
                last = k;
            }
            i = i + 1;
        }
        let mut i: usize = 0;
        while i < st.tags.len()
            invariant
                sv == st@,
                i <= st.tags@.len(),
                last <= HALF_MAX,
                forall|j: int| 0 <= j < st.tag_content@.len() ==> #[trigger] st.tag_content@[j].0 <= last,
                forall|j: int| 0 <= j < i ==> #[trigger] st.tags@[j].0 <= last,
            decreases st.tags@.len() - i,
        {
            let k = st.tags[i].0;
            if k > HALF_MAX {
                proof {
                    assert(sv.tags[i as int].0 == k);
                }
                return None;
            }
            if k > last {
                last = k;
            }
            i = i + 1;
        }
        let mut i: usize = 0;
        while i < st.files.len()
            invariant
                sv == st@,
                i <= st.files@.len(),
                1 <= st.file_tally <= HALF_MAX,
                forall|j: int| 0 <= j < i ==> 2 <= #[trigger] st.files@[j].0 <= st.file_tally,
            decreases st.files@.len() - i,
        {
            let k = st.files[i].0;
            if k < 2 || k > st.file_tally {
                proof {
                    assert(sv.files[i as int].0 == k);
                }
                return None;
            }
            i = i + 1;
        }
        proof {
            assert(state_valid(sv)) by {
                assert forall|j: int| 0 <= j < sv.files.len() implies 2 <= #[trigger] sv.files[j].0 <= sv.file_tally by {
                    assert(sv.files[j].0 == st.files@[j].0);
                }
                assert forall|j: int| 0 <= j < sv.tags.len() implies #[trigger] sv.tags[j].0 <= HALF_MAX by {
                    assert(sv.tags[j].0 == st.tags@[j].0);
                }
                assert forall|j: int| 0 <= j < sv.tag_content.len() implies #[trigger] sv.tag_content[j].0 <= HALF_MAX by {
                    assert(sv.tag_content[j].0 == st.tag_content@[j].0);
                }
            }
        }
        let tree = TagTree::starting_after(last);
        let tag_content = build_sets(&st.tag_content, last);
        let files = build_names(&st.files, 2, st.file_tally);
        let tags = build_names(&st.tags, 0, last);
        let fs = TagFS { tree, tag_content, files, tags, file_tally: st.file_tally };
        proof {
            assert forall|t: u64| #[trigger] fs.sets().contains_key(t) implies t <= fs.tree.counter by {}
        }
        Some(fs)
    }

    /// Loads an index from savefile bytes.
    pub fn new_from_save(bytes: &[u8]) -> (r: Result<TagFS, LoadError>)
        ensures
            match decode(bytes@) {
                None => r == Err::<TagFS, LoadError>(LoadError::Undecodable),
                Some(st) => if state_valid(st) {
                    r matches Ok(fs) && fs.wf() && fs.sets() == sets_of(st.tag_content) && fs.order()
                        == order_of(st.tag_content) && fs.file_names() == bind_all(st.files)
                        && fs.tag_names() == bind_all(st.tags) && fs.file_tally == st.file_tally
                        && fs.tree.nodes@.len() == 1
                } else {
                    r == Err::<TagFS, LoadError>(LoadError::Inconsistent)
                },
            },
    {
        match decode_state(bytes) {
            None => Err(LoadError::Undecodable),
            Some(st) => match TagFS::from_state(st) {
                Some(fs) => Ok(fs),
                None => Err(LoadError::Inconsistent),
            },
        }
    }
}

/// Binding the pairs of an enumeration of a bijective map, in any order,
/// gives the map back.
proof fn lemma_bind_enumeration(ps: Seq<(u64, Seq<u8>)>, m: Map<u64, Seq<u8>>)
    requires
        injective(m),
        enumerates(ps, m),
    ensures
        bind_all(ps) == m,
{
    lemma_bind_prefix(ps, m, ps.len() as int);
    assert(ps.take(ps.len() as int) =~= ps);
    assert forall|k: u64| #[trigger] m.contains_key(k) implies exists|j: int| 0 <= j < ps.len() && ps[j].0 == k by {}
    assert(bind_all(ps) =~= m);
}

proof fn lemma_bind_prefix(ps: Seq<(u64, Seq<u8>)>, m: Map<u64, Seq<u8>>, i: int)
    requires
        injective(m),
        enumerates(ps, m),
        0 <= i <= ps.len(),
    ensures
        bind_all(ps.take(i)) == Map::new(
            |k: u64| exists|j: int| 0 <= j < i && ps[j].0 == k,
            |k: u64| m[k],
        ),
    decreases i,
{
    let target = Map::new(|k: u64| exists|j: int| 0 <= j < i && ps[j].0 == k, |k: u64| m[k]);
    if i == 0 {
        assert(bind_all(ps.take(0)) =~= target);
    } else {
        lemma_bind_prefix(ps, m, i - 1);
        let t = ps.take(i);
        assert(t.drop_last() =~= ps.take(i - 1));
        assert(t.last() == ps[i - 1]);
        let prev = bind_all(ps.take(i - 1));
        let (l, r) = (ps[i - 1].0, ps[i - 1].1);
        assert(m.contains_key(l) && m[l] == r);
        assert forall|k: u64| prev.contains_key(k) implies k != l && prev[k] != r by {
            let j = choose|j: int| 0 <= j < i - 1 && ps[j].0 == k;
            assert(ps[j].0 != ps[i - 1].0);
        }
        assert(bind_all(t) =~= target) by {
            assert forall|k: u64| #[trigger] target.contains_key(k) implies bind_all(t).contains_key(k) by {
                let j = choose|j: int| 0 <= j < i && ps[j].0 == k;
                if j < i - 1 {
                    assert(prev.contains_key(k));
                }
            }
        }
    }
}

/// Inserting the entries of an index's state in order gives its sets and
/// their order back.
proof fn lemma_sets_prefix(es: Seq<(u64, Seq<u64>)>, order: Seq<u64>, sets: Map<u64, Set<u64>>, i: int)
    requires
        keys_match(order, sets),
        es.len() == order.len(),
        forall|j: int| 0 <= j < es.len() ==> (#[trigger] es[j]).0 == order[j] && es[j].1.to_set() == sets[es[j].0],
        0 <= i <= es.len(),
    ensures
        sets_of(es.take(i)) == Map::new(|k: u64| order.take(i).contains(k), |k: u64| sets[k]),
        order_of(es.take(i)) == order.take(i),
    decreases i,
{
    let target = Map::new(|k: u64| order.take(i).contains(k), |k: u64| sets[k]);
    if i == 0 {
        assert(sets_of(es.take(0)) =~= target);
        assert(order_of(es.take(0)) =~= order.take(0));
    } else {
        lemma_sets_prefix(es, order, sets, i - 1);
        let t = es.take(i);
        assert(t.drop_last() =~= es.take(i - 1));
        assert(t.last() == es[i - 1]);
        let k0 = es[i - 1].0;
        assert(k0 == order[i - 1]);
        let o0 = order.take(i - 1);
        let o1 = order.take(i);
        assert(!o0.contains(k0)) by {
            if o0.contains(k0) {
                let j = choose|j: int| 0 <= j < i - 1 && #[trigger] o0[j] == k0;
                assert(order[j] == order[i - 1]);
            }
        }
        assert(order.take(i) =~= order.take(i - 1).push(k0));
        assert(sets_of(t) =~= target) by {
            assert forall|k: u64| #[trigger] target.contains_key(k) == sets_of(t).contains_key(k) by {
                if o1.contains(k) && k != k0 {
                    let j = choose|j: int| 0 <= j < i && #[trigger] o1[j] == k;
                    assert(o0[j] == k);
                }
                if o0.contains(k) {
                    let j = choose|j: int| 0 <= j < i - 1 && #[trigger] o0[j] == k;
                    assert(o1[j] == k);
                }
                if k == k0 {
                    assert(o1[i - 1] == k0);
                }
            }
        }
    }
}

/// Loading what was saved gives the index back: a state that represents an
/// index is valid, and rebuilding from it gives the index's sets in their
/// order, its names and its tally.
pub proof fn lemma_state_round_trip(fs: &TagFS, st: StateView)
    requires
        fs.wf(),
        represents(st, fs),
    ensures
        state_valid(st),
        sets_of(st.tag_content) == fs.sets(),
        order_of(st.tag_content) == fs.order(),
        bind_all(st.files) == fs.file_names(),
        bind_all(st.tags) == fs.tag_names(),
        st.file_tally == fs.file_tally,
{
    let es = st.tag_content;
    assert forall|j: int| 0 <= j < es.len() implies (#[trigger] es[j]).0 == fs.order()[j] && es[j].1.to_set()
        == fs.sets()[es[j].0] by {}
    lemma_sets_prefix(es, fs.order(), fs.sets(), es.len() as int);
    assert(es.take(es.len() as int) =~= es);
    assert(fs.order().take(es.len() as int) =~= fs.order());
    assert(sets_of(es) =~= fs.sets()) by {
        assert forall|k: u64| #[trigger] fs.sets().contains_key(k) implies fs.order().contains(k) by {}
    }
    lemma_bind_enumeration(st.files, fs.file_names());
    lemma_bind_enumeration(st.tags, fs.tag_names());
    assert forall|i: int| 0 <= i < st.files.len() implies 2 <= #[trigger] st.files[i].0 <= st.file_tally by {
        assert(fs.file_names().contains_key(st.files[i].0));
    }
    assert forall|i: int| 0 <= i < st.tags.len() implies #[trigger] st.tags[i].0 <= HALF_MAX by {
        assert(fs.tag_names().contains_key(st.tags[i].0));
    }
    assert forall|i: int| 0 <= i < es.len() implies #[trigger] es[i].0 <= HALF_MAX by {
        assert(fs.sets().contains_key(fs.order()[i]));
    }
}

/// The bytes that `save` writes for an index load back into that index:
/// they decode to the saved state, which is valid and rebuilds the index's
/// sets in their order, its names and its tally.
pub proof fn lemma_reload(fs: &TagFS, st: StateView)
    requires
        fs.wf(),
        represents(st, fs),
        state_fits(st),
    ensures
        decode(encode(st)) == Some(st),
        state_valid(st),
        sets_of(st.tag_content) == fs.sets(),
        order_of(st.tag_content) == fs.order(),
        bind_all(st.files) == fs.file_names(),
        bind_all(st.tags) == fs.tag_names(),
        st.file_tally == fs.file_tally,
{
    lemma_decode_encode(st);
    lemma_state_round_trip(fs, st);
}

/// An index map holding the entries of `es` inserted in order.
fn build_sets(es: &Vec<(u64, Vec<u64>)>, last: u64) -> (r: indexmap::IndexMap<TagNumber, HashSet<FileNumber>>)
    requires
        forall|j: int| 0 <= j < es@.len() ==> #[trigger] es@[j].0 <= last,
    ensures
        set_contents(r) == sets_of(crate::savefile::sets_view(es@)),
        set_order(r) == order_of(crate::savefile::sets_view(es@)),
        keys_match(set_order(r), set_contents(r)),
        forall|t: u64| #[trigger] set_contents(r).contains_key(t) ==> t <= last,
{
    let ghost ev = crate::savefile::sets_view(es@);
    let mut m = sets_new();
    let mut i: usize = 0;
    proof {
        assert(ev.take(0) =~= seq![]);
        assert(set_contents(m) =~= Map::<u64, Set<u64>>::empty());
    }
    while i < es.len()
        invariant
            ev == crate::savefile::sets_view(es@),
            i <= es@.len(),
            forall|j: int| 0 <= j < es@.len() ==> #[trigger] es@[j].0 <= last,
            set_contents(m) == sets_of(ev.take(i as int)),
            set_order(m) == order_of(ev.take(i as int)),
            keys_match(set_order(m), set_contents(m)),
            forall|t: u64| #[trigger] set_contents(m).contains_key(t) ==> t <= last,
        decreases es@.len() - i,
    {
        let e = &es[i];
        let mut set: HashSet<u64> = HashSet::new();
        let mut j: usize = 0;
        while j < e.1.len()
            invariant
                j <= e.1@.len(),
                set@ == e.1@.take(j as int).to_set(),
            decreases e.1@.len() - j,
        {
            set.insert(e.1[j]);
            proof {
                assert(e.1@.take(j + 1) =~= e.1@.take(j as int).push(e.1@[j as int]));
                e.1@.take(j as int).lemma_push_to_set_commute(e.1@[j as int]);
            }
            j = j + 1;
        }
        let ghost before_order = set_order(m);
        let ghost before = set_contents(m);
        sets_insert(&mut m, e.0, set);
        proof {
            assert(e.1@.take(j as int) =~= e.1@);
            let t1 = ev.take(i + 1);
            assert(t1.drop_last() =~= ev.take(i as int));
            assert(t1.last() == (e.0, e.1@));
            assert(set_contents(m) == sets_of(t1));
            if !before.contains_key(e.0) {
                assert forall|k: u64| #[trigger] set_contents(m).contains_key(k) implies set_order(m).contains(k) by {
                    if k == e.0 {
                        assert(set_order(m)[before_order.len() as int] == k);
                    } else {
                        let x = choose|x: int| 0 <= x < before_order.len() && before_order[x] == k;
                        assert(set_order(m)[x] == k);
                    }
                }
                assert forall|x: int| 0 <= x < set_order(m).len() implies set_contents(m).contains_key(#[trigger] set_order(m)[x]) by {
                    if x < before_order.len() {
                        assert(before_order[x] == set_order(m)[x]);
                    }
                }
            }
        }
        i = i + 1;
    }
    proof {
        assert(ev.take(i as int) =~= ev);
    }
    m
}

/// A bimap holding the pairs of `ps` bound in order; every number of `ps`
/// lies in `lo..=hi`.
fn build_names(ps: &Vec<(u64, Vec<u8>)>, lo: u64, hi: u64) -> (r: bimap::BiHashMap<u64, Vec<u8>>)
    requires
        forall|j: int| 0 <= j < ps@.len() ==> lo <= #[trigger] ps@[j].0 <= hi,
    ensures
        name_pairs(r) == bind_all(names_view(ps@)),
        injective(name_pairs(r)),
        forall|k: u64| #[trigger] name_pairs(r).contains_key(k) ==> lo <= k <= hi,
{
    let ghost pv = names_view(ps@);
    let mut m = names_new();
    let mut i: usize = 0;
    proof {
        assert(pv.take(0) =~= seq![]);
        assert(name_pairs(m) =~= Map::<u64, Seq<u8>>::empty());
    }
    while i < ps.len()
        invariant
            pv == names_view(ps@),
            i <= ps@.len(),
            forall|j: int| 0 <= j < ps@.len() ==> lo <= #[trigger] ps@[j].0 <= hi,
            name_pairs(m) == bind_all(pv.take(i as int)),
            injective(name_pairs(m)),
            forall|k: u64| #[trigger] name_pairs(m).contains_key(k) ==> lo <= k <= hi,
        decreases ps@.len() - i,
    {
        let ghost before = name_pairs(m);
        let name = vstd::slice::slice_to_vec(ps[i].1.as_slice());
        names_insert(&mut m, ps[i].0, name);
        proof {
            lemma_rebind_injective(before, ps@[i as int].0, ps@[i as int].1@);
            let t1 = pv.take(i + 1);
            assert(t1.drop_last() =~= pv.take(i as int));
            assert(t1.last() == (ps@[i as int].0, ps@[i as int].1@));
        }
        i = i + 1;
    }
    proof {
        assert(pv.take(i as int) =~= pv);
    }
    m
}

} // verus!
