//! Canonical orders. Listings and savefiles give tags and files sorted by
//! number, so that they come out the same on every call whatever order the
//! hashed collections hand them out in.

use std::collections::HashSet;

use bimap::BiHashMap;
use vstd::prelude::*;
use vstd::std_specs::hash::{group_hash_axioms, spec_hash_keys_iter};
use vstd::std_specs::iter::IteratorSpec;

use crate::collections::{name_pairs, names_get_by_left, names_iter};
use crate::ino::FileNumber;
use crate::savefile::names_view;

verus! {

broadcast use group_hash_axioms;

/// `s` is strictly increasing.
pub open spec fn increasing(s: Seq<u64>) -> bool {
    forall|i: int, j: int| 0 <= i < j < s.len() ==> s[i] < s[j]
}

/// The numbers of a sequence of pairs.
pub open spec fn keys_of(ps: Seq<(u64, Seq<u8>)>) -> Seq<u64> {
    ps.map_values(|p: (u64, Seq<u8>)| p.0)
}

/// `pairs` lists every binding of `m` once.
pub open spec fn enumerates(pairs: Seq<(u64, Seq<u8>)>, m: Map<u64, Seq<u8>>) -> bool {
    &&& forall|i: int|
        0 <= i < pairs.len() ==> m.contains_key(#[trigger] pairs[i].0) && pairs[i].1 == m[pairs[i].0]
    &&& forall|i: int, j: int| 0 <= i < j < pairs.len() ==> #[trigger] pairs[i].0 != #[trigger] pairs[j].0
    &&& forall|k: u64| #[trigger] m.contains_key(k) ==> exists|i: int| 0 <= i < pairs.len() && pairs[i].0 == k
}

/// The bindings of `files` whose numbers are in `chosen`.
pub open spec fn named_files(files: Map<FileNumber, Seq<u8>>, chosen: Set<FileNumber>) -> Map<FileNumber, Seq<u8>> {
    Map::new(|f: FileNumber| chosen.contains(f) && files.contains_key(f), |f: FileNumber| files[f])
}

/// The bindings of `m`, by increasing number.
pub open spec fn in_order(m: Map<u64, Seq<u8>>) -> Seq<(u64, Seq<u8>)> {
    choose|ps: Seq<(u64, Seq<u8>)>| enumerates(ps, m) && increasing(keys_of(ps))
}

/// The numbers of `s`, increasing.
pub open spec fn numbers_in_order(s: Set<u64>) -> Seq<u64> {
    choose|q: Seq<u64>| increasing(q) && q.to_set() == s
}

/// Two increasing sequences of the same numbers are the same sequence.
pub proof fn lemma_increasing_unique(a: Seq<u64>, b: Seq<u64>)
    requires
        increasing(a),
        increasing(b),
        a.to_set() == b.to_set(),
    ensures
        a == b,
    decreases a.len(),
{
    if a.len() == 0 {
        if b.len() > 0 {
            assert(b.to_set().contains(b[0]));
        }
        assert(a =~= b);
    } else {
        assert(a.to_set().contains(a[0]));
        assert(b.contains(a[0]));
        assert(b.len() > 0);
        assert(b.to_set().contains(b[0]));
        assert(a.contains(b[0]));
        let ja = choose|j: int| 0 <= j < a.len() && a[j] == b[0];
        let jb = choose|j: int| 0 <= j < b.len() && b[j] == a[0];
        if ja > 0 {
            assert(a[0] < a[ja]);
        }
        if jb > 0 {
            assert(b[0] < b[jb]);
        }
        assert(a[0] == b[0]);
        let (ra, rb) = (a.drop_first(), b.drop_first());
        assert forall|x: u64| ra.to_set().contains(x) == rb.to_set().contains(x) by {
            if ra.contains(x) {
                let j = choose|j: int| 0 <= j < ra.len() && ra[j] == x;
                assert(a[j + 1] == x && a[0] < a[j + 1]);
                assert(b.to_set().contains(x));
                let k = choose|k: int| 0 <= k < b.len() && b[k] == x;
                assert(k != 0);
                assert(rb[k - 1] == x);
            }
            if rb.contains(x) {
                let j = choose|j: int| 0 <= j < rb.len() && rb[j] == x;
                assert(b[j + 1] == x && b[0] < b[j + 1]);
                assert(a.to_set().contains(x));
                let k = choose|k: int| 0 <= k < a.len() && a[k] == x;
                assert(k != 0);
                assert(ra[k - 1] == x);
            }
        }
        assert(ra.to_set() =~= rb.to_set());
        lemma_increasing_unique(ra, rb);
        assert(a =~= b) by {
            assert forall|i: int| 0 <= i < a.len() implies a[i] == b[i] by {
                if i > 0 {
                    assert(a[i] == ra[i - 1] && b[i] == rb[i - 1]);
                }
            }
        }
    }
}

/// An increasing enumeration of a map is its bindings in order.
pub proof fn lemma_in_order(ps: Seq<(u64, Seq<u8>)>, m: Map<u64, Seq<u8>>)
    requires
        enumerates(ps, m),
        increasing(keys_of(ps)),
    ensures
        in_order(m) == ps,
{
    let q = in_order(m);
    assert(enumerates(q, m) && increasing(keys_of(q)));
    let (kq, kp) = (keys_of(q), keys_of(ps));
    assert forall|x: u64| kq.to_set().contains(x) == kp.to_set().contains(x) by {
        if kq.contains(x) {
            let j = choose|j: int| 0 <= j < kq.len() && kq[j] == x;
            assert(m.contains_key(q[j].0));
            let i = choose|i: int| 0 <= i < ps.len() && ps[i].0 == x;
            assert(kp[i] == x);
        }
        if kp.contains(x) {
            let j = choose|j: int| 0 <= j < kp.len() && kp[j] == x;
            assert(m.contains_key(ps[j].0));
            let i = choose|i: int| 0 <= i < q.len() && q[i].0 == x;
            assert(kq[i] == x);
        }
    }
    assert(kq.to_set() =~= kp.to_set());
    lemma_increasing_unique(kq, kp);
    assert(q.len() == kq.len() && ps.len() == kp.len());
    assert(q =~= ps) by {
        assert forall|i: int| 0 <= i < q.len() implies q[i] == ps[i] by {
            assert(kq[i] == kp[i]);
            assert(q[i].0 == ps[i].0);
            assert(m.contains_key(q[i].0) && q[i].1 == m[q[i].0]);
            assert(m.contains_key(ps[i].0) && ps[i].1 == m[ps[i].0]);
        }
    }
}

/// An increasing sequence of the numbers of a set is that set in order.
pub proof fn lemma_numbers_in_order(q: Seq<u64>, s: Set<u64>)
    requires
        increasing(q),
        q.to_set() == s,
    ensures
        numbers_in_order(s) == q,
{
    let r = numbers_in_order(s);
    assert(increasing(r) && r.to_set() == s);
    lemma_increasing_unique(r, q);
}

/// The elements of `s`, each once.
pub fn members(s: &HashSet<u64>) -> (r: Vec<u64>)
    ensures
        r@.no_duplicates(),
        r@.to_set() == s@,
{
    let mut out: Vec<u64> = Vec::new();
    let ghost keys = spec_hash_keys_iter(s).remaining();
    let ghost mut count: int = 0;
    for x in it: s.iter()
        invariant
            it.seq() == keys,
            count == it.index(),
            keys.no_duplicates(),
            keys.unref().to_set() == s@,
            out@.len() == it.index(),
            forall|j: int| 0 <= j < out@.len() ==> out@[j] == *keys[j],
    {
        out.push(*x);
        proof {
            count = count + 1;
        }
    }
    proof {
        assert(out@ =~= keys.unref());
        assert forall|a: int, b: int| 0 <= a < b < out@.len() implies out@[a] != out@[b] by {
            assert(keys[a] != keys[b]);
        }
    }
    out
}

/// The numbers of `v`, increasing and each once.
pub fn sort_numbers(v: &Vec<u64>) -> (r: Vec<u64>)
    ensures
        increasing(r@),
        r@.to_set() == v@.to_set(),
{
    let mut out: Vec<u64> = Vec::new();
    let mut i: usize = 0;
    assert(v@.take(0).to_set() =~= out@.to_set());
    while i < v.len()
        invariant
            i <= v@.len(),
            increasing(out@),
            out@.to_set() == v@.take(i as int).to_set(),
        decreases v@.len() - i,
    {
        let x = v[i];
        let mut p: usize = 0;
        while p < out.len() && out[p] < x
            invariant
                p <= out@.len(),
                forall|j: int| 0 <= j < p ==> out@[j] < x,
            decreases out@.len() - p,
        {
            p = p + 1;
        }
        let ghost before = out@;
        if p < out.len() && out[p] == x {
            proof {
                assert(out@.to_set() =~= before.to_set().insert(x));
            }
        } else {
            out.insert(p, x);
            proof {
                before.insert_ensures(p as int, x);
                assert(out@.len() == before.len() + 1);
                assert forall|a: int, b: int| 0 <= a < b < out@.len() implies out@[a] < out@[b] by {
                    if a < p && b < p {
                    } else if a < p && b == p {
                    } else if a < p {
                        assert(out@[b] == before[b - 1]);
                        if b - 1 > p {
                            assert(before[p as int] < before[b - 1]);
                        }
                    } else if a == p {
                        assert(out@[b] == before[b - 1]);
                        if b - 1 > p {
                            assert(before[p as int] < before[b - 1]);
                        }
                    } else {
                        assert(out@[a] == before[a - 1] && out@[b] == before[b - 1]);
                    }
                }
                assert forall|y: u64| out@.to_set().contains(y) == before.to_set().insert(x).contains(y) by {
                    if out@.contains(y) {
                        let j = choose|j: int| 0 <= j < out@.len() && out@[j] == y;
                        if j < p {
                            assert(before[j] == y);
                        } else if j > p {
                            assert(before[j - 1] == y);
                        }
                    }
                    if before.contains(y) {
                        let j = choose|j: int| 0 <= j < before.len() && before[j] == y;
                        if j < p {
                            assert(out@[j] == y);
                        } else {
                            assert(out@[j + 1] == y);
                        }
                    }
                    if y == x {
                        assert(out@[p as int] == x);
                    }
                }
                assert(out@.to_set() =~= before.to_set().insert(x));
            }
        }
        proof {
            let t0 = v@.take(i as int);
            let t1 = v@.take(i + 1);
            assert(t1 =~= t0.push(x));
            assert(t1.to_set() =~= t0.to_set().insert(x)) by {
                assert forall|y: u64| t1.contains(y) == t0.to_set().insert(x).contains(y) by {
                    if t1.contains(y) {
                        let j = choose|j: int| 0 <= j < i + 1 && #[trigger] t1[j] == y;
                        if j < i {
                            assert(t0[j] == y);
                        }
                    }
                    if t0.contains(y) {
                        let j = choose|j: int| 0 <= j < i && #[trigger] t0[j] == y;
                        assert(t1[j] == y);
                    }
                    if y == x {
                        assert(t1[i as int] == x);
                    }
                }
            }
        }
        i = i + 1;
    }
    assert(v@.take(i as int) =~= v@);
    out
}

/// What `names_iter` returns lists the bimap's bindings once each.
pub proof fn lemma_enumerates_iter(v: Seq<(u64, Vec<u8>)>, m: Map<u64, Seq<u8>>)
    requires
        forall|i: int|
            0 <= i < v.len() ==> m.contains_key(#[trigger] v[i].0) && v[i].1@ == m[v[i].0],
        forall|i: int, j: int| 0 <= i < j < v.len() ==> #[trigger] v[i].0 != #[trigger] v[j].0,
        forall|l: u64| #[trigger] m.contains_key(l) ==> exists|i: int| 0 <= i < v.len() && v[i].0 == l,
    ensures
        enumerates(names_view(v), m),
{
    let nv = names_view(v);
    assert forall|k: u64| #[trigger] m.contains_key(k) implies exists|i: int| 0 <= i < nv.len() && nv[i].0 == k by {
        let i = choose|i: int| 0 <= i < v.len() && v[i].0 == k;
        assert(nv[i].0 == k);
    }
    assert forall|a: int, b: int| 0 <= a < b < nv.len() implies #[trigger] nv[a].0 != #[trigger] nv[b].0 by {
        assert(v[a].0 != v[b].0);
    }
}

/// The bindings of `m` whose numbers are in `keys`, in the order of `keys`.
pub fn lookup_all(m: &BiHashMap<u64, Vec<u8>>, keys: &Vec<u64>) -> (r: Vec<(u64, Vec<u8>)>)
    requires
        increasing(keys@),
    ensures
        enumerates(names_view(r@), named_files(name_pairs(*m), keys@.to_set())),
        increasing(keys_of(names_view(r@))),
        forall|i: int| 0 <= i < r@.len() ==> (#[trigger] r@[i]).1@.len() <= usize::MAX,
{
    let ghost mp = name_pairs(*m);
    let mut out: Vec<(u64, Vec<u8>)> = Vec::new();
    let mut i: usize = 0;
    while i < keys.len()
        invariant
            mp == name_pairs(*m),
            increasing(keys@),
            i <= keys@.len(),
            forall|a: int| 0 <= a < out@.len() ==> exists|j: int| 0 <= j < i && keys@[j] == (#[trigger] out@[a]).0,
            forall|a: int, b: int| 0 <= a < b < out@.len() ==> (#[trigger] out@[a]).0 < (#[trigger] out@[b]).0,
            forall|a: int|
                0 <= a < out@.len() ==> mp.contains_key((#[trigger] out@[a]).0) && out@[a].1@ == mp[out@[a].0]
                    && out@[a].1@.len() <= usize::MAX,
            forall|j: int|
                0 <= j < i && mp.contains_key(#[trigger] keys@[j]) ==> exists|a: int| 0 <= a < out@.len() && out@[a].0 == keys@[j],
        decreases keys@.len() - i,
    {
        let k = keys[i];
        let ghost before = out@;
        if let Some(name) = names_get_by_left(m, k) {
            let n = name.len();
            out.push((k, name));
            proof {
                assert forall|a: int| 0 <= a < before.len() implies before[a].0 < k by {
                    let j = choose|j: int| 0 <= j < i && keys@[j] == (#[trigger] before[a]).0;
                }
                assert forall|a: int| 0 <= a < out@.len() implies exists|j: int| 0 <= j < i + 1 && keys@[j] == (#[trigger] out@[a]).0 by {
                    if a < before.len() {
                        assert(out@[a] == before[a]);
                        let j = choose|j: int| 0 <= j < i && keys@[j] == (#[trigger] before[a]).0;
                    } else {
                        assert(keys@[i as int] == out@[a].0);
                    }
                }
                assert forall|j: int| 0 <= j < i + 1 && mp.contains_key(#[trigger] keys@[j]) implies exists|a: int| 0 <= a < out@.len() && out@[a].0 == keys@[j] by {
                    if j < i {
                        let a = choose|a: int| 0 <= a < before.len() && before[a].0 == keys@[j];
                        assert(out@[a] == before[a]);
                    } else {
                        assert(out@[before.len() as int].0 == keys@[j]);
                    }
                }
            }
        } else {
            proof {
                assert forall|a: int| 0 <= a < out@.len() implies exists|j: int| 0 <= j < i + 1 && keys@[j] == (#[trigger] out@[a]).0 by {
                    let j = choose|j: int| 0 <= j < i && keys@[j] == (#[trigger] out@[a]).0;
                }
            }
        }
        i = i + 1;
    }
    proof {
        let nv = names_view(out@);
        let nm = named_files(mp, keys@.to_set());
        assert forall|a: int| 0 <= a < nv.len() implies nm.contains_key(#[trigger] nv[a].0) && nv[a].1 == nm[nv[a].0] by {
            let j = choose|j: int| 0 <= j < i && keys@[j] == (#[trigger] out@[a]).0;
            assert(keys@.contains(out@[a].0));
        }
        assert forall|a: int, b: int| 0 <= a < b < nv.len() implies #[trigger] nv[a].0 != #[trigger] nv[b].0 by {
            assert(out@[a].0 < out@[b].0);
        }
        assert forall|k: u64| #[trigger] nm.contains_key(k) implies exists|a: int| 0 <= a < nv.len() && nv[a].0 == k by {
            let j = choose|j: int| 0 <= j < keys@.len() && keys@[j] == k;
            let a = choose|a: int| 0 <= a < out@.len() && out@[a].0 == keys@[j];
            assert(nv[a].0 == k);
        }
        assert forall|a: int, b: int| 0 <= a < b < keys_of(nv).len() implies keys_of(nv)[a] < keys_of(nv)[b] by {
            assert(out@[a].0 < out@[b].0);
        }
    }
    out
}

/// The bindings of `m`, by increasing number.
pub fn pairs_in_order(m: &BiHashMap<u64, Vec<u8>>) -> (r: Vec<(u64, Vec<u8>)>)
    ensures
        names_view(r@) == in_order(name_pairs(*m)),
        enumerates(names_view(r@), name_pairs(*m)),
        increasing(keys_of(names_view(r@))),
        forall|i: int| 0 <= i < r@.len() ==> (#[trigger] r@[i]).1@.len() <= usize::MAX,
{
    let pairs = names_iter(m);
    let mut numbers: Vec<u64> = Vec::new();
    let mut i: usize = 0;
    while i < pairs.len()
        invariant
            i <= pairs@.len(),
            numbers@.len() == i,
            forall|j: int| 0 <= j < i ==> numbers@[j] == pairs@[j].0,
        decreases pairs@.len() - i,
    {
        numbers.push(pairs[i].0);
        i = i + 1;
    }
    let keys = sort_numbers(&numbers);
    let r = lookup_all(m, &keys);
    proof {
        let mp = name_pairs(*m);
        assert(named_files(mp, keys@.to_set()) =~= mp) by {
            assert forall|k: u64| #[trigger] mp.contains_key(k) implies keys@.to_set().contains(k) by {
                let j = choose|j: int| 0 <= j < pairs@.len() && pairs@[j].0 == k;
                assert(numbers@[j] == k);
                assert(numbers@.to_set().contains(k));
            }
            assert forall|k: u64| keys@.to_set().contains(k) implies #[trigger] mp.contains_key(k) by {
                assert(numbers@.to_set().contains(k));
                let j = choose|j: int| 0 <= j < numbers@.len() && numbers@[j] == k;
            }
        }
        lemma_in_order(names_view(r@), mp);
    }
    r
}

} // verus!
