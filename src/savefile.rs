//! The savefile format: the persistent part of the tag index as bytes.
//!
//! Every integer is 8 bytes, little-endian. A sequence is its length, then its
//! items. The state is the tag sets (each a tag number and its file numbers),
//! the files (each a number and its name), the tags (each a number and its
//! name), and the file tally, in that order.

use vstd::prelude::*;
use vstd::slice::{slice_subrange, slice_to_vec};

verus! {

/// The persistent part of the tag index.
pub struct PersistentState {
    /// Each tag's number with the numbers of its files, in tag order.
    pub tag_content: Vec<(u64, Vec<u64>)>,
    /// Each file's number with its name.
    pub files: Vec<(u64, Vec<u8>)>,
    /// Each tag's number with its name.
    pub tags: Vec<(u64, Vec<u8>)>,
    pub file_tally: u64,
}

/// What a `PersistentState` holds, as sequences.
pub struct StateView {
    pub tag_content: Seq<(u64, Seq<u64>)>,
    pub files: Seq<(u64, Seq<u8>)>,
    pub tags: Seq<(u64, Seq<u8>)>,
    pub file_tally: u64,
}

pub open spec fn sets_view(v: Seq<(u64, Vec<u64>)>) -> Seq<(u64, Seq<u64>)> {
    v.map_values(|e: (u64, Vec<u64>)| (e.0, e.1@))
}

pub open spec fn names_view(v: Seq<(u64, Vec<u8>)>) -> Seq<(u64, Seq<u8>)> {
    v.map_values(|e: (u64, Vec<u8>)| (e.0, e.1@))
}

impl View for PersistentState {
    type V = StateView;

    open spec fn view(&self) -> StateView {
        StateView {
            tag_content: sets_view(self.tag_content@),
            files: names_view(self.files@),
            tags: names_view(self.tags@),
            file_tally: self.file_tally,
        }
    }
}

// ---------------------------------------------------------------- encoding

/// The 8 bytes of `x`, least significant first.
#[verifier::opaque]
pub open spec fn enc_u64(x: u64) -> Seq<u8> {
    seq![
        (x & 0xffu64) as u8,
        ((x >> 8u64) & 0xffu64) as u8,
        ((x >> 16u64) & 0xffu64) as u8,
        ((x >> 24u64) & 0xffu64) as u8,
        ((x >> 32u64) & 0xffu64) as u8,
        ((x >> 40u64) & 0xffu64) as u8,
        ((x >> 48u64) & 0xffu64) as u8,
        ((x >> 56u64) & 0xffu64) as u8,
    ]
}

pub open spec fn enc_words(xs: Seq<u64>) -> Seq<u8>
    decreases xs.len(),
{
    if xs.len() == 0 {
        seq![]
    } else {
        enc_u64(xs[0]) + enc_words(xs.drop_first())
    }
}

pub open spec fn enc_set(e: (u64, Seq<u64>)) -> Seq<u8> {
    enc_u64(e.0) + enc_u64(e.1.len() as u64) + enc_words(e.1)
}

pub open spec fn enc_sets(es: Seq<(u64, Seq<u64>)>) -> Seq<u8>
    decreases es.len(),
{
    if es.len() == 0 {
        seq![]
    } else {
        enc_set(es[0]) + enc_sets(es.drop_first())
    }
}

pub open spec fn enc_name(e: (u64, Seq<u8>)) -> Seq<u8> {
    enc_u64(e.0) + enc_u64(e.1.len() as u64) + e.1
}

pub open spec fn enc_names(es: Seq<(u64, Seq<u8>)>) -> Seq<u8>
    decreases es.len(),
{
    if es.len() == 0 {
        seq![]
    } else {
        enc_name(es[0]) + enc_names(es.drop_first())
    }
}

/// The savefile bytes of a state.
#[verifier::opaque]
pub open spec fn encode(s: StateView) -> Seq<u8> {
    enc_u64(s.tag_content.len() as u64) + enc_sets(s.tag_content) + enc_u64(s.files.len() as u64)
        + enc_names(s.files) + enc_u64(s.tags.len() as u64) + enc_names(s.tags) + enc_u64(
        s.file_tally,
    )
}

// ---------------------------------------------------------------- decoding

/// The integer whose 8 bytes start at `pos`.
#[verifier::opaque]
pub open spec fn dec_u64(b: Seq<u8>, pos: int) -> Option<u64> {
    if 0 <= pos && pos + 8 <= b.len() {
        Some(
            (b[pos] as u64) | ((b[pos + 1] as u64) << 8u64) | ((b[pos + 2] as u64) << 16u64) | ((b[pos
                + 3] as u64) << 24u64) | ((b[pos + 4] as u64) << 32u64) | ((b[pos + 5] as u64)
                << 40u64) | ((b[pos + 6] as u64) << 48u64) | ((b[pos + 7] as u64) << 56u64),
        )
    } else {
        None
    }
}

/// `acc` put before the items that `rest` read.
pub open spec fn prepend<A>(acc: Seq<A>, rest: Option<(Seq<A>, int)>) -> Option<(Seq<A>, int)> {
    match rest {
        Some((xs, p)) => Some((acc + xs, p)),
        None => None,
    }
}

pub open spec fn dec_words(b: Seq<u8>, pos: int, n: nat) -> Option<(Seq<u64>, int)>
    decreases n,
{
    if n == 0 {
        Some((seq![], pos))
    } else {
        match dec_u64(b, pos) {
            Some(x) => prepend(seq![x], dec_words(b, pos + 8, (n - 1) as nat)),
            None => None,
        }
    }
}

pub open spec fn dec_set(b: Seq<u8>, pos: int) -> Option<((u64, Seq<u64>), int)> {
    match (dec_u64(b, pos), dec_u64(b, pos + 8)) {
        (Some(t), Some(n)) => match dec_words(b, pos + 16, n as nat) {
            Some((xs, p)) => Some(((t, xs), p)),
            None => None,
        },
        _ => None,
    }
}

pub open spec fn dec_sets(b: Seq<u8>, pos: int, n: nat) -> Option<(Seq<(u64, Seq<u64>)>, int)>
    decreases n,
{
    if n == 0 {
        Some((seq![], pos))
    } else {
        match dec_set(b, pos) {
            Some((e, p)) => prepend(seq![e], dec_sets(b, p, (n - 1) as nat)),
            None => None,
        }
    }
}

pub open spec fn dec_name(b: Seq<u8>, pos: int) -> Option<((u64, Seq<u8>), int)> {
    match (dec_u64(b, pos), dec_u64(b, pos + 8)) {
        (Some(k), Some(n)) => if pos + 16 + n <= b.len() {
            Some(((k, b.subrange(pos + 16, pos + 16 + n)), pos + 16 + n))
        } else {
            None
        },
        _ => None,
    }
}

pub open spec fn dec_names(b: Seq<u8>, pos: int, n: nat) -> Option<(Seq<(u64, Seq<u8>)>, int)>
    decreases n,
{
    if n == 0 {
        Some((seq![], pos))
    } else {
        match dec_name(b, pos) {
            Some((e, p)) => prepend(seq![e], dec_names(b, p, (n - 1) as nat)),
            None => None,
        }
    }
}

/// The state that savefile bytes hold, if they hold one with nothing after it.
#[verifier::opaque]
pub open spec fn decode(b: Seq<u8>) -> Option<StateView> {
    match dec_u64(b, 0) {
        None => None,
        Some(n1) => match dec_sets(b, 8, n1 as nat) {
            None => None,
            Some((sets, p1)) => match dec_u64(b, p1) {
                None => None,
                Some(n2) => match dec_names(b, p1 + 8, n2 as nat) {
                    None => None,
                    Some((files, p2)) => match dec_u64(b, p2) {
                        None => None,
                        Some(n3) => match dec_names(b, p2 + 8, n3 as nat) {
                            None => None,
                            Some((tags, p3)) => match dec_u64(b, p3) {
                                None => None,
                                Some(tally) => if p3 + 8 == b.len() {
                                    Some(
                                        StateView {
                                            tag_content: sets,
                                            files,
                                            tags,
                                            file_tally: tally,
                                        },
                                    )
                                } else {
                                    None
                                },
                            },
                        },
                    },
                },
            },
        },
    }
}

// ---------------------------------------------------------------- exec encoding

fn push_u64(out: &mut Vec<u8>, x: u64)
    ensures
        final(out)@ == old(out)@ + enc_u64(x),
{
    reveal(enc_u64);
    out.push((x & 0xffu64) as u8);
    out.push(((x >> 8u64) & 0xffu64) as u8);
    out.push(((x >> 16u64) & 0xffu64) as u8);
    out.push(((x >> 24u64) & 0xffu64) as u8);
    out.push(((x >> 32u64) & 0xffu64) as u8);
    out.push(((x >> 40u64) & 0xffu64) as u8);
    out.push(((x >> 48u64) & 0xffu64) as u8);
    out.push(((x >> 56u64) & 0xffu64) as u8);
    assert(final(out)@ =~= old(out)@ + enc_u64(x));
}

proof fn lemma_enc_words_push(xs: Seq<u64>, x: u64)
    ensures
        enc_words(xs.push(x)) == enc_words(xs) + enc_u64(x),
    decreases xs.len(),
{
    if xs.len() == 0 {
        assert(xs.push(x).drop_first() =~= seq![]);
        assert(enc_words(xs.push(x).drop_first()) =~= Seq::<u8>::empty());
        assert(enc_words(xs) =~= Seq::<u8>::empty());
        assert(enc_words(xs.push(x)) =~= enc_u64(x));
    } else {
        assert(xs.push(x).drop_first() =~= xs.drop_first().push(x));
        lemma_enc_words_push(xs.drop_first(), x);
        assert(enc_words(xs.push(x)) =~= enc_words(xs) + enc_u64(x));
    }
}

proof fn lemma_enc_sets_push(es: Seq<(u64, Seq<u64>)>, e: (u64, Seq<u64>))
    ensures
        enc_sets(es.push(e)) == enc_sets(es) + enc_set(e),
    decreases es.len(),
{
    if es.len() == 0 {
        assert(es.push(e).drop_first() =~= seq![]);
        assert(enc_sets(es.push(e).drop_first()) =~= Seq::<u8>::empty());
        assert(enc_sets(es) =~= Seq::<u8>::empty());
        assert(enc_sets(es.push(e)) =~= enc_set(e));
    } else {
        assert(es.push(e).drop_first() =~= es.drop_first().push(e));
        lemma_enc_sets_push(es.drop_first(), e);
        assert(enc_sets(es.push(e)) =~= enc_sets(es) + enc_set(e));
    }
}

proof fn lemma_enc_names_push(es: Seq<(u64, Seq<u8>)>, e: (u64, Seq<u8>))
    ensures
        enc_names(es.push(e)) == enc_names(es) + enc_name(e),
    decreases es.len(),
{
    if es.len() == 0 {
        assert(es.push(e).drop_first() =~= seq![]);
        assert(enc_names(es.push(e).drop_first()) =~= Seq::<u8>::empty());
        assert(enc_names(es) =~= Seq::<u8>::empty());
        assert(enc_names(es.push(e)) =~= enc_name(e));
    } else {
        assert(es.push(e).drop_first() =~= es.drop_first().push(e));
        lemma_enc_names_push(es.drop_first(), e);
        assert(enc_names(es.push(e)) =~= enc_names(es) + enc_name(e));
    }
}

fn push_sets(out: &mut Vec<u8>, es: &Vec<(u64, Vec<u64>)>)
    ensures
        final(out)@ == old(out)@ + enc_sets(sets_view(es@)),
{
    let ghost start = out@;
    let ghost v = sets_view(es@);
    let mut i: usize = 0;
    assert(v.take(0) =~= seq![]);
    while i < es.len()
        invariant
            v == sets_view(es@),
            i <= es@.len(),
            out@ == start + enc_sets(v.take(i as int)),
        decreases es@.len() - i,
    {
        let e = &es[i];
        let ghost before = out@;
        push_u64(out, e.0);
        push_u64(out, e.1.len() as u64);
        let mut j: usize = 0;
        assert(e.1@.take(0) =~= seq![]);
        while j < e.1.len()
            invariant
                j <= e.1@.len(),
                out@ == before + enc_u64(e.0) + enc_u64(e.1@.len() as u64) + enc_words(e.1@.take(j as int)),
            decreases e.1@.len() - j,
        {
            push_u64(out, e.1[j]);
            proof {
                assert(e.1@.take(j + 1) =~= e.1@.take(j as int).push(e.1@[j as int]));
                lemma_enc_words_push(e.1@.take(j as int), e.1@[j as int]);
                assert(out@ =~= before + enc_u64(e.0) + enc_u64(e.1@.len() as u64) + enc_words(e.1@.take(j + 1)));
            }
            j = j + 1;
        }
        proof {
            assert(e.1@.take(j as int) =~= e.1@);
            assert(v[i as int] == (e.0, e.1@));
            assert(v.take(i + 1) =~= v.take(i as int).push(v[i as int]));
            lemma_enc_sets_push(v.take(i as int), v[i as int]);
            assert(out@ =~= start + enc_sets(v.take(i + 1)));
        }
        i = i + 1;
    }
    assert(v.take(i as int) =~= v);
}

fn push_names(out: &mut Vec<u8>, es: &Vec<(u64, Vec<u8>)>)
    ensures
        final(out)@ == old(out)@ + enc_names(names_view(es@)),
{
    let ghost start = out@;
    let ghost v = names_view(es@);
    let mut i: usize = 0;
    assert(v.take(0) =~= seq![]);
    while i < es.len()
        invariant
            v == names_view(es@),
            i <= es@.len(),
            out@ == start + enc_names(v.take(i as int)),
        decreases es@.len() - i,
    {
        let e = &es[i];
        let ghost before = out@;
        push_u64(out, e.0);
        push_u64(out, e.1.len() as u64);
        out.extend_from_slice(e.1.as_slice());
        proof {
            assert(out@ =~= before + enc_name(v[i as int]));
            assert(v.take(i + 1) =~= v.take(i as int).push(v[i as int]));
            lemma_enc_names_push(v.take(i as int), v[i as int]);
            assert(out@ =~= start + enc_names(v.take(i + 1)));
        }
        i = i + 1;
    }
    assert(v.take(i as int) =~= v);
}

/// The savefile bytes of `s`.
pub fn encode_state(s: &PersistentState) -> (r: Vec<u8>)
    ensures
        r@ == encode(s@),
{
    reveal(encode);
    let mut out: Vec<u8> = Vec::new();
    push_u64(&mut out, s.tag_content.len() as u64);
    push_sets(&mut out, &s.tag_content);
    push_u64(&mut out, s.files.len() as u64);
    push_names(&mut out, &s.files);
    push_u64(&mut out, s.tags.len() as u64);
    push_names(&mut out, &s.tags);
    push_u64(&mut out, s.file_tally);
    assert(out@ =~= encode(s@));
    out
}

// ---------------------------------------------------------------- exec decoding

fn read_u64(b: &[u8], pos: usize) -> (r: Option<u64>)
    ensures
        r == dec_u64(b@, pos as int),
        r is Some <==> pos + 8 <= b@.len(),
        b@.len() <= usize::MAX,
{
    reveal(dec_u64);
    if pos <= b.len() && b.len() - pos >= 8 {
        Some(
            (b[pos] as u64) | ((b[pos + 1] as u64) << 8u64) | ((b[pos + 2] as u64) << 16u64) | ((b[pos
                + 3] as u64) << 24u64) | ((b[pos + 4] as u64) << 32u64) | ((b[pos + 5] as u64)
                << 40u64) | ((b[pos + 6] as u64) << 48u64) | ((b[pos + 7] as u64) << 56u64),
        )
    } else {
        None
    }
}

proof fn lemma_prepend_push<A>(acc: Seq<A>, x: A, rest: Option<(Seq<A>, int)>)
    ensures
        prepend(acc, prepend(seq![x], rest)) == prepend(acc.push(x), rest),
{
    if let Some((xs, p)) = rest {
        assert(acc + (seq![x] + xs) =~= acc.push(x) + xs);
    }
}

fn read_words(b: &[u8], pos: usize, n: u64) -> (r: Option<(Vec<u64>, usize)>)
    requires
        pos <= b@.len(),
    ensures
        r matches Some((_, p)) ==> p <= b@.len(),
        match r {
            Some((v, p)) => dec_words(b@, pos as int, n as nat) == Some((v@, p as int)),
            None => dec_words(b@, pos as int, n as nat) is None,
        },
{
    let mut acc: Vec<u64> = Vec::new();
    let mut cur = pos;
    let mut i: u64 = 0;
    assert(prepend(acc@, dec_words(b@, pos as int, n as nat)) == dec_words(b@, pos as int, n as nat)) by {
        if let Some((xs, p)) = dec_words(b@, pos as int, n as nat) {
            assert(acc@ + xs =~= xs);
        }
    }
    while i < n
        invariant
            i <= n,
            cur <= b@.len(),
            dec_words(b@, pos as int, n as nat) == prepend(acc@, dec_words(b@, cur as int, (n - i) as nat)),
        decreases n - i,
    {
        match read_u64(b, cur) {
            None => return None,
            Some(x) => {
                proof {
                    lemma_prepend_push(acc@, x, dec_words(b@, cur + 8, (n - i - 1) as nat));
                }
                acc.push(x);
                cur = cur + 8;
            },
        }
        i = i + 1;
    }
    assert(acc@ + seq![] =~= acc@);
    Some((acc, cur))
}

fn read_set(b: &[u8], pos: usize) -> (r: Option<((u64, Vec<u64>), usize)>)
    requires
        pos <= b@.len(),
    ensures
        r matches Some((_, p)) ==> p <= b@.len(),
        match r {
            Some((e, p)) => dec_set(b@, pos as int) == Some(((e.0, e.1@), p as int)),
            None => dec_set(b@, pos as int) is None,
        },
{
    let t = match read_u64(b, pos) {
        Some(t) => t,
        None => return None,
    };
    proof {
        reveal(dec_u64);
    }
    let n = match read_u64(b, pos + 8) {
        Some(n) => n,
        None => return None,
    };
    match read_words(b, pos + 16, n) {
        Some((xs, p)) => Some(((t, xs), p)),
        None => None,
    }
}

fn read_sets(b: &[u8], pos: usize, n: u64) -> (r: Option<(Vec<(u64, Vec<u64>)>, usize)>)
    requires
        pos <= b@.len(),
    ensures
        r matches Some((_, p)) ==> p <= b@.len(),
        match r {
            Some((v, p)) => dec_sets(b@, pos as int, n as nat) == Some((sets_view(v@), p as int)),
            None => dec_sets(b@, pos as int, n as nat) is None,
        },
{
    let mut acc: Vec<(u64, Vec<u64>)> = Vec::new();
    let mut cur = pos;
    let mut i: u64 = 0;
    assert(prepend(sets_view(acc@), dec_sets(b@, pos as int, n as nat)) == dec_sets(b@, pos as int, n as nat)) by {
        if let Some((xs, p)) = dec_sets(b@, pos as int, n as nat) {
            assert(sets_view(acc@) + xs =~= xs);
        }
    }
    while i < n
        invariant
            i <= n,
            cur <= b@.len(),
            dec_sets(b@, pos as int, n as nat) == prepend(sets_view(acc@), dec_sets(b@, cur as int, (n - i) as nat)),
        decreases n - i,
    {
        match read_set(b, cur) {
            None => return None,
            Some((e, p)) => {
                let ghost ev = (e.0, e.1@);
                proof {
                    lemma_prepend_push(sets_view(acc@), ev, dec_sets(b@, p as int, (n - i - 1) as nat));
                }
                let ghost before = acc@;
                acc.push(e);
                assert(sets_view(acc@) =~= sets_view(before).push(ev));
                cur = p;
            },
        }
        i = i + 1;
    }
    assert(sets_view(acc@) + seq![] =~= sets_view(acc@));
    Some((acc, cur))
}

fn read_name(b: &[u8], pos: usize) -> (r: Option<((u64, Vec<u8>), usize)>)
    requires
        pos <= b@.len(),
    ensures
        r matches Some((_, p)) ==> p <= b@.len(),
        match r {
            Some((e, p)) => dec_name(b@, pos as int) == Some(((e.0, e.1@), p as int)),
            None => dec_name(b@, pos as int) is None,
        },
{
    let k = match read_u64(b, pos) {
        Some(k) => k,
        None => return None,
    };
    proof {
        reveal(dec_u64);
    }
    let n = match read_u64(b, pos + 8) {
        Some(n) => n,
        None => return None,
    };
    proof {
        reveal(dec_u64);
    }
    let start = pos + 16;
    if n > (b.len() - start) as u64 {
        return None;
    }
    let end = start + n as usize;
    let name = slice_to_vec(slice_subrange(b, start, end));
    Some(((k, name), end))
}

fn read_names(b: &[u8], pos: usize, n: u64) -> (r: Option<(Vec<(u64, Vec<u8>)>, usize)>)
    requires
        pos <= b@.len(),
    ensures
        r matches Some((_, p)) ==> p <= b@.len(),
        match r {
            Some((v, p)) => dec_names(b@, pos as int, n as nat) == Some((names_view(v@), p as int)),
            None => dec_names(b@, pos as int, n as nat) is None,
        },
{
    let mut acc: Vec<(u64, Vec<u8>)> = Vec::new();
    let mut cur = pos;
    let mut i: u64 = 0;
    assert(prepend(names_view(acc@), dec_names(b@, pos as int, n as nat)) == dec_names(b@, pos as int, n as nat)) by {
        if let Some((xs, p)) = dec_names(b@, pos as int, n as nat) {
            assert(names_view(acc@) + xs =~= xs);
        }
    }
    while i < n
        invariant
            i <= n,
            cur <= b@.len(),
            dec_names(b@, pos as int, n as nat) == prepend(names_view(acc@), dec_names(b@, cur as int, (n - i) as nat)),
        decreases n - i,
    {
        match read_name(b, cur) {
            None => return None,
            Some((e, p)) => {
                let ghost ev = (e.0, e.1@);
                proof {
                    lemma_prepend_push(names_view(acc@), ev, dec_names(b@, p as int, (n - i - 1) as nat));
                }
                let ghost before = acc@;
                acc.push(e);
                assert(names_view(acc@) =~= names_view(before).push(ev));
                cur = p;
            },
        }
        i = i + 1;
    }
    assert(names_view(acc@) + seq![] =~= names_view(acc@));
    Some((acc, cur))
}

/// The state that savefile bytes hold; `None` where they are not the bytes
/// of a state.
pub fn decode_state(b: &[u8]) -> (r: Option<PersistentState>)
    ensures
        match r {
            Some(s) => decode(b@) == Some(s@),
            None => decode(b@) is None,
        },
{
    reveal(decode);
    let n1 = match read_u64(b, 0) {
        Some(n) => n,
        None => return None,
    };
    let (tag_content, p1) = match read_sets(b, 8, n1) {
        Some(x) => x,
        None => return None,
    };
    let n2 = match read_u64(b, p1) {
        Some(n) => n,
        None => return None,
    };
    proof {
        reveal(dec_u64);
    }
    let (files, p2) = match read_names(b, p1 + 8, n2) {
        Some(x) => x,
        None => return None,
    };
    let n3 = match read_u64(b, p2) {
        Some(n) => n,
        None => return None,
    };
    proof {
        reveal(dec_u64);
    }
    let (tags, p3) = match read_names(b, p2 + 8, n3) {
        Some(x) => x,
        None => return None,
    };
    let tally = match read_u64(b, p3) {
        Some(n) => n,
        None => return None,
    };
    proof {
        reveal(dec_u64);
    }
    if p3 + 8 != b.len() {
        return None;
    }
    let s = PersistentState { tag_content, files, tags, file_tally: tally };
    Some(s)
}

// ---------------------------------------------------------------- round trip

proof fn lemma_bytes_of_u64(x: u64)
    ensures
        (((x & 0xffu64) as u8) as u64) | ((((x >> 8u64) & 0xffu64) as u8 as u64) << 8u64) | ((((x
            >> 16u64) & 0xffu64) as u8 as u64) << 16u64) | ((((x >> 24u64) & 0xffu64) as u8 as u64)
            << 24u64) | ((((x >> 32u64) & 0xffu64) as u8 as u64) << 32u64) | ((((x >> 40u64)
            & 0xffu64) as u8 as u64) << 40u64) | ((((x >> 48u64) & 0xffu64) as u8 as u64) << 48u64)
            | ((((x >> 56u64) & 0xffu64) as u8 as u64) << 56u64) == x,
{
    assert((((x & 0xffu64) as u8) as u64) | ((((x >> 8u64) & 0xffu64) as u8 as u64) << 8u64) | ((((x
        >> 16u64) & 0xffu64) as u8 as u64) << 16u64) | ((((x >> 24u64) & 0xffu64) as u8 as u64)
        << 24u64) | ((((x >> 32u64) & 0xffu64) as u8 as u64) << 32u64) | ((((x >> 40u64) & 0xffu64)
        as u8 as u64) << 40u64) | ((((x >> 48u64) & 0xffu64) as u8 as u64) << 48u64) | ((((x
        >> 56u64) & 0xffu64) as u8 as u64) << 56u64) == x) by (bit_vector);
}

/// An integer is read back from its bytes, whatever surrounds them.
pub proof fn lemma_u64_round_trip(pre: Seq<u8>, x: u64, rest: Seq<u8>)
    ensures
        dec_u64(pre + enc_u64(x) + rest, pre.len() as int) == Some(x),
{
    reveal(dec_u64);
    reveal(enc_u64);
    let b = pre + enc_u64(x) + rest;
    let p = pre.len() as int;
    let e = enc_u64(x);
    assert forall|i: int| 0 <= i < 8 implies b[p + i] == e[i] by {
        assert((pre + e)[p + i] == e[i]);
    }
    lemma_bytes_of_u64(x);
}

pub proof fn lemma_enc_u64_len(x: u64)
    ensures
        enc_u64(x).len() == 8,
{
    reveal(enc_u64);
}

proof fn lemma_enc_words_len(xs: Seq<u64>)
    ensures
        enc_words(xs).len() == 8 * xs.len(),
    decreases xs.len(),
{
    if xs.len() > 0 {
        lemma_enc_u64_len(xs[0]);
        lemma_enc_words_len(xs.drop_first());
    }
}

proof fn lemma_words_round_trip(pre: Seq<u8>, xs: Seq<u64>, rest: Seq<u8>)
    ensures
        dec_words(pre + enc_words(xs) + rest, pre.len() as int, xs.len()) == Some(
            (xs, (pre.len() + 8 * xs.len()) as int),
        ),
    decreases xs.len(),
{
    let b = pre + enc_words(xs) + rest;
    if xs.len() > 0 {
        let x = xs[0];
        let tail = xs.drop_first();
        assert(b =~= pre + enc_u64(x) + (enc_words(tail) + rest));
        lemma_u64_round_trip(pre, x, enc_words(tail) + rest);
        lemma_enc_u64_len(x);
        let pre2 = pre + enc_u64(x);
        assert(b =~= pre2 + enc_words(tail) + rest);
        lemma_words_round_trip(pre2, tail, rest);
        assert(seq![x] + tail =~= xs);
    }
}

/// A set entry fits the format: its length is an integer of 8 bytes.
pub open spec fn set_fits(e: (u64, Seq<u64>)) -> bool {
    e.1.len() <= u64::MAX
}

/// A name entry fits the format: its length is an integer of 8 bytes.
pub open spec fn name_fits(e: (u64, Seq<u8>)) -> bool {
    e.1.len() <= u64::MAX
}

proof fn lemma_set_round_trip(pre: Seq<u8>, e: (u64, Seq<u64>), rest: Seq<u8>)
    requires
        set_fits(e),
    ensures
        dec_set(pre + enc_set(e) + rest, pre.len() as int) == Some(
            (e, (pre.len() + enc_set(e).len()) as int),
        ),
{
    let b = pre + enc_set(e) + rest;
    let n = e.1.len() as u64;
    lemma_enc_words_len(e.1);
    lemma_enc_u64_len(e.0);
    lemma_enc_u64_len(n);
    assert(b =~= pre + enc_u64(e.0) + (enc_u64(n) + enc_words(e.1) + rest));
    lemma_u64_round_trip(pre, e.0, enc_u64(n) + enc_words(e.1) + rest);
    let pre2 = pre + enc_u64(e.0);
    assert(b =~= pre2 + enc_u64(n) + (enc_words(e.1) + rest));
    lemma_u64_round_trip(pre2, n, enc_words(e.1) + rest);
    let pre3 = pre2 + enc_u64(n);
    assert(b =~= pre3 + enc_words(e.1) + rest);
    lemma_words_round_trip(pre3, e.1, rest);
}

proof fn lemma_sets_round_trip(pre: Seq<u8>, es: Seq<(u64, Seq<u64>)>, rest: Seq<u8>)
    requires
        forall|i: int| 0 <= i < es.len() ==> set_fits(#[trigger] es[i]),
    ensures
        dec_sets(pre + enc_sets(es) + rest, pre.len() as int, es.len()) == Some(
            (es, (pre.len() + enc_sets(es).len()) as int),
        ),
    decreases es.len(),
{
    let b = pre + enc_sets(es) + rest;
    if es.len() > 0 {
        let e = es[0];
        let tail = es.drop_first();
        assert(set_fits(es[0]));
        assert(b =~= pre + enc_set(e) + (enc_sets(tail) + rest));
        lemma_set_round_trip(pre, e, enc_sets(tail) + rest);
        let pre2 = pre + enc_set(e);
        assert(b =~= pre2 + enc_sets(tail) + rest);
        assert forall|i: int| 0 <= i < tail.len() implies set_fits(#[trigger] tail[i]) by {
            assert(tail[i] == es[i + 1]);
        }
        lemma_sets_round_trip(pre2, tail, rest);
        assert(seq![e] + tail =~= es);
    }
}

proof fn lemma_name_round_trip(pre: Seq<u8>, e: (u64, Seq<u8>), rest: Seq<u8>)
    requires
        name_fits(e),
    ensures
        dec_name(pre + enc_name(e) + rest, pre.len() as int) == Some(
            (e, (pre.len() + enc_name(e).len()) as int),
        ),
{
    let b = pre + enc_name(e) + rest;
    let n = e.1.len() as u64;
    lemma_enc_u64_len(e.0);
    lemma_enc_u64_len(n);
    assert(b =~= pre + enc_u64(e.0) + (enc_u64(n) + e.1 + rest));
    lemma_u64_round_trip(pre, e.0, enc_u64(n) + e.1 + rest);
    let pre2 = pre + enc_u64(e.0);
    assert(b =~= pre2 + enc_u64(n) + (e.1 + rest));
    lemma_u64_round_trip(pre2, n, e.1 + rest);
    let p = pre.len() + 16int;
    assert(b.subrange(p, p + n as int) =~= e.1);
}

proof fn lemma_names_round_trip(pre: Seq<u8>, es: Seq<(u64, Seq<u8>)>, rest: Seq<u8>)
    requires
        forall|i: int| 0 <= i < es.len() ==> name_fits(#[trigger] es[i]),
    ensures
        dec_names(pre + enc_names(es) + rest, pre.len() as int, es.len()) == Some(
            (es, (pre.len() + enc_names(es).len()) as int),
        ),
    decreases es.len(),
{
    let b = pre + enc_names(es) + rest;
    if es.len() > 0 {
        let e = es[0];
        let tail = es.drop_first();
        assert(name_fits(es[0]));
        assert(b =~= pre + enc_name(e) + (enc_names(tail) + rest));
        lemma_name_round_trip(pre, e, enc_names(tail) + rest);
        let pre2 = pre + enc_name(e);
        assert(b =~= pre2 + enc_names(tail) + rest);
        assert forall|i: int| 0 <= i < tail.len() implies name_fits(#[trigger] tail[i]) by {
            assert(tail[i] == es[i + 1]);
        }
        lemma_names_round_trip(pre2, tail, rest);
        assert(seq![e] + tail =~= es);
    }
}

/// Every length in the state is an integer of 8 bytes.
pub open spec fn state_fits(s: StateView) -> bool {
    &&& s.tag_content.len() <= u64::MAX
    &&& s.files.len() <= u64::MAX
    &&& s.tags.len() <= u64::MAX
    &&& forall|i: int| 0 <= i < s.tag_content.len() ==> set_fits(#[trigger] s.tag_content[i])
    &&& forall|i: int| 0 <= i < s.files.len() ==> name_fits(#[trigger] s.files[i])
    &&& forall|i: int| 0 <= i < s.tags.len() ==> name_fits(#[trigger] s.tags[i])
}

/// Decoding the savefile bytes of a state gives that state back.
pub proof fn lemma_decode_encode(s: StateView)
    requires
        state_fits(s),
    ensures
        decode(encode(s)) == Some(s),
{
    reveal(encode);
    let b = encode(s);
    let (n1, n2, n3) = (s.tag_content.len() as u64, s.files.len() as u64, s.tags.len() as u64);
    let a = enc_u64(n1);
    let c = enc_sets(s.tag_content);
    let d = enc_u64(n2);
    let f = enc_names(s.files);
    let g = enc_u64(n3);
    let h = enc_names(s.tags);
    let t = enc_u64(s.file_tally);
    let p1 = (a + c).len() as int;
    let p2 = (a + c + d + f).len() as int;
    let p3 = (a + c + d + f + g + h).len() as int;
    lemma_regroup(a, c, d, f, g, h, t);
    lemma_enc_u64_len(n1);
    lemma_enc_u64_len(n2);
    lemma_enc_u64_len(n3);
    lemma_enc_u64_len(s.file_tally);
    lemma_u64_round_trip(seq![], n1, c + d + f + g + h + t);
    lemma_sets_round_trip(a, s.tag_content, d + f + g + h + t);
    lemma_u64_round_trip(a + c, n2, f + g + h + t);
    lemma_names_round_trip(a + c + d, s.files, g + h + t);
    lemma_u64_round_trip(a + c + d + f, n3, h + t);
    lemma_names_round_trip(a + c + d + f + g, s.tags, t);
    lemma_u64_round_trip(a + c + d + f + g + h, s.file_tally, seq![]);
    lemma_decode_steps(b, s, p1, p2, p3);
}

proof fn lemma_regroup(
    a: Seq<u8>,
    c: Seq<u8>,
    d: Seq<u8>,
    f: Seq<u8>,
    g: Seq<u8>,
    h: Seq<u8>,
    t: Seq<u8>,
)
    ensures
        a + c + d + f + g + h + t == seq![] + a + (c + d + f + g + h + t),
        a + c + d + f + g + h + t == a + c + (d + f + g + h + t),
        a + c + d + f + g + h + t == (a + c) + d + (f + g + h + t),
        a + c + d + f + g + h + t == (a + c + d) + f + (g + h + t),
        a + c + d + f + g + h + t == (a + c + d + f) + g + (h + t),
        a + c + d + f + g + h + t == (a + c + d + f + g) + h + t,
        a + c + d + f + g + h + t == (a + c + d + f + g + h) + t + seq![],
{
    let b = a + c + d + f + g + h + t;
    assert(b =~= seq![] + a + (c + d + f + g + h + t));
    assert(b =~= a + c + (d + f + g + h + t));
    assert(b =~= (a + c) + d + (f + g + h + t));
    assert(b =~= (a + c + d) + f + (g + h + t));
    assert(b =~= (a + c + d + f) + g + (h + t));
    assert(b =~= (a + c + d + f + g + h) + t + seq![]);
}

proof fn lemma_decode_steps(b: Seq<u8>, s: StateView, p1: int, p2: int, p3: int)
    requires
        dec_u64(b, 0) == Some(s.tag_content.len() as u64),
        dec_sets(b, 8, (s.tag_content.len() as u64) as nat) == Some((s.tag_content, p1)),
        dec_u64(b, p1) == Some(s.files.len() as u64),
        dec_names(b, p1 + 8, (s.files.len() as u64) as nat) == Some((s.files, p2)),
        dec_u64(b, p2) == Some(s.tags.len() as u64),
        dec_names(b, p2 + 8, (s.tags.len() as u64) as nat) == Some((s.tags, p3)),
        dec_u64(b, p3) == Some(s.file_tally),
        p3 + 8 == b.len(),
    ensures
        decode(b) == Some(s),
{
    reveal(decode);
}

} // verus!
