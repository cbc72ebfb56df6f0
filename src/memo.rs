//! A rewriter wrapped with a cache of its results, keyed by a digest of the
//! term's structure with structural equality deciding within a digest.
use crate::rewriter::{opt_view, Rewriter};
use crate::term::{views, Term, TermView};
use crate::term_facts::{lemma_views_index, lemma_views_len};
use std::collections::HashMap;
use vstd::prelude::*;

verus! {

broadcast use {lemma_views_len, lemma_views_index, vstd::std_specs::hash::group_hash_axioms};

/// The little-endian bytes of `v`.
pub open spec fn le_bytes(v: u64) -> Seq<u8> {
    Seq::new(8, |i: int| ((v >> ((8 * i) as u64)) & 0xff) as u8)
}

/// The bytes that stand for a term: a tag, the symbol or operator, and for
/// a tree the number of children followed by their encodings.
pub open spec fn encoding(t: TermView) -> Seq<u8>
    decreases t,
{
    match t {
        TermView::Leaf(s) => seq![0u8] + le_bytes(s),
        TermView::Tree(op, cs) => seq![1u8] + le_bytes(op) + le_bytes(cs.len() as u64)
            + encoding_all(cs),
    }
}

/// The encodings of `cs`, one after the other.
pub open spec fn encoding_all(cs: Seq<TermView>) -> Seq<u8>
    decreases cs,
{
    if cs.len() == 0 {
        seq![]
    } else {
        encoding_all(cs.drop_last()) + encoding(cs.last())
    }
}

/// The SeaHash digest of a byte string.
pub uninterp spec fn sea_hash_of(b: Seq<u8>) -> u64;

/// Relies on seahash::hash: a digest computed from the bytes alone, with
/// fixed seeds.
#[verifier::external_body]
fn sea_hash(b: &Vec<u8>) -> (r: u64)
    ensures
        r == sea_hash_of(b@),
{
    seahash::hash(b.as_slice())
}

/// The cache key of a term.
pub open spec fn hash_key(t: TermView) -> u64 {
    sea_hash_of(encoding(t))
}

fn push_le(v: u64, out: &mut Vec<u8>)
    ensures
        final(out)@ == old(out)@ + le_bytes(v),
{
    let ghost start = out@;
    let mut k: u64 = 0;
    while k < 8
        invariant
            k <= 8,
            out@.len() == start.len() + k,
            out@.subrange(0, start.len() as int) == start,
            forall|j: int| 0 <= j < k ==> out@[start.len() + j] == le_bytes(v)[j],
        decreases 8 - k,
    {
        out.push(((v >> (8 * k)) & 0xff) as u8);
        k += 1;
    }
    assert(out@ =~= start + le_bytes(v));
}

/// Appends the encoding of `t` to `out`.
pub fn encode(t: &Term, out: &mut Vec<u8>)
    ensures
        final(out)@ == old(out)@ + encoding(t@),
    decreases t,
{
    match t {
        Term::Leaf(a) => {
            out.push(0u8);
            push_le(a.sym, out);
            assert(out@ =~= old(out)@ + encoding(t@));
        },
        Term::Tree(n) => {
            let ghost start = out@;
            let ghost cs = views(n.args@);
            out.push(1u8);
            push_le(n.op, out);
            push_le(n.args.len() as u64, out);
            let ghost head = out@;
            assert(head =~= start + (seq![1u8] + le_bytes(n.op) + le_bytes(cs.len() as u64)));
            let mut i: usize = 0;
            assert(cs.take(0) =~= Seq::<TermView>::empty());
            assert(head =~= head + encoding_all(cs.take(0)));
            while i < n.args.len()
                invariant
                    *t == Term::Tree(*n),
                    decreases_to!(*t => n.args),
                    cs == views(n.args@),
                    i <= n.args.len(),
                    out@ == head + encoding_all(cs.take(i as int)),
                decreases n.args.len() - i,
            {
                proof {
                    assert(decreases_to!(n.args => n.args[i as int]));
                }
                encode(&n.args[i], out);
                assert(cs.take(i + 1).drop_last() =~= cs.take(i as int));
                assert(out@ =~= head + encoding_all(cs.take(i + 1)));
                i += 1;
            }
            assert(cs.take(n.args.len() as int) =~= cs);
            assert(out@ =~= old(out)@ + encoding(t@));
        },
    }
}

/// The cache key of a term, computed.
pub fn term_hash(t: &Term) -> (r: u64)
    ensures
        r == hash_key(t@),
{
    let mut bytes: Vec<u8> = Vec::new();
    encode(t, &mut bytes);
    assert(bytes@ =~= encoding(t@));
    sea_hash(&bytes)
}

fn copy_result(o: &Option<Term>) -> (r: Option<Term>)
    ensures
        r == *o,
{
    match o {
        Some(t) => Some(t.clone()),
        None => None,
    }
}

/// A rewriter together with a cache of the results it gave.
pub struct Memo<'a, R: Rewriter> {
    rw: &'a R,
    cache: HashMap<u64, Vec<(Term, Option<Term>)>>,
}

impl<'a, R: Rewriter> Memo<'a, R> {
    pub closed spec fn inner(&self) -> &'a R {
        self.rw
    }

    /// Each cached entry sits under its term's key and holds what the
    /// wrapped rewriter gives on that term.
    pub closed spec fn wf(&self) -> bool {
        forall|h: u64, j: int|
            #![trigger self.cache@[h][j]]
            self.cache@.contains_key(h) && 0 <= j < self.cache@[h].len() ==> {
                &&& hash_key(self.cache@[h][j].0@) == h
                &&& opt_view(self.cache@[h][j].1) == self.rw.spec_rewrite(self.cache@[h][j].0@)
            }
    }

    /// A result for `x` is in the cache.
    pub closed spec fn cached(&self, x: TermView) -> bool {
        &&& self.cache@.contains_key(hash_key(x))
        &&& exists|j: int|
            0 <= j < self.cache@[hash_key(x)].len() && (#[trigger] self.cache@[hash_key(x)][j]).0@
                == x
    }

    /// The cache, as a map from keys to entries.
    pub closed spec fn entries(&self) -> Map<u64, Seq<(Term, Option<Term>)>> {
        self.cache@.map_values(|b: Vec<(Term, Option<Term>)>| b@)
    }

    pub fn from(rw: &'a R) -> (r: Self)
        ensures
            r.inner() == rw,
            r.wf(),
            forall|x: TermView| !r.cached(x),
    {
        Memo { rw, cache: HashMap::new() }
    }

    /// The wrapped rewriter's result on `x`, taken from the cache where it
    /// is there; otherwise computed once and kept.
    pub fn rewrite(&mut self, x: &Term) -> (r: Option<Term>)
        requires
            old(self).wf(),
            old(self).cached(x@) || old(self).inner().halts(x@),
        ensures
            final(self).wf(),
            final(self).inner() == old(self).inner(),
            opt_view(r) == old(self).inner().spec_rewrite(x@),
            final(self).cached(x@),
            forall|y: TermView| old(self).cached(y) ==> final(self).cached(y),
            old(self).cached(x@) ==> final(self).entries() == old(self).entries(),
    {
        let h = term_hash(x);
        match self.cache.get(&h) {
            Some(bucket) => {
                let mut j: usize = 0;
                while j < bucket.len()
                    invariant
                        self.wf(),
                        self.rw == old(self).rw,
                        self.cache@ == old(self).cache@,
                        h == hash_key(x@),
                        self.cache@.contains_key(h),
                        *bucket == self.cache@[h],
                        j <= bucket.len(),
                        forall|k: int| 0 <= k < j ==> (#[trigger] bucket@[k]).0@ != x@,
                    decreases bucket.len() - j,
                {
                    if bucket[j].0.same(x) {
                        assert(self.cache@[h][j as int] == bucket@[j as int]);
                        assert(opt_view(self.cache@[h][j as int].1) == self.rw.spec_rewrite(
                            self.cache@[h][j as int].0@,
                        ));
                        return copy_result(&bucket[j].1);
                    }
                    j += 1;
                }
            },
            None => {},
        }
        assert(!old(self).cached(x@));
        let r = self.rw.rewrite(x);
        let mut bucket = match self.cache.remove(&h) {
            Some(b) => b,
            None => Vec::new(),
        };
        let ghost old_bucket = bucket@;
        bucket.push((x.clone(), copy_result(&r)));
        self.cache.insert(h, bucket);
        assert(self.cache@[h][old_bucket.len() as int].0@ == x@);
        proof {
            assert forall|y: TermView| old(self).cached(y) implies self.cached(y) by {
                let j = choose|j: int|
                    0 <= j < old(self).cache@[hash_key(y)].len() && (#[trigger] old(
                        self,
                    ).cache@[hash_key(y)][j]).0@ == y;
                if hash_key(y) == h {
                    assert(self.cache@[h][j] == old(self).cache@[h][j]);
                } else {
                    assert(self.cache@[hash_key(y)] == old(self).cache@[hash_key(y)]);
                }
            }
        }
        r
    }
}

} // verus!
