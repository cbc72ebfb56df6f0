//! What holds of the strategies for every rule and every term.
use crate::rewriter::{
    all_defined, all_none, chain_run, defined_values, fix_fuel, lemma_post_walk_all,
    lemma_pre_step_all, lemma_pre_walk_all, post_walk, post_walk_all, post_walk_halts, pre_step,
    pre_step_fuel, pre_walk, pre_walk_all, pre_walk_fuel, settle, Chain, FixPoint, PostWalk,
    PreStep, PreWalk, Rewriter,
};
use crate::term::TermView;
use vstd::prelude::*;

verus! {

/// Totalizing always gives a term: the rule's result where it applies,
/// and the input itself where it does not.
pub proof fn lemma_default_total<'a, R: Rewriter>(d: crate::rewriter::Default<'a, R>, x: TermView)
    ensures
        d.spec_rewrite(x) is Some,
        d.inner().spec_rewrite(x) is None ==> d.spec_rewrite(x) == Some(x),
        d.inner().spec_rewrite(x) is Some ==> d.spec_rewrite(x) == d.inner().spec_rewrite(x),
{
}

/// The rule returns on every node of `x` and applies to none of them.
pub open spec fn no_match_in<R: Rewriter>(rw: R, x: TermView) -> bool
    decreases x,
{
    &&& rw.halts(x)
    &&& rw.spec_rewrite(x) is None
    &&& match x {
        TermView::Leaf(_) => true,
        TermView::Tree(_, cs) => no_match_all(rw, cs),
    }
}

/// The rule applies nowhere in any of `cs`.
pub open spec fn no_match_all<R: Rewriter>(rw: R, cs: Seq<TermView>) -> bool
    decreases cs,
{
    cs.len() == 0 || (no_match_all(rw, cs.drop_last()) && no_match_in(rw, cs.last()))
}

proof fn lemma_no_match_all<R: Rewriter>(rw: R, cs: Seq<TermView>, i: int)
    requires
        no_match_all(rw, cs),
        0 <= i < cs.len(),
    ensures
        no_match_in(rw, cs[i]),
    decreases cs.len(),
{
    if i < cs.len() - 1 {
        lemma_no_match_all(rw, cs.drop_last(), i);
        assert(cs.drop_last()[i] == cs[i]);
    }
}

/// The number of levels below the root of `x`.
pub open spec fn depth(x: TermView) -> nat
    decreases x,
{
    match x {
        TermView::Leaf(_) => 0,
        TermView::Tree(_, cs) => 1 + depth_all(cs),
    }
}

/// The greatest depth among `cs`.
pub open spec fn depth_all(cs: Seq<TermView>) -> nat
    decreases cs,
{
    if cs.len() == 0 {
        0
    } else {
        let a = depth_all(cs.drop_last());
        let b = depth(cs.last());
        if a < b {
            b
        } else {
            a
        }
    }
}

proof fn lemma_depth_all(cs: Seq<TermView>, i: int)
    requires
        0 <= i < cs.len(),
    ensures
        depth(cs[i]) <= depth_all(cs),
    decreases cs.len(),
{
    if i < cs.len() - 1 {
        lemma_depth_all(cs.drop_last(), i);
        assert(cs.drop_last()[i] == cs[i]);
    }
}

proof fn lemma_pre_walk_quiet<R: Rewriter>(rw: R, x: TermView, f: nat)
    requires
        no_match_in(rw, x),
    ensures
        pre_walk(rw, x, f) is Some ==> pre_walk(rw, x, f) == Some(None::<TermView>),
        f > depth(x) ==> pre_walk(rw, x, f) is Some,
    decreases x,
{
    if f > 0 {
        match x {
            TermView::Leaf(_) => {},
            TermView::Tree(op, cs) => {
                let g = (f - 1) as nat;
                let rs = pre_walk_all(rw, cs, g);
                lemma_pre_walk_all(rw, cs, g);
                assert forall|i: int| 0 <= i < cs.len() implies {
                    &&& rs[i] is Some ==> rs[i] == Some(None::<TermView>)
                    &&& f > depth(x) ==> rs[i] is Some
                } by {
                    lemma_no_match_all(rw, cs, i);
                    lemma_pre_walk_quiet(rw, cs[i], g);
                    lemma_depth_all(cs, i);
                }
                if all_defined(rs) {
                    assert(all_none(defined_values(rs)));
                }
            },
        }
    }
}

proof fn lemma_post_walk_quiet<R: Rewriter>(rw: R, x: TermView)
    requires
        no_match_in(rw, x),
    ensures
        post_walk_halts(rw, x),
        post_walk(rw, x) is None,
    decreases x,
{
    match x {
        TermView::Leaf(_) => {},
        TermView::Tree(op, cs) => {
            lemma_post_walk_all(rw, cs);
            assert forall|i: int| 0 <= i < cs.len() implies post_walk_halts(rw, cs[i])
                && post_walk(rw, cs[i]) is None by {
                lemma_no_match_all(rw, cs, i);
                lemma_post_walk_quiet(rw, cs[i]);
            }
            assert(all_none(post_walk_all(rw, cs)));
        },
    }
}

/// Where the rule applies nowhere in `x`, the walks and the step all
/// report no match, and return.
pub proof fn lemma_no_op_transparency<'a, R: Rewriter>(
    rw: &'a R,
    pw: PreWalk<'a, R>,
    po: PostWalk<'a, R>,
    ps: PreStep<'a, R>,
    x: TermView,
)
    requires
        pw.inner() == rw,
        po.inner() == rw,
        ps.inner() == rw,
        no_match_in(*rw, x),
    ensures
        pw.halts(x) && pw.spec_rewrite(x) is None,
        po.halts(x) && po.spec_rewrite(x) is None,
        ps.halts(x) && ps.spec_rewrite(x) is None,
{
    lemma_pre_walk_quiet(*rw, x, depth(x) + 1);
    let f = pre_walk_fuel(*rw, x);
    lemma_pre_walk_quiet(*rw, x, f);
    lemma_post_walk_quiet(*rw, x);
    assert(pre_step(*rw, x, 1) is Some);
    let g = pre_step_fuel(*rw, x);
    assert(pre_step(*rw, x, g) is Some);
}

proof fn lemma_chain_prefix<R: Rewriter>(rws: Seq<R>, x: TermView, j: int, y: TermView, k: int)
    requires
        0 <= j < rws.len(),
        0 <= k <= rws.len(),
        forall|i: int| 0 <= i < j ==> (#[trigger] rws[i]).spec_rewrite(x) is None,
        rws[j].spec_rewrite(x) == Some(y),
        forall|i: int| j < i < rws.len() ==> (#[trigger] rws[i]).spec_rewrite(y) is None,
    ensures
        k <= j ==> chain_run(rws.take(k), x) == (x, false),
        k > j ==> chain_run(rws.take(k), x) == (y, true),
    decreases k,
{
    if k > 0 {
        lemma_chain_prefix(rws, x, j, y, k - 1);
        assert(rws.take(k).drop_last() =~= rws.take(k - 1));
    }
}

proof fn lemma_chain_quiet<R: Rewriter>(rws: Seq<R>, x: TermView, k: int)
    requires
        0 <= k <= rws.len(),
        forall|i: int| 0 <= i < rws.len() ==> (#[trigger] rws[i]).spec_rewrite(x) is None,
    ensures
        chain_run(rws.take(k), x) == (x, false),
    decreases k,
{
    if k > 0 {
        lemma_chain_quiet(rws, x, k - 1);
        assert(rws.take(k).drop_last() =~= rws.take(k - 1));
    }
}

/// A chain in which exactly one stage applies gives that stage's result.
pub proof fn lemma_chain_single_match<R: Rewriter>(c: Chain<R>, x: TermView, j: int, y: TermView)
    requires
        0 <= j < c.stages().len(),
        forall|i: int| 0 <= i < j ==> (#[trigger] c.stages()[i]).spec_rewrite(x) is None,
        c.stages()[j].spec_rewrite(x) == Some(y),
        forall|i: int|
            j < i < c.stages().len() ==> (#[trigger] c.stages()[i]).spec_rewrite(y) is None,
    ensures
        c.spec_rewrite(x) == Some(y),
{
    let rws = c.stages();
    lemma_chain_prefix(rws, x, j, y, rws.len() as int);
    assert(rws.take(rws.len() as int) =~= rws);
}

/// A chain in which no stage applies reports no match.
pub proof fn lemma_chain_no_match<R: Rewriter>(c: Chain<R>, x: TermView)
    requires
        forall|i: int|
            0 <= i < c.stages().len() ==> (#[trigger] c.stages()[i]).spec_rewrite(x) is None,
    ensures
        c.spec_rewrite(x) is None,
{
    let rws = c.stages();
    lemma_chain_quiet(rws, x, rws.len() as int);
    assert(rws.take(rws.len() as int) =~= rws);
}

/// Where one step of the rule already reaches a fixpoint, iterating it
/// returns and gives that one step's result.
pub proof fn lemma_fix_point_one_step<'a, R: Rewriter>(fp: FixPoint<'a, R>, x: TermView, y: TermView)
    requires
        fp.inner().halts(x),
        fp.inner().spec_rewrite(x) == Some(y),
        fp.inner().halts(y),
        fp.inner().spec_rewrite(y) == Some(y),
    ensures
        fp.halts(x),
        fp.spec_rewrite(x) == Some(y),
{
    let rw = *fp.inner();
    if y != x {
        assert(settle(rw, y, Some(y), 0) == Some(y));
    }
    assert(settle(rw, x, Some(y), 1) is Some);
    let f = fix_fuel(rw, x);
    assert(settle(rw, x, Some(y), f) is Some);
    if y != x {
        assert(settle(rw, y, Some(y), (f - 1) as nat) == Some(y));
    }
}

} // verus!
