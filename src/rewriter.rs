//! Rewriters and the strategies that compose them.
use crate::term::{views, Term, TermView, Tree};
use crate::term_facts::{lemma_views_index, lemma_views_len};
use vstd::prelude::*;

verus! {

broadcast use {lemma_views_len, lemma_views_index};

/// The view of an optional term.
pub open spec fn opt_view(o: Option<Term>) -> Option<TermView> {
    match o {
        Some(t) => Some(t@),
        None => None,
    }
}

/// A partial rewrite: `None` when the rule does not apply to the term,
/// `Some(t)` when the term rewrites to `t`. A rewriter is a function of the
/// term's structure: structurally equal inputs give structurally equal
/// results.
pub trait Rewriter {
    /// The terms on which `rewrite` returns.
    spec fn halts(&self, x: TermView) -> bool;

    /// What `rewrite` gives on a term.
    spec fn spec_rewrite(&self, x: TermView) -> Option<TermView>;

    fn rewrite(&self, x: &Term) -> (r: Option<Term>)
        requires
            self.halts(x@),
        ensures
            opt_view(r) == self.spec_rewrite(x@),
    ;
}

/// Totalizes a rewriter: a term that the rule leaves alone is returned as is.
pub struct Default<'a, R: Rewriter> {
    rw: &'a R,
}

impl<'a, R: Rewriter> Default<'a, R> {
    pub fn from(rw: &'a R) -> (r: Self)
        ensures
            r.inner() == rw,
    {
        Default { rw }
    }

    pub closed spec fn inner(&self) -> &'a R {
        self.rw
    }
}

/// The totalized result: the rule's result, or the term itself.
pub open spec fn or_self(r: Option<TermView>, x: TermView) -> TermView {
    match r {
        Some(y) => y,
        None => x,
    }
}

impl<'a, R: Rewriter> Rewriter for Default<'a, R> {
    open spec fn halts(&self, x: TermView) -> bool {
        self.inner().halts(x)
    }

    open spec fn spec_rewrite(&self, x: TermView) -> Option<TermView> {
        Some(or_self(self.inner().spec_rewrite(x), x))
    }

    fn rewrite(&self, x: &Term) -> (r: Option<Term>) {
        match self.rw.rewrite(x) {
            Some(y) => Some(y),
            None => Some(x.clone()),
        }
    }
}

/// The views of a sequence of optional terms, position by position.
pub open spec fn opt_views(s: Seq<Option<Term>>) -> Seq<Option<TermView>> {
    s.map_values(|o: Option<Term>| opt_view(o))
}

/// No position of `rs` holds a rewrite.
pub open spec fn all_none(rs: Seq<Option<TermView>>) -> bool {
    forall|i: int| 0 <= i < rs.len() ==> rs[i] is None
}

/// Each child replaced by its rewrite, where it has one.
pub open spec fn merge(rs: Seq<Option<TermView>>, cs: Seq<TermView>) -> Seq<TermView> {
    Seq::new(cs.len(), |i: int| or_self(rs[i], cs[i]))
}

/// Every position of `rs` is defined.
pub open spec fn all_defined(rs: Seq<Option<Option<TermView>>>) -> bool {
    forall|i: int| 0 <= i < rs.len() ==> rs[i] is Some
}

/// The defined values of `rs`.
pub open spec fn defined_values(rs: Seq<Option<Option<TermView>>>) -> Seq<Option<TermView>> {
    rs.map_values(|o: Option<Option<TermView>>|
        match o {
            Some(v) => v,
            None => None,
        })
}

/// Whether no rewrite was found among the results.
fn none_all(rs: &Vec<Option<Term>>) -> (r: bool)
    ensures
        r == all_none(opt_views(rs@)),
{
    let mut i: usize = 0;
    while i < rs.len()
        invariant
            i <= rs.len(),
            forall|j: int| 0 <= j < i ==> rs@[j] is None,
        decreases rs.len() - i,
    {
        if rs[i].is_some() {
            assert(opt_views(rs@)[i as int] is Some);
            return false;
        }
        i += 1;
    }
    true
}

/// The children, each replaced by its rewrite where it has one.
fn merge_args(rs: &Vec<Option<Term>>, cs: &Vec<Term>) -> (r: Vec<Term>)
    requires
        rs.len() == cs.len(),
    ensures
        r.len() == cs.len(),
        views(r@) == merge(opt_views(rs@), views(cs@)),
{
    let mut out: Vec<Term> = Vec::new();
    let mut i: usize = 0;
    while i < cs.len()
        invariant
            rs.len() == cs.len(),
            i <= cs.len(),
            out.len() == i,
            forall|j: int|
                0 <= j < i ==> (#[trigger] out@[j])@ == or_self(opt_view(rs@[j]), cs@[j]@),
        decreases cs.len() - i,
    {
        match &rs[i] {
            Some(t) => out.push(t.clone()),
            None => out.push(cs[i].clone()),
        }
        i += 1;
    }
    assert(views(out@) =~= merge(opt_views(rs@), views(cs@)));
    out
}

/// Bottom-up rewriting: children first; the rule is tried at a node only
/// when none of its children changed.
pub struct PostWalk<'a, R: Rewriter> {
    rw: &'a R,
}

/// What a post-order walk gives on `x`.
pub open spec fn post_walk<R: Rewriter>(rw: R, x: TermView) -> Option<TermView>
    decreases x,
{
    match x {
        TermView::Leaf(_) => rw.spec_rewrite(x),
        TermView::Tree(op, cs) => {
            let rs = post_walk_all(rw, cs);
            if all_none(rs) {
                rw.spec_rewrite(x)
            } else {
                Some(TermView::Tree(op, merge(rs, cs)))
            }
        },
    }
}

/// The post-order walk of each of `cs`.
pub open spec fn post_walk_all<R: Rewriter>(rw: R, cs: Seq<TermView>) -> Seq<Option<TermView>>
    decreases cs,
{
    if cs.len() == 0 {
        seq![]
    } else {
        post_walk_all(rw, cs.drop_last()).push(post_walk(rw, cs.last()))
    }
}

/// The rule returns at every node where a post-order walk of `x` applies it.
pub open spec fn post_walk_halts<R: Rewriter>(rw: R, x: TermView) -> bool
    decreases x,
{
    match x {
        TermView::Leaf(_) => rw.halts(x),
        TermView::Tree(_, cs) => post_walk_halts_all(rw, cs) && (all_none(post_walk_all(rw, cs))
            ==> rw.halts(x)),
    }
}

pub open spec fn post_walk_halts_all<R: Rewriter>(rw: R, cs: Seq<TermView>) -> bool
    decreases cs,
{
    if cs.len() == 0 {
        true
    } else {
        post_walk_halts_all(rw, cs.drop_last()) && post_walk_halts(rw, cs.last())
    }
}

pub proof fn lemma_post_walk_all<R: Rewriter>(rw: R, cs: Seq<TermView>)
    ensures
        post_walk_all(rw, cs).len() == cs.len(),
        forall|i: int|
            0 <= i < cs.len() ==> #[trigger] post_walk_all(rw, cs)[i] == post_walk(rw, cs[i]),
        post_walk_halts_all(rw, cs) <==> forall|i: int|
            0 <= i < cs.len() ==> #[trigger] post_walk_halts(rw, cs[i]),
    decreases cs.len(),
{
    if cs.len() > 0 {
        let d = cs.drop_last();
        lemma_post_walk_all(rw, d);
        if post_walk_halts_all(rw, cs) {
            assert forall|i: int| 0 <= i < cs.len() implies #[trigger] post_walk_halts(
                rw,
                cs[i],
            ) by {
                if i < cs.len() - 1 {
                    assert(cs[i] == d[i]);
                }
            }
        }
        if forall|i: int| 0 <= i < cs.len() ==> #[trigger] post_walk_halts(rw, cs[i]) {
            assert forall|i: int| 0 <= i < d.len() implies #[trigger] post_walk_halts(rw, d[i]) by {
                assert(cs[i] == d[i]);
            }
            assert(post_walk_halts(rw, cs[cs.len() - 1]));
        }
    }
}

impl<'a, R: Rewriter> PostWalk<'a, R> {
    pub fn from(rw: &'a R) -> (r: Self)
        ensures
            r.inner() == rw,
    {
        PostWalk { rw }
    }

    pub closed spec fn inner(&self) -> &'a R {
        self.rw
    }

    fn walk(&self, x: &Term) -> (r: Option<Term>)
        requires
            post_walk_halts(*self.rw, x@),
        ensures
            opt_view(r) == post_walk(*self.rw, x@),
        decreases x,
    {
        match x {
            Term::Leaf(_) => self.rw.rewrite(x),
            Term::Tree(n) => {
                let ghost cs = views(n.args@);
                proof {
                    lemma_post_walk_all(*self.rw, cs);
                }
                let mut rs: Vec<Option<Term>> = Vec::new();
                let mut i: usize = 0;
                while i < n.args.len()
                    invariant
                        *x == Term::Tree(*n),
                        decreases_to!(*x => n.args),
                        cs == views(n.args@),
                        x@ == TermView::Tree(n.op, cs),
                        post_walk_halts(*self.rw, x@),
                        post_walk_all(*self.rw, cs).len() == cs.len(),
                        forall|j: int|
                            0 <= j < cs.len() ==> #[trigger] post_walk_all(*self.rw, cs)[j]
                                == post_walk(*self.rw, cs[j]),
                        forall|j: int|
                            0 <= j < cs.len() ==> #[trigger] post_walk_halts(*self.rw, cs[j]),
                        i <= n.args.len(),
                        opt_views(rs@) == post_walk_all(*self.rw, cs).take(i as int),
                    decreases n.args.len() - i,
                {
                    proof {
                        assert(decreases_to!(n.args => n.args[i as int]));
                    }
                    assert(n.args@[i as int]@ == cs[i as int]);
                    assert(post_walk_halts(*self.rw, cs[i as int]));
                    let r = self.walk(&n.args[i]);
                    let ghost before = rs@;
                    rs.push(r);
                    assert(post_walk_all(*self.rw, cs)[i as int] == opt_view(r));
                    assert(rs@ == before.push(r));
                    assert(opt_views(rs@) =~= opt_views(before).push(opt_view(r)));
                    assert(opt_views(rs@) =~= post_walk_all(*self.rw, cs).take(i + 1));
                    i += 1;
                }
                assert(opt_views(rs@) =~= post_walk_all(*self.rw, cs));
                if none_all(&rs) {
                    self.rw.rewrite(x)
                } else {
                    let args = merge_args(&rs, &n.args);
                    Some(Term::tree(n.op, args))
                }
            },
        }
    }
}

impl<'a, R: Rewriter> Rewriter for PostWalk<'a, R> {
    open spec fn halts(&self, x: TermView) -> bool {
        post_walk_halts(*self.inner(), x)
    }

    open spec fn spec_rewrite(&self, x: TermView) -> Option<TermView> {
        post_walk(*self.inner(), x)
    }

    fn rewrite(&self, x: &Term) -> (r: Option<Term>) {
        self.walk(x)
    }
}

/// Top-down rewriting: the rule is tried at a node before its children.
/// Where it applies, the walk goes on below the rewritten node; where it
/// does not, below the node as it was, and the node counts as rewritten only
/// when some child was.
pub struct PreWalk<'a, R: Rewriter> {
    rw: &'a R,
}

/// What a pre-order walk gives on `x`, taken to depth `fuel`.
/// `None` when `fuel` runs out before the walk ends, or the rule is asked
/// for a term on which it does not return.
pub open spec fn pre_walk<R: Rewriter>(rw: R, x: TermView, fuel: nat) -> Option<Option<TermView>>
    decreases fuel, x,
{
    if fuel == 0 || !rw.halts(x) {
        None
    } else {
        match rw.spec_rewrite(x) {
            Some(y) => match y {
                TermView::Leaf(_) => Some(Some(y)),
                TermView::Tree(op, ys) => {
                    let rs = pre_walk_all(rw, ys, (fuel - 1) as nat);
                    if all_defined(rs) {
                        Some(Some(TermView::Tree(op, merge(defined_values(rs), ys))))
                    } else {
                        None
                    }
                },
            },
            None => match x {
                TermView::Leaf(_) => Some(None),
                TermView::Tree(op, cs) => {
                    let rs = pre_walk_all(rw, cs, (fuel - 1) as nat);
                    if !all_defined(rs) {
                        None
                    } else if all_none(defined_values(rs)) {
                        Some(None)
                    } else {
                        Some(Some(TermView::Tree(op, merge(defined_values(rs), cs))))
                    }
                },
            },
        }
    }
}

/// The pre_walk of each of `cs` with the same fuel.
pub open spec fn pre_walk_all<R: Rewriter>(rw: R, cs: Seq<TermView>, fuel: nat) -> Seq<
    Option<Option<TermView>>,
>
    decreases fuel, cs,
{
    if cs.len() == 0 {
        seq![]
    } else {
        pre_walk_all(rw, cs.drop_last(), fuel).push(pre_walk(rw, cs.last(), fuel))
    }
}

pub proof fn lemma_pre_walk_all<R: Rewriter>(rw: R, cs: Seq<TermView>, fuel: nat)
    ensures
        pre_walk_all(rw, cs, fuel).len() == cs.len(),
        forall|i: int|
            0 <= i < cs.len() ==> #[trigger] pre_walk_all(rw, cs, fuel)[i] == pre_walk(rw, cs[i], fuel),
    decreases cs.len(),
{
    if cs.len() > 0 {
        let d = cs.drop_last();
        lemma_pre_walk_all(rw, d, fuel);
        assert forall|i: int| 0 <= i < cs.len() implies #[trigger] pre_walk_all(rw, cs, fuel)[i]
            == pre_walk(rw, cs[i], fuel) by {
            if i < cs.len() - 1 {
                assert(cs[i] == d[i]);
            }
        }
    }
}

/// The fuel that the walk of `x` is taken with: one on which it ends.
pub open spec fn pre_walk_fuel<R: Rewriter>(rw: R, x: TermView) -> nat {
    choose|f: nat| pre_walk(rw, x, f) is Some
}

impl<'a, R: Rewriter> PreWalk<'a, R> {
    pub fn from(rw: &'a R) -> (r: Self)
        ensures
            r.inner() == rw,
    {
        PreWalk { rw }
    }

    pub closed spec fn inner(&self) -> &'a R {
        self.rw
    }

    fn walk(&self, x: &Term, Ghost(fuel): Ghost<nat>) -> (r: Option<Term>)
        requires
            pre_walk(*self.rw, x@, fuel) is Some,
        ensures
            pre_walk(*self.rw, x@, fuel) == Some(opt_view(r)),
        decreases fuel, 0int,
    {
        match self.rw.rewrite(x) {
            Some(y) => match &y {
                Term::Leaf(_) => Some(y.clone()),
                Term::Tree(n) => {
                    proof {
                        lemma_pre_walk_all(*self.rw, views(n.args@), (fuel - 1) as nat);
                    }
                    let rs = self.walk_all(&n.args, Ghost((fuel - 1) as nat));
                    let args = merge_args(&rs, &n.args);
                    Some(n.make(args))
                },
            },
            None => match x {
                Term::Leaf(_) => None,
                Term::Tree(n) => {
                    proof {
                        lemma_pre_walk_all(*self.rw, views(n.args@), (fuel - 1) as nat);
                    }
                    let rs = self.walk_all(&n.args, Ghost((fuel - 1) as nat));
                    if none_all(&rs) {
                        None
                    } else {
                        let args = merge_args(&rs, &n.args);
                        Some(n.make(args))
                    }
                },
            },
        }
    }

    fn walk_all(&self, cs: &Vec<Term>, Ghost(fuel): Ghost<nat>) -> (r: Vec<Option<Term>>)
        requires
            all_defined(pre_walk_all(*self.rw, views(cs@), fuel)),
        ensures
            r.len() == cs.len(),
            opt_views(r@) == defined_values(pre_walk_all(*self.rw, views(cs@), fuel)),
        decreases fuel, 1int,
    {
        let ghost vs = views(cs@);
        proof {
            lemma_pre_walk_all(*self.rw, vs, fuel);
        }
        let mut rs: Vec<Option<Term>> = Vec::new();
        let mut i: usize = 0;
        while i < cs.len()
            invariant
                vs == views(cs@),
                pre_walk_all(*self.rw, vs, fuel).len() == vs.len(),
                forall|j: int|
                    0 <= j < vs.len() ==> #[trigger] pre_walk_all(*self.rw, vs, fuel)[j] == pre_walk(
                        *self.rw,
                        vs[j],
                        fuel,
                    ),
                all_defined(pre_walk_all(*self.rw, vs, fuel)),
                i <= cs.len(),
                opt_views(rs@) == defined_values(pre_walk_all(*self.rw, vs, fuel)).take(i as int),
            decreases cs.len() - i,
        {
            assert(cs@[i as int]@ == vs[i as int]);
            assert(pre_walk_all(*self.rw, vs, fuel)[i as int] is Some);
            let r = self.walk(&cs[i], Ghost(fuel));
            let ghost before = rs@;
            rs.push(r);
            assert(rs@ == before.push(r));
            assert(opt_views(rs@) =~= opt_views(before).push(opt_view(r)));
            assert(opt_views(rs@) =~= defined_values(pre_walk_all(*self.rw, vs, fuel)).take(i + 1));
            i += 1;
        }
        assert(opt_views(rs@) =~= defined_values(pre_walk_all(*self.rw, vs, fuel)));
        rs
    }
}

impl<'a, R: Rewriter> Rewriter for PreWalk<'a, R> {
    open spec fn halts(&self, x: TermView) -> bool {
        exists|f: nat| pre_walk(*self.inner(), x, f) is Some
    }

    open spec fn spec_rewrite(&self, x: TermView) -> Option<TermView> {
        match pre_walk(*self.inner(), x, pre_walk_fuel(*self.inner(), x)) {
            Some(r) => r,
            None => None,
        }
    }

    fn rewrite(&self, x: &Term) -> (r: Option<Term>) {
        let ghost f = pre_walk_fuel(*self.rw, x@);
        self.walk(x, Ghost(f))
    }
}

/// Rewriting along matches from the root: the rule is tried at the root
/// once; only where it applies does the step go on into the children of the
/// rewritten node, each child left as it is where nothing applies.
pub struct PreStep<'a, R: Rewriter> {
    rw: &'a R,
}

/// What a pre-order step gives on `x`, taken to depth `fuel`.
/// `None` when `fuel` runs out before the walk ends, or the rule is asked
/// for a term on which it does not return.
pub open spec fn pre_step<R: Rewriter>(rw: R, x: TermView, fuel: nat) -> Option<Option<TermView>>
    decreases fuel, x,
{
    if fuel == 0 || !rw.halts(x) {
        None
    } else {
        match rw.spec_rewrite(x) {
            Some(y) => match y {
                TermView::Leaf(_) => Some(Some(y)),
                TermView::Tree(op, ys) => {
                    let rs = pre_step_all(rw, ys, (fuel - 1) as nat);
                    if all_defined(rs) {
                        Some(Some(TermView::Tree(op, merge(defined_values(rs), ys))))
                    } else {
                        None
                    }
                },
            },
            None => Some(None),
        }
    }
}

/// The pre_step of each of `cs` with the same fuel.
pub open spec fn pre_step_all<R: Rewriter>(rw: R, cs: Seq<TermView>, fuel: nat) -> Seq<
    Option<Option<TermView>>,
>
    decreases fuel, cs,
{
    if cs.len() == 0 {
        seq![]
    } else {
        pre_step_all(rw, cs.drop_last(), fuel).push(pre_step(rw, cs.last(), fuel))
    }
}

pub proof fn lemma_pre_step_all<R: Rewriter>(rw: R, cs: Seq<TermView>, fuel: nat)
    ensures
        pre_step_all(rw, cs, fuel).len() == cs.len(),
        forall|i: int|
            0 <= i < cs.len() ==> #[trigger] pre_step_all(rw, cs, fuel)[i] == pre_step(rw, cs[i], fuel),
    decreases cs.len(),
{
    if cs.len() > 0 {
        let d = cs.drop_last();
        lemma_pre_step_all(rw, d, fuel);
        assert forall|i: int| 0 <= i < cs.len() implies #[trigger] pre_step_all(rw, cs, fuel)[i]
            == pre_step(rw, cs[i], fuel) by {
            if i < cs.len() - 1 {
                assert(cs[i] == d[i]);
            }
        }
    }
}

/// The fuel that the walk of `x` is taken with: one on which it ends.
pub open spec fn pre_step_fuel<R: Rewriter>(rw: R, x: TermView) -> nat {
    choose|f: nat| pre_step(rw, x, f) is Some
}

impl<'a, R: Rewriter> PreStep<'a, R> {
    pub fn from(rw: &'a R) -> (r: Self)
        ensures
            r.inner() == rw,
    {
        PreStep { rw }
    }

    pub closed spec fn inner(&self) -> &'a R {
        self.rw
    }

    fn walk(&self, x: &Term, Ghost(fuel): Ghost<nat>) -> (r: Option<Term>)
        requires
            pre_step(*self.rw, x@, fuel) is Some,
        ensures
            pre_step(*self.rw, x@, fuel) == Some(opt_view(r)),
        decreases fuel, 0int,
    {
        match self.rw.rewrite(x) {
            Some(y) => match &y {
                Term::Leaf(_) => Some(y.clone()),
                Term::Tree(n) => {
                    proof {
                        lemma_pre_step_all(*self.rw, views(n.args@), (fuel - 1) as nat);
                    }
                    let rs = self.walk_all(&n.args, Ghost((fuel - 1) as nat));
                    let args = merge_args(&rs, &n.args);
                    Some(n.make(args))
                },
            },
            None => None,
        }
    }

    fn walk_all(&self, cs: &Vec<Term>, Ghost(fuel): Ghost<nat>) -> (r: Vec<Option<Term>>)
        requires
            all_defined(pre_step_all(*self.rw, views(cs@), fuel)),
        ensures
            r.len() == cs.len(),
            opt_views(r@) == defined_values(pre_step_all(*self.rw, views(cs@), fuel)),
        decreases fuel, 1int,
    {
        let ghost vs = views(cs@);
        proof {
            lemma_pre_step_all(*self.rw, vs, fuel);
        }
        let mut rs: Vec<Option<Term>> = Vec::new();
        let mut i: usize = 0;
        while i < cs.len()
            invariant
                vs == views(cs@),
                pre_step_all(*self.rw, vs, fuel).len() == vs.len(),
                forall|j: int|
                    0 <= j < vs.len() ==> #[trigger] pre_step_all(*self.rw, vs, fuel)[j] == pre_step(
                        *self.rw,
                        vs[j],
                        fuel,
                    ),
                all_defined(pre_step_all(*self.rw, vs, fuel)),
                i <= cs.len(),
                opt_views(rs@) == defined_values(pre_step_all(*self.rw, vs, fuel)).take(i as int),
            decreases cs.len() - i,
        {
            assert(cs@[i as int]@ == vs[i as int]);
            assert(pre_step_all(*self.rw, vs, fuel)[i as int] is Some);
            let r = self.walk(&cs[i], Ghost(fuel));
            let ghost before = rs@;
            rs.push(r);
            assert(rs@ == before.push(r));
            assert(opt_views(rs@) =~= opt_views(before).push(opt_view(r)));
            assert(opt_views(rs@) =~= defined_values(pre_step_all(*self.rw, vs, fuel)).take(i + 1));
            i += 1;
        }
        assert(opt_views(rs@) =~= defined_values(pre_step_all(*self.rw, vs, fuel)));
        rs
    }
}

impl<'a, R: Rewriter> Rewriter for PreStep<'a, R> {
    open spec fn halts(&self, x: TermView) -> bool {
        exists|f: nat| pre_step(*self.inner(), x, f) is Some
    }

    open spec fn spec_rewrite(&self, x: TermView) -> Option<TermView> {
        match pre_step(*self.inner(), x, pre_step_fuel(*self.inner(), x)) {
            Some(r) => r,
            None => None,
        }
    }

    fn rewrite(&self, x: &Term) -> (r: Option<Term>) {
        let ghost f = pre_step_fuel(*self.rw, x@);
        self.walk(x, Ghost(f))
    }
}

} // verus!
verus! {

/// Runs rewriters one after the other, each on the result of the ones
/// before; succeeds when any of them applied.
pub struct Chain<R: Rewriter> {
    rws: Vec<R>,
}

/// The term after the stages of `rws` in order, and whether any applied.
pub open spec fn chain_run<R: Rewriter>(rws: Seq<R>, x: TermView) -> (TermView, bool)
    decreases rws.len(),
{
    if rws.len() == 0 {
        (x, false)
    } else {
        let before = chain_run(rws.drop_last(), x);
        match rws.last().spec_rewrite(before.0) {
            Some(y) => (y, true),
            None => before,
        }
    }
}

/// Each stage returns on the term that it is given.
pub open spec fn chain_halts<R: Rewriter>(rws: Seq<R>, x: TermView) -> bool {
    forall|k: int| 0 <= k < rws.len() ==> #[trigger] rws[k].halts(chain_run(rws.take(k), x).0)
}

impl<R: Rewriter> Chain<R> {
    pub fn from(rws: Vec<R>) -> (r: Self)
        ensures
            r.stages() == rws@,
    {
        Chain { rws }
    }

    pub closed spec fn stages(&self) -> Seq<R> {
        self.rws@
    }
}

impl<R: Rewriter> Rewriter for Chain<R> {
    open spec fn halts(&self, x: TermView) -> bool {
        chain_halts(self.stages(), x)
    }

    open spec fn spec_rewrite(&self, x: TermView) -> Option<TermView> {
        let run = chain_run(self.stages(), x);
        if run.1 {
            Some(run.0)
        } else {
            None
        }
    }

    fn rewrite(&self, x: &Term) -> (r: Option<Term>) {
        let mut cur = x.clone();
        let mut is_success = false;
        let mut i: usize = 0;
        assert(self.rws@.take(0) =~= Seq::<R>::empty());
        while i < self.rws.len()
            invariant
                i <= self.rws.len(),
                chain_halts(self.rws@, x@),
                chain_run(self.rws@.take(i as int), x@) == (cur@, is_success),
            decreases self.rws.len() - i,
        {
            assert(self.rws@.take(i + 1).drop_last() =~= self.rws@.take(i as int));
            assert(self.rws@[i as int].halts(chain_run(self.rws@.take(i as int), x@).0));
            if let Some(y) = self.rws[i].rewrite(&cur) {
                cur = y;
                is_success = true;
            }
            i += 1;
        }
        assert(self.rws@.take(self.rws.len() as int) =~= self.rws@);
        if is_success {
            Some(cur)
        } else {
            None
        }
    }
}

/// Repeats a rewriter until it declines or returns the term it was given.
pub struct FixPoint<'a, R: Rewriter> {
    rw: &'a R,
}

/// The term that iteration settles on, from the accumulated term `acc`
/// and the rule's latest result `y`; `None` when `fuel` runs out first or
/// the rule is asked for a term on which it does not return.
pub open spec fn settle<R: Rewriter>(
    rw: R,
    acc: TermView,
    y: Option<TermView>,
    fuel: nat,
) -> Option<TermView>
    decreases fuel,
{
    match y {
        None => Some(acc),
        Some(v) => if v == acc {
            Some(acc)
        } else if fuel == 0 || !rw.halts(v) {
            None
        } else {
            settle(rw, v, rw.spec_rewrite(v), (fuel - 1) as nat)
        },
    }
}

/// The iteration from `x` ends.
pub open spec fn fix_halts<R: Rewriter>(rw: R, x: TermView) -> bool {
    rw.halts(x) && exists|f: nat| settle(rw, x, rw.spec_rewrite(x), f) is Some
}

/// The fuel that the iteration from `x` is taken with: one on which it ends.
pub open spec fn fix_fuel<R: Rewriter>(rw: R, x: TermView) -> nat {
    choose|f: nat| settle(rw, x, rw.spec_rewrite(x), f) is Some
}

/// What iterating `rw` from `x` gives.
pub open spec fn fix_point<R: Rewriter>(rw: R, x: TermView) -> Option<TermView> {
    match rw.spec_rewrite(x) {
        None => None,
        Some(_) => settle(rw, x, rw.spec_rewrite(x), fix_fuel(rw, x)),
    }
}

impl<'a, R: Rewriter> FixPoint<'a, R> {
    pub fn from(rw: &'a R) -> (r: Self)
        ensures
            r.inner() == rw,
    {
        FixPoint { rw }
    }

    pub closed spec fn inner(&self) -> &'a R {
        self.rw
    }
}

impl<'a, R: Rewriter> Rewriter for FixPoint<'a, R> {
    open spec fn halts(&self, x: TermView) -> bool {
        fix_halts(*self.inner(), x)
    }

    open spec fn spec_rewrite(&self, x: TermView) -> Option<TermView> {
        fix_point(*self.inner(), x)
    }

    fn rewrite(&self, x: &Term) -> (r: Option<Term>) {
        let first = self.rw.rewrite(x);
        if first.is_none() {
            return None;
        }
        let ghost target = settle(*self.rw, x@, opt_view(first), fix_fuel(*self.rw, x@));
        let ghost mut k: nat = fix_fuel(*self.rw, x@);
        let mut acc = x.clone();
        let mut y = first;
        loop
            invariant
                target is Some,
                settle(*self.rw, acc@, opt_view(y), k) == target,
            ensures
                target == Some(acc@),
            decreases k,
        {
            let stop = match &y {
                None => true,
                Some(v) => acc.same(v),
            };
            if stop {
                break ;
            }
            let v = y.unwrap();
            let next = self.rw.rewrite(&v);
            acc = v;
            y = next;
            proof {
                k = (k - 1) as nat;
            }
        }
        Some(acc)
    }
}

} // verus!
