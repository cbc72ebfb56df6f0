use std::rc::Rc;
use crate::term_facts::{lemma_views, lemma_views_ext};
use vstd::prelude::*;

verus! {

/// The mathematical value of a term: a leaf symbol, or an operator applied
/// to an ordered sequence of subterms.
pub enum TermView {
    Leaf(u64),
    Tree(u64, Seq<TermView>),
}

/// A childless node, identified by its symbol.
#[derive(Debug)]
pub struct Atom {
    pub sym: u64,
}

/// An operator node with ordered children.
#[derive(Debug)]
pub struct Node {
    pub op: u64,
    pub args: Vec<Term>,
}

/// A term: a shared leaf node or a shared tree node.
#[derive(Debug)]
pub enum Term {
    Leaf(Rc<Atom>),
    Tree(Rc<Node>),
}

impl View for Term {
    type V = TermView;

    open spec fn view(&self) -> TermView
        decreases self,
    {
        match self {
            Term::Leaf(a) => TermView::Leaf(a.sym),
            Term::Tree(n) => {
                proof {
                    assert(decreases_to!(n.args => n.args@));
                }
                TermView::Tree(n.op, views(n.args@))
            },
        }
    }
}

/// The views of a sequence of terms, position by position.
pub open spec fn views(s: Seq<Term>) -> Seq<TermView>
    decreases s,
{
    if s.len() == 0 {
        seq![]
    } else {
        views(s.drop_last()).push(s.last().view())
    }
}

/// The ordered children of a term; a leaf has none.
pub open spec fn children_of(t: TermView) -> Seq<TermView> {
    match t {
        TermView::Leaf(_) => seq![],
        TermView::Tree(_, cs) => cs,
    }
}

/// The same operator as a tree `t`, with `cs` as its children.
pub open spec fn with_children(t: TermView, cs: Seq<TermView>) -> TermView {
    match t {
        TermView::Leaf(_) => t,
        TermView::Tree(op, _) => TermView::Tree(op, cs),
    }
}

/// Every term of `t`, each node before its children, children in order.
pub open spec fn pre_order(t: TermView) -> Seq<TermView>
    decreases t,
{
    match t {
        TermView::Leaf(_) => seq![t],
        TermView::Tree(_, cs) => seq![t] + pre_order_all(cs),
    }
}

/// The pre-order traversals of `cs`, one after the other.
pub open spec fn pre_order_all(cs: Seq<TermView>) -> Seq<TermView>
    decreases cs,
{
    if cs.len() == 0 {
        seq![]
    } else {
        pre_order_all(cs.drop_last()) + pre_order(cs.last())
    }
}

/// Every term of `t`, the children in order before their parent.
pub open spec fn post_order(t: TermView) -> Seq<TermView>
    decreases t,
{
    match t {
        TermView::Leaf(_) => seq![t],
        TermView::Tree(_, cs) => post_order_all(cs).push(t),
    }
}

/// The post-order traversals of `cs`, one after the other.
pub open spec fn post_order_all(cs: Seq<TermView>) -> Seq<TermView>
    decreases cs,
{
    if cs.len() == 0 {
        seq![]
    } else {
        post_order_all(cs.drop_last()) + post_order(cs.last())
    }
}

/// The capability of a childless node: structural identity.
pub trait Leaf {
    spec fn spec_symbol(&self) -> u64;

    /// The symbol that identifies this leaf.
    fn symbol(&self) -> (r: u64)
        ensures
            r == self.spec_symbol(),
    ;
}

/// The capability of a node with children: report them, and rebuild the
/// same operator over a new list of the same length.
pub trait Tree {
    spec fn spec_term(&self) -> TermView;

    fn children(&self) -> (r: Vec<Term>)
        ensures
            views(r@) == children_of(self.spec_term()),
    ;

    fn make(&self, children: Vec<Term>) -> (r: Term)
        requires
            children.len() == children_of(self.spec_term()).len(),
        ensures
            r@ == with_children(self.spec_term(), views(children@)),
    ;
}

impl Leaf for Atom {
    open spec fn spec_symbol(&self) -> u64 {
        self.sym
    }

    fn symbol(&self) -> (r: u64) {
        self.sym
    }
}

impl Tree for Node {
    open spec fn spec_term(&self) -> TermView {
        TermView::Tree(self.op, views(self.args@))
    }

    fn children(&self) -> (r: Vec<Term>) {
        let r = self.args.clone();
        proof {
            lemma_views_ext(r@, self.args@);
        }
        r
    }

    fn make(&self, children: Vec<Term>) -> (r: Term) {
        Term::tree(self.op, children)
    }
}

impl Term {
    /// A leaf with the given symbol.
    pub fn leaf(sym: u64) -> (r: Term)
        ensures
            r@ == TermView::Leaf(sym),
    {
        Term::Leaf(Rc::new(Atom { sym }))
    }

    /// The operator `op` applied to `args`.
    pub fn tree(op: u64, args: Vec<Term>) -> (r: Term)
        ensures
            r@ == TermView::Tree(op, views(args@)),
    {
        Term::Tree(Rc::new(Node { op, args }))
    }

    pub fn is_leaf(&self) -> (r: bool)
        ensures
            r == (self@ is Leaf),
    {
        match self {
            Term::Leaf(_) => true,
            Term::Tree(_) => false,
        }
    }

    pub fn is_tree(&self) -> (r: bool)
        ensures
            r == (self@ is Tree),
    {
        !self.is_leaf()
    }

    /// The ordered children of this term; empty for a leaf.
    pub fn children(&self) -> (r: Vec<Term>)
        ensures
            views(r@) == children_of(self@),
    {
        match self {
            Term::Leaf(_) => {
                let r: Vec<Term> = Vec::new();
                proof {
                    lemma_views(r@);
                }
                assert(views(r@) =~= children_of(self@));
                r
            },
            Term::Tree(n) => n.children(),
        }
    }

    /// Structural equality: the two terms have the same view.
    pub fn same(&self, other: &Term) -> (r: bool)
        ensures
            r == (self@ == other@),
        decreases self,
    {
        match (self, other) {
            (Term::Leaf(a), Term::Leaf(b)) => a.sym == b.sym,
            (Term::Tree(a), Term::Tree(b)) => {
                proof {
                    lemma_views(a.args@);
                    lemma_views(b.args@);
                }
                if a.op != b.op || a.args.len() != b.args.len() {
                    return false;
                }
                let n = a.args.len();
                let mut i: usize = 0;
                while i < n
                    invariant
                        n == a.args.len() == b.args.len(),
                        *self == Term::Tree(*a),
                        decreases_to!(*self => a.args),
                        *other == Term::Tree(*b),
                        i <= n,
                        forall|j: int| 0 <= j < i ==> a.args@[j]@ == b.args@[j]@,
                    decreases n - i,
                {
                    proof {
                        assert(decreases_to!(a.args => a.args[i as int]));
                    }
                    if !a.args[i].same(&b.args[i]) {
                        proof {
                            lemma_views(a.args@);
                            lemma_views(b.args@);
                        }
                        assert(views(a.args@)[i as int] != views(b.args@)[i as int]);
                        return false;
                    }
                    i += 1;
                }
                proof {
                    lemma_views_ext(a.args@, b.args@);
                }
                true
            },
            _ => false,
        }
    }

    /// Every subterm, each node before its children.
    pub fn pre_order_dfs(&self) -> (r: Vec<Term>)
        ensures
            views(r@) == pre_order(self@),
        decreases self,
    {
        match self {
            Term::Leaf(_) => {
                let r = vec![self.clone()];
                proof {
                    lemma_views(r@);
                }
                assert(views(r@) =~= pre_order(self@));
                r
            },
            Term::Tree(t) => {
                let mut v = vec![self.clone()];
                proof {
                    lemma_views(v@);
                }
                let ghost cs = views(t.args@);
                proof {
                    lemma_views(t.args@);
                }
                let n = t.args.len();
                let mut i: usize = 0;
                assert(views(v@) =~= seq![self@] + pre_order_all(cs.take(0)));
                while i < n
                    invariant
                        n == t.args.len() == cs.len(),
                        *self == Term::Tree(*t),
                        decreases_to!(*self => t.args),
                        i <= n,
                        cs == views(t.args@),
                        self@ == TermView::Tree(t.op, cs),
                        views(v@) == seq![self@] + pre_order_all(cs.take(i as int)),
                    decreases n - i,
                {
                    proof {
                        assert(decreases_to!(t.args => t.args[i as int]));
                    }
                    let mut sub = t.args[i].pre_order_dfs();
                    let ghost before = v@;
                    let ghost sv = sub@;
                    v.append(&mut sub);
                    proof {
                        lemma_views(t.args@);
                        lemma_views(v@);
                        lemma_views(before);
                        lemma_views(sv);
                        assert(cs.take(i + 1).drop_last() =~= cs.take(i as int));
                        assert(views(v@) =~= views(before) + views(sv));
                    }
                    i += 1;
                }
                assert(cs.take(n as int) =~= cs);
                v
            },
        }
    }

    /// Every subterm, the children in order before their parent.
    pub fn post_order_dfs(&self) -> (r: Vec<Term>)
        ensures
            views(r@) == post_order(self@),
        decreases self,
    {
        match self {
            Term::Leaf(_) => {
                let r = vec![self.clone()];
                proof {
                    lemma_views(r@);
                }
                assert(views(r@) =~= post_order(self@));
                r
            },
            Term::Tree(t) => {
                let mut v: Vec<Term> = Vec::new();
                proof {
                    lemma_views(v@);
                }
                let ghost cs = views(t.args@);
                proof {
                    lemma_views(t.args@);
                }
                let n = t.args.len();
                let mut i: usize = 0;
                assert(views(v@) =~= post_order_all(cs.take(0)));
                while i < n
                    invariant
                        n == t.args.len() == cs.len(),
                        *self == Term::Tree(*t),
                        decreases_to!(*self => t.args),
                        i <= n,
                        cs == views(t.args@),
                        self@ == TermView::Tree(t.op, cs),
                        views(v@) == post_order_all(cs.take(i as int)),
                    decreases n - i,
                {
                    proof {
                        assert(decreases_to!(t.args => t.args[i as int]));
                    }
                    let mut sub = t.args[i].post_order_dfs();
                    let ghost before = v@;
                    let ghost sv = sub@;
                    v.append(&mut sub);
                    proof {
                        lemma_views(t.args@);
                        lemma_views(v@);
                        lemma_views(before);
                        lemma_views(sv);
                        assert(cs.take(i + 1).drop_last() =~= cs.take(i as int));
                        assert(views(v@) =~= views(before) + views(sv));
                    }
                    i += 1;
                }
                assert(cs.take(n as int) =~= cs);
                let ghost before = v@;
                v.push(self.clone());
                proof {
                    lemma_views(v@);
                    lemma_views(before);
                }
                assert(views(v@) =~= views(before).push(self@));
                v
            },
        }
    }
}

impl PartialEq for Term {
    fn eq(&self, other: &Term) -> (r: bool) {
        self.same(other)
    }
}

impl vstd::std_specs::cmp::PartialEqSpecImpl for Term {
    open spec fn obeys_eq_spec() -> bool {
        true
    }

    open spec fn eq_spec(&self, other: &Term) -> bool {
        self@ == other@
    }
}

impl Eq for Term {

}

impl Clone for Term {
    fn clone(&self) -> (r: Self)
        ensures
            r == *self,
    {
        match self {
            Term::Leaf(a) => Term::Leaf(a.clone()),
            Term::Tree(n) => Term::Tree(n.clone()),
        }
    }
}

} // verus!
