use finch_symbolic::memo::{encode, term_hash, Memo};
use finch_symbolic::rewriter::{Chain, FixPoint, PostWalk, PreStep, PreWalk, Rewriter};
use finch_symbolic::symbol_generator::SymbolGenerator;
use finch_symbolic::term::{Term, TermView};
use std::cell::Cell;

const ADD: u64 = 1;
const MUL: u64 = 2;
const ZERO: u64 = 0;
const X: u64 = 100;
const Y: u64 = 101;

fn leaf(s: u64) -> Term {
    Term::leaf(s)
}

fn add(a: Term, b: Term) -> Term {
    Term::tree(ADD, vec![a, b])
}

fn mul(a: Term, b: Term) -> Term {
    Term::tree(MUL, vec![a, b])
}

/// `Add(0, y) -> y`.
struct AddZero;

impl Rewriter for AddZero {
    fn halts(&self, _x: TermView) -> bool {
        true
    }

    fn spec_rewrite(&self, _x: TermView) -> Option<TermView> {
        None
    }

    fn rewrite(&self, x: &Term) -> Option<Term> {
        match x {
            Term::Tree(n) if n.op == ADD && n.args.len() == 2 => match &n.args[0] {
                Term::Leaf(a) if a.sym == ZERO => Some(n.args[1].clone()),
                _ => None,
            },
            _ => None,
        }
    }
}

/// Never applies.
struct Never;

impl Rewriter for Never {
    fn halts(&self, _x: TermView) -> bool {
        true
    }

    fn spec_rewrite(&self, _x: TermView) -> Option<TermView> {
        None
    }

    fn rewrite(&self, _x: &Term) -> Option<Term> {
        None
    }
}

/// `Mul(a, b) -> Mul(b, a)` at the root.
struct Swap;

impl Rewriter for Swap {
    fn halts(&self, _x: TermView) -> bool {
        true
    }

    fn spec_rewrite(&self, _x: TermView) -> Option<TermView> {
        None
    }

    fn rewrite(&self, x: &Term) -> Option<Term> {
        match x {
            Term::Tree(n) if n.op == MUL && n.args.len() == 2 => {
                Some(mul(n.args[1].clone(), n.args[0].clone()))
            }
            _ => None,
        }
    }
}

/// Returns its input unchanged, as a match.
struct Echo;

impl Rewriter for Echo {
    fn halts(&self, _x: TermView) -> bool {
        true
    }

    fn spec_rewrite(&self, _x: TermView) -> Option<TermView> {
        None
    }

    fn rewrite(&self, x: &Term) -> Option<Term> {
        Some(x.clone())
    }
}

/// `AddZero`, counting its calls.
struct Counted {
    calls: Cell<usize>,
}

impl Rewriter for Counted {
    fn halts(&self, _x: TermView) -> bool {
        true
    }

    fn spec_rewrite(&self, _x: TermView) -> Option<TermView> {
        None
    }

    fn rewrite(&self, x: &Term) -> Option<Term> {
        self.calls.set(self.calls.get() + 1);
        AddZero.rewrite(x)
    }
}

/// A stage of a chain: one of two rules.
enum Stage {
    Skip,
    Zero,
}

impl Rewriter for Stage {
    fn halts(&self, _x: TermView) -> bool {
        true
    }

    fn spec_rewrite(&self, _x: TermView) -> Option<TermView> {
        None
    }

    fn rewrite(&self, x: &Term) -> Option<Term> {
        match self {
            Stage::Skip => Never.rewrite(x),
            Stage::Zero => AddZero.rewrite(x),
        }
    }
}

#[test]
fn default_returns_rule_result_or_input() {
    let x = leaf(X);
    let never = Never;
    let d = finch_symbolic::rewriter::Default::from(&never);
    assert_eq!(d.rewrite(&x), Some(leaf(X)));
    let t = add(leaf(ZERO), leaf(X));
    let rule = AddZero;
    let d = finch_symbolic::rewriter::Default::from(&rule);
    assert_eq!(d.rewrite(&t), Some(leaf(X)));
}

#[test]
fn prewalk_removes_add_zero_at_root() {
    let rule = AddZero;
    let t = add(leaf(ZERO), leaf(X));
    assert_eq!(PreWalk::from(&rule).rewrite(&t), Some(leaf(X)));
}

#[test]
fn postwalk_identity_on_deep_tree() {
    let mut t = leaf(X);
    for i in 0..200u64 {
        t = if i % 2 == 0 { add(t, leaf(Y)) } else { mul(leaf(i), t) };
    }
    let never = Never;
    assert_eq!(PostWalk::from(&never).rewrite(&t), None);
}

#[test]
fn prestep_needs_root_match() {
    let rule = AddZero;
    let t = mul(add(leaf(ZERO), leaf(X)), leaf(Y));
    assert_eq!(PreStep::from(&rule).rewrite(&t), None);
    assert_eq!(PreWalk::from(&rule).rewrite(&t), Some(mul(leaf(X), leaf(Y))));
}

#[test]
fn walks_report_no_match_where_rule_never_applies() {
    let rule = AddZero;
    let t = mul(add(leaf(X), leaf(ZERO)), add(leaf(Y), leaf(X)));
    assert_eq!(PreWalk::from(&rule).rewrite(&t), None);
    assert_eq!(PostWalk::from(&rule).rewrite(&t), None);
    assert_eq!(PreStep::from(&rule).rewrite(&t), None);
}

#[test]
fn walks_on_a_leaf_delegate_to_the_rule() {
    let echo = Echo;
    assert_eq!(PreWalk::from(&echo).rewrite(&leaf(X)), Some(leaf(X)));
    assert_eq!(PostWalk::from(&echo).rewrite(&leaf(X)), Some(leaf(X)));
    let never = Never;
    assert_eq!(PreWalk::from(&never).rewrite(&leaf(X)), None);
    assert_eq!(PostWalk::from(&never).rewrite(&leaf(X)), None);
}

#[test]
fn prewalk_descends_into_rewritten_node() {
    // The root rewrites to Add(0, Mul(Add(0, x), y)); the walk then goes on
    // in its children only: Add(0, Mul(x, y)).
    let rule = AddZero;
    let t = add(leaf(ZERO), add(leaf(ZERO), mul(add(leaf(ZERO), leaf(X)), leaf(Y))));
    assert_eq!(
        PreWalk::from(&rule).rewrite(&t),
        Some(add(leaf(ZERO), mul(leaf(X), leaf(Y))))
    );
}

#[test]
fn postwalk_skips_rule_where_a_child_changed() {
    let rule = AddZero;
    let t = add(leaf(ZERO), add(leaf(ZERO), leaf(X)));
    assert_eq!(PostWalk::from(&rule).rewrite(&t), Some(add(leaf(ZERO), leaf(X))));
    let t = add(leaf(ZERO), leaf(X));
    assert_eq!(PostWalk::from(&rule).rewrite(&t), Some(leaf(X)));
}

#[test]
fn prestep_follows_matches_down() {
    let rule = Swap;
    // Mul(Mul(x, y), y) -> Mul(y, Mul(x, y)) at the root, then below:
    // Mul(y, Mul(y, x)).
    let t = mul(mul(leaf(X), leaf(Y)), leaf(Y));
    assert_eq!(
        PreStep::from(&rule).rewrite(&t),
        Some(mul(leaf(Y), mul(leaf(Y), leaf(X))))
    );
}

#[test]
fn chain_with_one_matching_stage() {
    let rule = AddZero;
    let a = PreWalk::from(&rule);
    let t = add(leaf(ZERO), leaf(X));
    let c = Chain::from(vec![Never, Never]);
    assert_eq!(c.rewrite(&t), None);
    assert_eq!(a.rewrite(&t), Some(leaf(X)));
}

#[test]
fn chain_of_walks_single_and_none() {
    let t = mul(add(leaf(ZERO), leaf(X)), leaf(Y));
    let (s1, s2, s3) = (Stage::Skip, Stage::Zero, Stage::Skip);
    let c = Chain::from(vec![PreWalk::from(&s1), PreWalk::from(&s2), PreWalk::from(&s3)]);
    assert_eq!(c.rewrite(&t), Some(mul(leaf(X), leaf(Y))));
    let c = Chain::from(vec![PreWalk::from(&s1), PreWalk::from(&s3)]);
    assert_eq!(c.rewrite(&t), None);
    let empty: Chain<PreWalk<Stage>> = Chain::from(vec![]);
    assert_eq!(empty.rewrite(&t), None);
}

#[test]
fn chain_stages_see_earlier_results() {
    let rule = AddZero;
    let t = add(leaf(ZERO), add(leaf(ZERO), leaf(X)));
    let step = PreStep::from(&rule);
    // The step rewrites the root and then only its new children: Add(0, x).
    assert_eq!(step.rewrite(&t), Some(add(leaf(ZERO), leaf(X))));
    let c = Chain::from(vec![PreStep::from(&rule), PreStep::from(&rule)]);
    assert_eq!(c.rewrite(&t), Some(leaf(X)));
    let c = Chain::from(vec![FixPoint::from(&rule), FixPoint::from(&rule)]);
    assert_eq!(c.rewrite(&t), Some(leaf(X)));
}

#[test]
fn fixpoint_one_step_equals_single_result() {
    let rule = AddZero;
    let t = add(leaf(ZERO), leaf(X));
    assert_eq!(FixPoint::from(&rule).rewrite(&t), rule.rewrite(&t));
    let echo = Echo;
    assert_eq!(FixPoint::from(&echo).rewrite(&t), Some(t.clone()));
}

#[test]
fn fixpoint_iterates_until_no_match() {
    let rule = AddZero;
    let t = add(leaf(ZERO), add(leaf(ZERO), add(leaf(ZERO), leaf(Y))));
    assert_eq!(FixPoint::from(&rule).rewrite(&t), Some(leaf(Y)));
    let never = Never;
    assert_eq!(FixPoint::from(&never).rewrite(&t), None);
}

#[test]
fn fixpoint_of_swap_stops_when_result_repeats() {
    let swap = Swap;
    let t = mul(leaf(X), leaf(X));
    // Swapping equal children gives the same term: one step, then fixpoint.
    assert_eq!(FixPoint::from(&swap).rewrite(&t), Some(mul(leaf(X), leaf(X))));
}

#[test]
fn memo_reuses_cached_results() {
    let rule = Counted { calls: Cell::new(0) };
    let mut m = Memo::from(&rule);
    let t1 = add(leaf(ZERO), leaf(X));
    let t2 = add(leaf(ZERO), leaf(X));
    let r1 = m.rewrite(&t1);
    let r2 = m.rewrite(&t2);
    assert_eq!(r1, Some(leaf(X)));
    assert_eq!(r1, r2);
    assert_eq!(rule.calls.get(), 1);
    let t3 = leaf(Y);
    assert_eq!(m.rewrite(&t3), None);
    assert_eq!(m.rewrite(&leaf(Y)), None);
    assert_eq!(rule.calls.get(), 2);
}

#[test]
fn term_hash_depends_on_structure() {
    let a = add(leaf(ZERO), leaf(X));
    let b = add(leaf(ZERO), leaf(X));
    let c = add(leaf(X), leaf(ZERO));
    assert_eq!(term_hash(&a), term_hash(&b));
    assert_ne!(term_hash(&a), term_hash(&c));
    assert_ne!(term_hash(&leaf(1)), 1);
}

#[test]
fn encode_leaf_and_tree() {
    let mut out = Vec::new();
    encode(&leaf(0x0102), &mut out);
    assert_eq!(out, vec![0, 2, 1, 0, 0, 0, 0, 0, 0]);
    let mut out = Vec::new();
    encode(&Term::tree(7, vec![leaf(5)]), &mut out);
    assert_eq!(
        out,
        vec![1, 7, 0, 0, 0, 0, 0, 0, 0, 1, 0, 0, 0, 0, 0, 0, 0, 0, 5, 0, 0, 0, 0, 0, 0, 0]
    );
}

#[test]
fn pre_and_post_order_traversals() {
    let t = mul(add(leaf(ZERO), leaf(X)), leaf(Y));
    let pre = t.pre_order_dfs();
    assert_eq!(
        pre,
        vec![t.clone(), add(leaf(ZERO), leaf(X)), leaf(ZERO), leaf(X), leaf(Y)]
    );
    let post = t.post_order_dfs();
    assert_eq!(
        post,
        vec![leaf(ZERO), leaf(X), add(leaf(ZERO), leaf(X)), leaf(Y), t.clone()]
    );
    assert_eq!(leaf(X).pre_order_dfs(), vec![leaf(X)]);
    assert_eq!(leaf(X).post_order_dfs(), vec![leaf(X)]);
}

#[test]
fn term_basics() {
    let t = add(leaf(ZERO), leaf(X));
    assert!(t.is_tree());
    assert!(!t.is_leaf());
    assert_eq!(t.children(), vec![leaf(ZERO), leaf(X)]);
    assert!(leaf(X).children().is_empty());
    assert!(t.same(&add(leaf(ZERO), leaf(X))));
    assert!(!t.same(&add(leaf(X), leaf(ZERO))));
    assert_ne!(leaf(X), add(leaf(X), leaf(X)));
}

#[test]
fn gensym_counts_up() {
    let mut g = SymbolGenerator::default();
    assert_eq!(g.gensym("i"), "#i#0");
    assert_eq!(g.gensym("j"), "#j#1");
    for _ in 0..8 {
        g.gensym("k");
    }
    assert_eq!(g.gensym("idx"), "#idx#10");
}

#[test]
fn prestep_stops_at_a_leaf_result() {
    let rule = AddZero;
    let t = add(leaf(ZERO), leaf(X));
    assert_eq!(PreStep::from(&rule).rewrite(&t), Some(leaf(X)));
    let echo = Echo;
    assert_eq!(PreStep::from(&echo).rewrite(&leaf(Y)), Some(leaf(Y)));
}
