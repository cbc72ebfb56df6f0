//! Facts about the views of sequences of terms.
use crate::term::{views, Term, TermView};
use vstd::prelude::*;

verus! {

pub broadcast proof fn lemma_views_len(s: Seq<Term>)
    ensures
        #[trigger] views(s).len() == s.len(),
    decreases s.len(),
{
    if s.len() > 0 {
        lemma_views_len(s.drop_last());
        assert(views(s) == views(s.drop_last()).push(s.last().view()));
    } else {
        assert(views(s) == Seq::<TermView>::empty());
    }
}

pub broadcast proof fn lemma_views_index(s: Seq<Term>, i: int)
    requires
        0 <= i < s.len(),
    ensures
        #[trigger] views(s)[i] == s[i]@,
    decreases s.len(),
{
    lemma_views_len(s.drop_last());
    assert(views(s) == views(s.drop_last()).push(s.last().view()));
    if i < s.len() - 1 {
        lemma_views_index(s.drop_last(), i);
    }
}

/// The length and every position of `views(s)`.
pub proof fn lemma_views(s: Seq<Term>)
    ensures
        views(s).len() == s.len(),
        forall|i: int| 0 <= i < s.len() ==> #[trigger] views(s)[i] == s[i]@,
{
    lemma_views_len(s);
    assert forall|i: int| 0 <= i < s.len() implies #[trigger] views(s)[i] == s[i]@ by {
        lemma_views_index(s, i);
    }
}

/// Two sequences of terms have equal views exactly when they agree position by position.
pub proof fn lemma_views_ext(a: Seq<Term>, b: Seq<Term>)
    requires
        a.len() == b.len(),
        forall|i: int| 0 <= i < a.len() ==> a[i]@ == b[i]@,
    ensures
        views(a) == views(b),
{
    lemma_views_len(a);
    lemma_views_len(b);
    assert forall|i: int| 0 <= i < a.len() implies views(a)[i] == views(b)[i] by {
        lemma_views_index(a, i);
        lemma_views_index(b, i);
    }
    assert(views(a) =~= views(b));
}

} // verus!
