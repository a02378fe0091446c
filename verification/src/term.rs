//! The mathematical model of a filter expression.

use vstd::prelude::*;

verus! {

/// A filter expression, written out in full.
pub enum Term {
    /// Passes content through unchanged.
    Nop,
    /// Selects nothing.
    Empty,
    /// Restricts to the subtree at the path.
    Subdir(Seq<Seq<u8>>),
    /// Puts the selection under the path.
    Prefix(Seq<Seq<u8>>),
    /// Applies the first filter, and the second to its result.
    Chain(Box<Term>, Box<Term>),
    /// The ordered union of the filters, each applied on its own.
    Compose(Seq<Term>),
    /// What the first filter selects without what the second selects.
    Subtract(Box<Term>, Box<Term>),
}

/// A measure of a term that every rewrite of the simplifier lowers: every
/// node counts once, and the right operand of a chain counts double.
pub open spec fn weight(t: Term) -> nat
    decreases t,
{
    match t {
        Term::Chain(a, b) => 1 + weight(*a) + 2 * weight(*b),
        Term::Compose(l) => 1 + weights(l),
        Term::Subtract(a, b) => 1 + weight(*a) + weight(*b),
        _ => 1,
    }
}

/// The sum of the weights of a list of terms.
pub open spec fn weights(l: Seq<Term>) -> nat
    decreases l,
{
    if l.len() == 0 {
        0
    } else {
        weights(l.drop_last()) + weight(l.last())
    }
}

/// The number of nodes of a term.
pub open spec fn size(t: Term) -> nat
    decreases t,
{
    match t {
        Term::Chain(a, b) => 1 + size(*a) + size(*b),
        Term::Compose(l) => 1 + sizes(l),
        Term::Subtract(a, b) => 1 + size(*a) + size(*b),
        _ => 1,
    }
}

/// The number of nodes of a list of terms.
pub open spec fn sizes(l: Seq<Term>) -> nat
    decreases l,
{
    if l.len() == 0 {
        0
    } else {
        sizes(l.drop_last()) + size(l.last())
    }
}

/// The number of identity filters in a term.
pub open spec fn identities(t: Term) -> nat
    decreases t,
{
    match t {
        Term::Nop => 1,
        Term::Chain(a, b) => identities(*a) + identities(*b),
        Term::Compose(l) => identities_in(l),
        Term::Subtract(a, b) => identities(*a) + identities(*b),
        _ => 0,
    }
}

/// The number of identity filters in a list of terms.
pub open spec fn identities_in(l: Seq<Term>) -> nat
    decreases l,
{
    if l.len() == 0 {
        0
    } else {
        identities_in(l.drop_last()) + identities(l.last())
    }
}

/// The chain of `a` and `b`.
pub open spec fn chain(a: Term, b: Term) -> Term {
    Term::Chain(Box::new(a), Box::new(b))
}

/// The difference of `a` and `b`.
pub open spec fn subtract(a: Term, b: Term) -> Term {
    Term::Subtract(Box::new(a), Box::new(b))
}

/// A list with one more member weighs that member more.
pub proof fn lemma_weights_push(l: Seq<Term>, t: Term)
    ensures
        weights(l.push(t)) == weights(l) + weight(t),
{
    assert(l.push(t).drop_last() =~= l);
}

/// Two lists joined weigh what they weigh together.
pub proof fn lemma_weights_concat(a: Seq<Term>, b: Seq<Term>)
    ensures
        weights(a + b) == weights(a) + weights(b),
    decreases b.len(),
{
    if b.len() == 0 {
        assert(a + b =~= a);
    } else {
        assert((a + b).drop_last() =~= a + b.drop_last());
        lemma_weights_concat(a, b.drop_last());
    }
}

/// A list with one more member has that member's nodes more.
pub proof fn lemma_sizes_push(l: Seq<Term>, t: Term)
    ensures
        sizes(l.push(t)) == sizes(l) + size(t),
{
    assert(l.push(t).drop_last() =~= l);
}

/// Two lists joined have the nodes of both.
pub proof fn lemma_sizes_concat(a: Seq<Term>, b: Seq<Term>)
    ensures
        sizes(a + b) == sizes(a) + sizes(b),
    decreases b.len(),
{
    if b.len() == 0 {
        assert(a + b =~= a);
    } else {
        assert((a + b).drop_last() =~= a + b.drop_last());
        lemma_sizes_concat(a, b.drop_last());
    }
}

/// Two lists joined have the identity filters of both.
pub proof fn lemma_identities_concat(a: Seq<Term>, b: Seq<Term>)
    ensures
        identities_in(a + b) == identities_in(a) + identities_in(b),
    decreases b.len(),
{
    if b.len() == 0 {
        assert(a + b =~= a);
    } else {
        assert((a + b).drop_last() =~= a + b.drop_last());
        lemma_identities_concat(a, b.drop_last());
    }
}

/// Two lists of one length whose members have the same number of identity
/// filters place by place have the same number of them.
pub proof fn lemma_identities_pointwise(a: Seq<Term>, b: Seq<Term>)
    requires
        a.len() == b.len(),
        forall|i: int| 0 <= i < a.len() ==> identities(b[i]) == identities(a[i]),
    ensures
        identities_in(b) == identities_in(a),
    decreases a.len(),
{
    if a.len() > 0 {
        lemma_identities_pointwise(a.drop_last(), b.drop_last());
    }
}

/// Of two lists of one length in which no member of `b` is larger than the
/// member of `a` at its place, `b` is not larger than `a`.
pub proof fn lemma_sizes_pointwise(a: Seq<Term>, b: Seq<Term>)
    requires
        a.len() == b.len(),
        forall|i: int| 0 <= i < a.len() ==> size(b[i]) <= size(a[i]),
    ensures
        sizes(b) <= sizes(a),
    decreases a.len(),
{
    if a.len() > 0 {
        lemma_sizes_pointwise(a.drop_last(), b.drop_last());
    }
}

/// No member weighs more than its list.
pub proof fn lemma_weights_member(l: Seq<Term>, i: int)
    requires
        0 <= i < l.len(),
    ensures
        weight(l[i]) <= weights(l),
    decreases l.len(),
{
    if i < l.len() - 1 {
        lemma_weights_member(l.drop_last(), i);
    }
}

/// The members of a list that pass a test weigh no more than the list.
pub proof fn lemma_weights_filter(l: Seq<Term>, keep: spec_fn(Term) -> bool)
    ensures
        weights(l.filter(keep)) <= weights(l),
    decreases l.len(),
{
    reveal(Seq::filter);
    if l.len() > 0 {
        lemma_weights_filter(l.drop_last(), keep);
        lemma_weights_push(l.drop_last().filter(keep), l.last());
    }
}

} // verus!
