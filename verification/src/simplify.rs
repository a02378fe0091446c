//! The rewrite that brings a filter into its smallest form.

use vstd::prelude::*;
use crate::store::{to_filter, to_op, Filter, Op, Store};
use crate::term::{
    chain, identities, identities_in, lemma_identities_concat, lemma_identities_pointwise,
    lemma_sizes_concat, lemma_sizes_pointwise, lemma_sizes_push, lemma_weights_concat,
    lemma_weights_member, lemma_weights_push, size, sizes, subtract, weight, weights, Term,
};

verus! {

/// `l` with every union among its members replaced by that union's members.
pub open spec fn flatten_one(l: Seq<Term>) -> Seq<Term>
    decreases l.len(),
{
    if l.len() == 0 {
        l
    } else {
        match l.last() {
            Term::Compose(v) => flatten_one(l.drop_last()) + v,
            x => flatten_one(l.drop_last()).push(x),
        }
    }
}

/// Flattening never adds weight, and takes some away unless it changes
/// nothing.
pub proof fn lemma_flatten_weights(l: Seq<Term>)
    ensures
        weights(flatten_one(l)) <= weights(l),
        flatten_one(l) != l ==> weights(flatten_one(l)) < weights(l),
    decreases l.len(),
{
    if l.len() > 0 {
        let before = flatten_one(l.drop_last());
        lemma_flatten_weights(l.drop_last());
        assert(weights(l) == weights(l.drop_last()) + weight(l.last()));
        match l.last() {
            Term::Compose(v) => {
                assert(flatten_one(l) == before + v);
                assert(weight(l.last()) == 1 + weights(v));
                lemma_weights_concat(before, v);
            },
            x => {
                assert(flatten_one(l) == before.push(x));
                lemma_weights_push(before, x);
                if before == l.drop_last() {
                    assert(before.push(x) =~= l);
                }
            },
        }
    }
}

/// Every member of the flattened list weighs less than the union of `l`.
pub proof fn lemma_flatten_lighter(l: Seq<Term>)
    ensures
        forall|i: int|
            0 <= i < flatten_one(l).len() ==> weight(#[trigger] flatten_one(l)[i]) < weight(
                Term::Compose(l),
            ),
{
    lemma_flatten_weights(l);
    assert forall|i: int| 0 <= i < flatten_one(l).len() implies weight(
        #[trigger] flatten_one(l)[i],
    ) < weight(Term::Compose(l)) by {
        lemma_weights_member(flatten_one(l), i);
    }
}

/// One round of the simplifier: the rule that fits `t`, with the operands
/// simplified where the rule says so.
pub open spec fn simplify_round(t: Term) -> Term
    decreases weight(t), 0int,
{
    match t {
        Term::Compose(l) => {
            let f = flatten_one(l);
            proof {
                lemma_flatten_lighter(l);
            }
            Term::Compose(
                Seq::new(
                    f.len(),
                    |i: int|
                        if 0 <= i < f.len() {
                            simplify_of(f[i])
                        } else {
                            Term::Nop
                        },
                ),
            )
        },
        Term::Chain(a, b) => match (*a, *b) {
            (_, Term::Chain(x, y)) => chain(Term::Chain(a, x), *y),
            (Term::Prefix(x), Term::Prefix(y)) => Term::Prefix(y + x),
            (Term::Subdir(x), Term::Subdir(y)) => Term::Subdir(x + y),
            (Term::Chain(x, y), Term::Prefix(outer_path)) => match *y {
                Term::Prefix(inner_path) => {
                    proof {
                        assert(weight(*x) < weight(*a));
                    }
                    chain(simplify_of(*x), Term::Prefix(outer_path + inner_path))
                },
                _ => chain(simplify_of(*a), simplify_of(*b)),
            },
            _ => chain(simplify_of(*a), simplify_of(*b)),
        },
        Term::Subtract(a, b) => subtract(simplify_of(*a), simplify_of(*b)),
        _ => t,
    }
}

/// The smallest form of `t`: rounds of the simplifier until one changes
/// nothing. A round that changes the term makes it lighter
/// (`lemma_simplify_unfold`), so the test on the weights never fails.
pub open spec fn simplify_of(t: Term) -> Term
    decreases weight(t), 1int,
{
    let r = simplify_round(t);
    if r == t {
        t
    } else if weight(r) < weight(t) {
        simplify_of(r)
    } else {
        r
    }
}

/// Of two lists of one length in which each member of `b` is the member of
/// `a` at its place or a lighter term, `b` is `a` or lighter.
pub proof fn lemma_weights_pointwise(a: Seq<Term>, b: Seq<Term>)
    requires
        a.len() == b.len(),
        forall|i: int| 0 <= i < a.len() ==> b[i] == a[i] || weight(b[i]) < weight(a[i]),
    ensures
        a == b || weights(b) < weights(a),
    decreases a.len(),
{
    if a.len() == 0 {
        assert(a =~= b);
    } else {
        lemma_weights_pointwise(a.drop_last(), b.drop_last());
        assert(a =~= a.drop_last().push(a.last()));
        assert(b =~= b.drop_last().push(b.last()));
    }
}

/// A round of the simplifier returns its argument or a lighter term.
pub proof fn lemma_round_lighter(t: Term)
    ensures
        simplify_round(t) == t || weight(simplify_round(t)) < weight(t),
    decreases weight(t), 0int,
{
    reveal_with_fuel(weight, 3);
    match t {
        Term::Compose(l) => {
            let f = flatten_one(l);
            let g = Seq::new(
                f.len(),
                |i: int|
                    if 0 <= i < f.len() {
                        simplify_of(f[i])
                    } else {
                        Term::Nop
                    },
            );
            lemma_flatten_lighter(l);
            lemma_flatten_weights(l);
            assert forall|i: int| 0 <= i < f.len() implies g[i] == f[i] || weight(g[i]) < weight(
                f[i],
            ) by {
                lemma_simplify_lighter(f[i]);
            }
            lemma_weights_pointwise(f, g);
            assert(simplify_round(t)->Compose_0 =~= g);
            assert(simplify_round(t) == Term::Compose(g));
        },
        Term::Chain(a, b) => {
            match (*a, *b) {
                (_, Term::Chain(x, y)) => {},
                (Term::Prefix(x), Term::Prefix(y)) => {},
                (Term::Subdir(x), Term::Subdir(y)) => {},
                (Term::Chain(x, y), Term::Prefix(outer_path)) => {
                    match *y {
                        Term::Prefix(inner_path) => {
                            assert(weight(*x) < weight(*a));
                            lemma_simplify_lighter(*x);
                        },
                        _ => {
                            lemma_simplify_lighter(*a);
                            lemma_simplify_lighter(*b);
                        },
                    }
                },
                _ => {
                    lemma_simplify_lighter(*a);
                    lemma_simplify_lighter(*b);
                },
            }
        },
        Term::Subtract(a, b) => {
            lemma_simplify_lighter(*a);
            lemma_simplify_lighter(*b);
        },
        _ => {},
    }
}

/// The smallest form of `t` is `t` or lighter, and a round of the
/// simplifier leaves it unchanged.
pub proof fn lemma_simplify_lighter(t: Term)
    ensures
        simplify_of(t) == t || weight(simplify_of(t)) < weight(t),
        simplify_round(simplify_of(t)) == simplify_of(t),
    decreases weight(t), 1int,
{
    lemma_round_lighter(t);
    if simplify_round(t) != t {
        lemma_simplify_lighter(simplify_round(t));
    }
}

/// The smallest form of `t` is `t` if a round of the simplifier leaves `t`
/// unchanged, and else the smallest form of what the round returns.
pub proof fn lemma_simplify_unfold(t: Term)
    ensures
        simplify_of(t) == if simplify_round(t) == t {
            t
        } else {
            simplify_of(simplify_round(t))
        },
{
    lemma_round_lighter(t);
}

/// Flattening adds no nodes.
pub proof fn lemma_flatten_sizes(l: Seq<Term>)
    ensures
        sizes(flatten_one(l)) <= sizes(l),
    decreases l.len(),
{
    if l.len() > 0 {
        let before = flatten_one(l.drop_last());
        lemma_flatten_sizes(l.drop_last());
        match l.last() {
            Term::Compose(v) => {
                assert(flatten_one(l) == before + v);
                assert(size(l.last()) == 1 + sizes(v));
                lemma_sizes_concat(before, v);
            },
            x => {
                assert(flatten_one(l) == before.push(x));
                lemma_sizes_push(before, x);
            },
        }
    }
}

/// A round of the simplifier adds no nodes.
pub proof fn lemma_round_size(t: Term)
    ensures
        size(simplify_round(t)) <= size(t),
    decreases weight(t), 0int,
{
    reveal_with_fuel(weight, 3);
    reveal_with_fuel(size, 3);
    match t {
        Term::Compose(l) => {
            let f = flatten_one(l);
            let g = simplify_round(t)->Compose_0;
            lemma_flatten_lighter(l);
            lemma_flatten_sizes(l);
            assert forall|i: int| 0 <= i < f.len() implies size(g[i]) <= size(f[i]) by {
                lemma_simplify_size(f[i]);
            }
            lemma_sizes_pointwise(f, g);
        },
        Term::Chain(a, b) => {
            match (*a, *b) {
                (_, Term::Chain(x, y)) => {},
                (Term::Prefix(x), Term::Prefix(y)) => {},
                (Term::Subdir(x), Term::Subdir(y)) => {},
                (Term::Chain(x, y), Term::Prefix(outer_path)) => {
                    match *y {
                        Term::Prefix(inner_path) => {
                            lemma_simplify_size(*x);
                        },
                        _ => {
                            lemma_simplify_size(*a);
                            lemma_simplify_size(*b);
                        },
                    }
                },
                _ => {
                    lemma_simplify_size(*a);
                    lemma_simplify_size(*b);
                },
            }
        },
        Term::Subtract(a, b) => {
            lemma_simplify_size(*a);
            lemma_simplify_size(*b);
        },
        _ => {},
    }
}

/// The smallest form of a term has no more nodes than the term.
pub proof fn lemma_simplify_size(t: Term)
    ensures
        size(simplify_of(t)) <= size(t),
    decreases weight(t), 1int,
{
    lemma_round_lighter(t);
    lemma_round_size(t);
    if simplify_round(t) != t {
        lemma_simplify_size(simplify_round(t));
    }
}

/// Flattening keeps the identity filters.
pub proof fn lemma_flatten_identities(l: Seq<Term>)
    ensures
        identities_in(flatten_one(l)) == identities_in(l),
    decreases l.len(),
{
    if l.len() > 0 {
        let before = flatten_one(l.drop_last());
        lemma_flatten_identities(l.drop_last());
        match l.last() {
            Term::Compose(v) => {
                assert(flatten_one(l) == before + v);
                assert(identities(l.last()) == identities_in(v));
                lemma_identities_concat(before, v);
            },
            x => {
                assert(flatten_one(l) == before.push(x));
                assert(before.push(x).drop_last() =~= before);
            },
        }
    }
}

/// A round of the simplifier keeps the identity filters.
pub proof fn lemma_round_identities(t: Term)
    ensures
        identities(simplify_round(t)) == identities(t),
    decreases weight(t), 0int,
{
    reveal_with_fuel(weight, 3);
    reveal_with_fuel(identities, 3);
    match t {
        Term::Compose(l) => {
            let f = flatten_one(l);
            let g = simplify_round(t)->Compose_0;
            lemma_flatten_lighter(l);
            lemma_flatten_identities(l);
            assert forall|i: int| 0 <= i < f.len() implies identities(g[i]) == identities(
                f[i],
            ) by {
                lemma_simplify_identities(f[i]);
            }
            lemma_identities_pointwise(f, g);
        },
        Term::Chain(a, b) => {
            match (*a, *b) {
                (_, Term::Chain(x, y)) => {},
                (Term::Prefix(x), Term::Prefix(y)) => {},
                (Term::Subdir(x), Term::Subdir(y)) => {},
                (Term::Chain(x, y), Term::Prefix(outer_path)) => {
                    match *y {
                        Term::Prefix(inner_path) => {
                            lemma_simplify_identities(*x);
                        },
                        _ => {
                            lemma_simplify_identities(*a);
                            lemma_simplify_identities(*b);
                        },
                    }
                },
                _ => {
                    lemma_simplify_identities(*a);
                    lemma_simplify_identities(*b);
                },
            }
        },
        Term::Subtract(a, b) => {
            lemma_simplify_identities(*a);
            lemma_simplify_identities(*b);
        },
        _ => {},
    }
}

/// The smallest form of a term has the identity filters of the term: the
/// simplifier takes none away and adds none.
pub proof fn lemma_simplify_identities(t: Term)
    ensures
        identities(simplify_of(t)) == identities(t),
    decreases weight(t), 1int,
{
    lemma_round_lighter(t);
    lemma_round_identities(t);
    if simplify_round(t) != t {
        lemma_simplify_identities(simplify_round(t));
    }
}

/// The smallest form of a chain that starts with the identity is never the
/// smallest form of the chain's second operand: the identity stays.
pub proof fn lemma_simplify_keeps_identity(f: Term)
    ensures
        simplify_of(chain(Term::Nop, f)) != simplify_of(f),
{
    lemma_simplify_identities(chain(Term::Nop, f));
    lemma_simplify_identities(f);
    assert(identities(chain(Term::Nop, f)) == 1 + identities(f)) by {
        reveal_with_fuel(identities, 2);
    }
}

/// Simplifying twice gives what simplifying once gives.
pub proof fn lemma_simplify_idempotent(t: Term)
    ensures
        simplify_of(simplify_of(t)) == simplify_of(t),
{
    lemma_simplify_lighter(t);
}

/// The fusion of two subdirectory filters in a chain: descending into `x`
/// and from there into `y` is descending into `x` followed by `y`.
pub proof fn lemma_simplify_subdirs(x: Seq<Seq<u8>>, y: Seq<Seq<u8>>)
    ensures
        simplify_of(chain(Term::Subdir(x), Term::Subdir(y))) == Term::Subdir(x + y),
{
    reveal_with_fuel(weight, 2);
    lemma_simplify_unfold(chain(Term::Subdir(x), Term::Subdir(y)));
    lemma_simplify_unfold(Term::Subdir(x + y));
}

/// The fusion of two prefix filters in a chain: putting the selection under
/// `x` and the result under `y` is putting it under `y` followed by `x`.
pub proof fn lemma_simplify_prefixes(x: Seq<Seq<u8>>, y: Seq<Seq<u8>>)
    ensures
        simplify_of(chain(Term::Prefix(x), Term::Prefix(y))) == Term::Prefix(y + x),
{
    reveal_with_fuel(weight, 2);
    lemma_simplify_unfold(chain(Term::Prefix(x), Term::Prefix(y)));
    lemma_simplify_unfold(Term::Prefix(y + x));
}

/// `filters` with every union among its members replaced by that union's
/// members.
pub fn flatten(store: &Store, filters: &Vec<Filter>) -> (r: Vec<Filter>)
    requires
        store.wf(),
        store.contains_all(filters@),
    ensures
        store.contains_all(r@),
        store.terms(r@) == flatten_one(store.terms(filters@)),
{
    let ghost l = store.terms(filters@);
    let mut out: Vec<Filter> = Vec::new();
    let mut i: usize = 0;
    assert(store.terms(out@) =~= flatten_one(l.take(0)));
    while i < filters.len()
        invariant
            i <= filters.len(),
            store.wf(),
            store.contains_all(filters@),
            l == store.terms(filters@),
            store.contains_all(out@),
            store.terms(out@) == flatten_one(l.take(i as int)),
        decreases filters.len() - i,
    {
        let f = filters[i];
        let ghost before = store.terms(out@);
        proof {
            assert(l[i as int] == store.term(f));
            assert(l.take(i + 1).drop_last() =~= l.take(i as int));
        }
        match to_op(store, f) {
            Op::Compose(mut v) => {
                let ghost vt = store.terms(v@);
                out.append(&mut v);
                assert(store.terms(out@) =~= before + vt);
            },
            _ => {
                out.push(f);
                assert(store.terms(out@) =~= before.push(l[i as int]));
            },
        }
        i += 1;
    }
    assert(l.take(l.len() as int) =~= l);
    out
}

/// One round of the simplifier on the chain of `a` and `b`.
fn round_chain(store: &mut Store, a: Filter, b: Filter) -> (r: Filter)
    requires
        old(store).wf(),
        old(store).contains(a),
        old(store).contains(b),
    ensures
        final(store).wf(),
        final(store).extends(*old(store)),
        final(store).contains(r),
        final(store).term(r) == simplify_round(chain(old(store).term(a), old(store).term(b))),
    decreases weight(chain(old(store).term(a), old(store).term(b))), 0int,
{
    let oa = to_op(store, a);
    let ob = to_op(store, b);
    match ob {
        Op::Chain(x, y) => {
            let inner = to_filter(store, Op::Chain(a, x));
            return to_filter(store, Op::Chain(inner, y));
        },
        _ => {},
    }
    match (oa, ob) {
        (Op::Prefix(x), Op::Prefix(y)) => {
            return to_filter(store, Op::Prefix(y.join(&x)));
        },
        (Op::Subdir(x), Op::Subdir(y)) => {
            return to_filter(store, Op::Subdir(x.join(&y)));
        },
        (Op::Chain(x, y), Op::Prefix(outer_path)) => {
            match to_op(store, y) {
                Op::Prefix(inner_path) => {
                    proof {
                        reveal_with_fuel(weight, 2);
                    }
                    let x2 = simplify(store, x);
                    let p = to_filter(store, Op::Prefix(outer_path.join(&inner_path)));
                    return to_filter(store, Op::Chain(x2, p));
                },
                _ => {},
            }
        },
        _ => {},
    }
    let a2 = simplify(store, a);
    let b2 = simplify(store, b);
    to_filter(store, Op::Chain(a2, b2))
}

/// One round of the simplifier on the union of `filters`.
fn round_compose(store: &mut Store, filters: &Vec<Filter>) -> (r: Filter)
    requires
        old(store).wf(),
        old(store).contains_all(filters@),
    ensures
        final(store).wf(),
        final(store).extends(*old(store)),
        final(store).contains(r),
        final(store).term(r) == simplify_round(Term::Compose(old(store).terms(filters@))),
    decreases weight(Term::Compose(old(store).terms(filters@))), 0int,
{
    let ghost l = store.terms(filters@);
    let flat = flatten(store, filters);
    let ghost ft = store.terms(flat@);
    proof {
        lemma_flatten_lighter(l);
    }
    let mut out: Vec<Filter> = Vec::new();
    let mut k: usize = 0;
    while k < flat.len()
        invariant
            k <= flat.len(),
            store.wf(),
            store.extends(*old(store)),
            store.contains_all(flat@),
            store.terms(flat@) == ft,
            l == old(store).terms(filters@),
            forall|j: int| 0 <= j < ft.len() ==> weight(#[trigger] ft[j]) < weight(Term::Compose(l)),
            store.contains_all(out@),
            out@.len() == k,
            forall|j: int| 0 <= j < k ==> store.term(#[trigger] out@[j]) == simplify_of(ft[j]),
        decreases flat.len() - k,
    {
        let ghost prev = *store;
        let ghost before = out@;
        assert(ft[k as int] == store.term(flat@[k as int]));
        let g = simplify(store, flat[k]);
        proof {
            store.lemma_extends_terms(prev, flat@);
            store.lemma_extends_terms(prev, out@);
        }
        out.push(g);
        proof {
            assert forall|j: int| 0 <= j < k + 1 implies store.term(#[trigger] out@[j])
                == simplify_of(ft[j]) by {
                if j < k {
                    assert(out@[j] == before[j]);
                    assert(prev.term(before[j]) == simplify_of(ft[j]));
                }
            }
        }
        k += 1;
    }
    assert(ft == flatten_one(l));
    assert(store.terms(out@) =~= simplify_round(Term::Compose(l))->Compose_0);
    to_filter(store, Op::Compose(out))
}

/// The smallest form of `filter`: fewer nodes, the same structure.
pub fn simplify(store: &mut Store, filter: Filter) -> (r: Filter)
    requires
        old(store).wf(),
        old(store).contains(filter),
    ensures
        final(store).wf(),
        final(store).extends(*old(store)),
        final(store).contains(r),
        final(store).term(r) == simplify_of(old(store).term(filter)),
        simplify_of(final(store).term(r)) == final(store).term(r),
        size(final(store).term(r)) <= size(old(store).term(filter)),
        final(store).simplified_as(filter) == Some(r),
    decreases weight(old(store).term(filter)), 1int,
{
    proof {
        lemma_simplify_size(store.term(filter));
        lemma_simplify_idempotent(store.term(filter));
    }
    match store.simplified(filter) {
        Some(g) => {
            return g;
        },
        None => {},
    }
    let ghost t = store.term(filter);
    let result = match to_op(store, filter) {
        Op::Compose(filters) => round_compose(store, &filters),
        Op::Chain(a, b) => round_chain(store, a, b),
        Op::Subtract(a, b) => {
            let a2 = simplify(store, a);
            let b2 = simplify(store, b);
            to_filter(store, Op::Subtract(a2, b2))
        },
        _ => filter,
    };
    proof {
        lemma_round_lighter(t);
        lemma_simplify_unfold(t);
        store.lemma_same_term(result, filter);
    }
    let r = if result == filter {
        result
    } else {
        simplify(store, result)
    };
    store.record_simplified(filter, r, result);
    r
}

} // verus!
