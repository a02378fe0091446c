//! The rewrite that prepares a filter for evaluation, one rule at a time.

use vstd::prelude::*;
use crate::factor::{
    common_post, common_post_of, common_pre, common_pre_of, group, group_of, head_of,
    lemma_sort_weights, prefix_sort, prefix_sort_of, tail_of,
};
use crate::store::{copy_list, to_filter, to_op, Filter, Op, Store};
use crate::term::{
    chain, lemma_weights_filter, lemma_weights_member, lemma_weights_push, subtract, weight,
    weights, Term,
};

verus! {

/// `l` without the members that repeat the one just before them.
pub open spec fn dedup_of(l: Seq<Term>) -> Seq<Term>
    decreases l.len(),
{
    if l.len() == 0 {
        l
    } else {
        let before = dedup_of(l.drop_last());
        if before.len() > 0 && before.last() == l.last() {
            before
        } else {
            before.push(l.last())
        }
    }
}

/// The test for not being a member of `other`.
pub open spec fn absent_from(other: Seq<Term>) -> spec_fn(Term) -> bool {
    |x: Term| !other.contains(x)
}

/// `l` without the members that occur in `other`.
pub open spec fn without(l: Seq<Term>, other: Seq<Term>) -> Seq<Term> {
    l.filter(absent_from(other))
}

/// What `dedup_of` gives ends as its list ends and has no member that
/// repeats the one before it.
pub proof fn lemma_dedup_no_repeats(l: Seq<Term>)
    ensures
        l.len() > 0 ==> dedup_of(l).len() > 0 && dedup_of(l).last() == l.last(),
        forall|i: int| 0 < i < dedup_of(l).len() ==> dedup_of(l)[i - 1] != #[trigger] dedup_of(l)[i],
    decreases l.len(),
{
    if l.len() > 0 {
        let before = dedup_of(l.drop_last());
        let d = dedup_of(l);
        lemma_dedup_no_repeats(l.drop_last());
        assert forall|i: int| 0 < i < d.len() implies d[i - 1] != #[trigger] d[i] by {
            if i < before.len() {
                assert(before[i - 1] != before[i]);
            }
        }
    }
}

/// A list without a member that repeats the one before it is what
/// `dedup_of` gives of it.
pub proof fn lemma_dedup_without_repeats(l: Seq<Term>)
    requires
        forall|i: int| 0 < i < l.len() ==> l[i - 1] != #[trigger] l[i],
    ensures
        dedup_of(l) == l,
    decreases l.len(),
{
    if l.len() > 0 {
        lemma_dedup_without_repeats(l.drop_last());
        assert(l =~= l.drop_last().push(l.last()));
    }
}

/// Dropping repeats adds no weight.
pub proof fn lemma_dedup_weights(l: Seq<Term>)
    ensures
        weights(dedup_of(l)) <= weights(l),
    decreases l.len(),
{
    if l.len() > 0 {
        lemma_dedup_weights(l.drop_last());
        lemma_weights_push(dedup_of(l.drop_last()), l.last());
    }
}

/// The union of a list without some members weighs no more than the union
/// of the list.
pub proof fn lemma_without_lighter(l: Seq<Term>, other: Seq<Term>)
    ensures
        weight(Term::Compose(without(l, other))) <= weight(Term::Compose(l)),
{
    lemma_weights_filter(l, absent_from(other));
}

/// Every member of the sorted list without repeats weighs less than the
/// union of `l`.
pub proof fn lemma_sorted_lighter(l: Seq<Term>)
    ensures
        forall|i: int|
            0 <= i < prefix_sort_of(dedup_of(l)).len() ==> weight(
                #[trigger] prefix_sort_of(dedup_of(l))[i],
            ) < weight(Term::Compose(l)),
{
    let s = prefix_sort_of(dedup_of(l));
    lemma_dedup_weights(l);
    lemma_sort_weights(dedup_of(l));
    assert forall|i: int| 0 <= i < s.len() implies weight(#[trigger] s[i]) < weight(
        Term::Compose(l),
    ) by {
        lemma_weights_member(s, i);
    }
}

/// One step of the rewrite.
pub open spec fn step_of(t: Term) -> Term
    decreases weight(t),
{
    match t {
        Term::Subdir(p) => if p.len() > 1 {
            chain(Term::Subdir(p.take(1)), Term::Subdir(p.skip(1)))
        } else {
            t
        },
        Term::Prefix(p) => if p.len() > 1 {
            chain(Term::Prefix(p.skip(1)), Term::Prefix(p.take(1)))
        } else {
            t
        },
        Term::Compose(l) => if l.len() == 0 {
            Term::Empty
        } else if l.len() == 1 {
            l[0]
        } else {
            let d = dedup_of(l);
            match common_pre_of(d) {
                Some((common, rest)) => chain(common, Term::Compose(rest)),
                None => match common_post_of(d) {
                    Some((common, rest)) => chain(Term::Compose(rest), common),
                    None => if group_of(d).len() != d.len() {
                        Term::Compose(group_of(d).map_values(|g: Seq<Term>| Term::Compose(g)))
                    } else {
                        let s = prefix_sort_of(d);
                        proof {
                            lemma_sorted_lighter(l);
                        }
                        Term::Compose(
                            Seq::new(
                                s.len(),
                                |i: int|
                                    if 0 <= i < s.len() {
                                        step_of(s[i])
                                    } else {
                                        Term::Nop
                                    },
                            ),
                        )
                    },
                },
            }
        },
        Term::Chain(a, b) => match (*a, *b) {
            (Term::Chain(x, y), _) => chain(*x, Term::Chain(y, b)),
            (Term::Nop, _) => *b,
            (_, Term::Nop) => *a,
            _ => chain(step_of(*a), step_of(*b)),
        },
        Term::Subtract(a, b) => if a == b {
            Term::Empty
        } else {
            match (*a, *b) {
                (Term::Empty, _) => Term::Empty,
                (_, Term::Empty) => *a,
                (Term::Chain(x, y), Term::Chain(v, w)) if x == v => chain(
                    *x,
                    Term::Subtract(y, w),
                ),
                (Term::Compose(av), Term::Compose(bv)) => {
                    proof {
                        lemma_without_lighter(av, bv);
                        lemma_without_lighter(bv, av);
                    }
                    subtract(
                        step_of(Term::Compose(without(av, bv))),
                        step_of(Term::Compose(without(bv, av))),
                    )
                },
                _ => subtract(step_of(*a), step_of(*b)),
            }
        },
        _ => t,
    }
}

/// The filter that `step_of` leaves unchanged, if at most `n` steps lead
/// from `t` to it.
pub open spec fn iterate_of(t: Term, n: nat) -> Option<Term>
    decreases n,
{
    if step_of(t) == t {
        Some(t)
    } else if n == 0 {
        None
    } else {
        iterate_of(step_of(t), (n - 1) as nat)
    }
}

/// What stepping to the end gives is left unchanged by a step.
pub proof fn lemma_iterate_fixed(t: Term, n: nat)
    ensures
        iterate_of(t, n) matches Some(r) ==> step_of(r) == r,
    decreases n,
{
    if step_of(t) != t && n > 0 {
        lemma_iterate_fixed(step_of(t), (n - 1) as nat);
    }
}

/// Stepping a term that a step leaves unchanged gives that term.
pub proof fn lemma_iterate_of_fixed(t: Term, n: nat)
    requires
        step_of(t) == t,
    ensures
        iterate_of(t, n) == Some(t),
{
}

/// A chain that starts with the identity steps to its second operand.
pub proof fn lemma_step_chain_nop(f: Term)
    ensures
        step_of(chain(Term::Nop, f)) == f,
{
}

/// A filter without itself steps to the empty filter.
pub proof fn lemma_step_subtract_self(f: Term)
    ensures
        step_of(subtract(f, f)) == Term::Empty,
{
}

/// The empty filter without anything steps to the empty filter, and a
/// filter without the empty filter steps to itself.
pub proof fn lemma_step_subtract_empty(f: Term)
    ensures
        step_of(subtract(Term::Empty, f)) == Term::Empty,
        step_of(subtract(f, Term::Empty)) == f,
{
}

/// The union of nothing steps to the empty filter, and the union of one
/// filter to that filter.
pub proof fn lemma_step_compose_small(f: Term)
    ensures
        step_of(Term::Compose(Seq::empty())) == Term::Empty,
        step_of(Term::Compose(seq![f])) == f,
{
}

/// A subdirectory filter with several components steps to the chain of its
/// first component and the rest; a prefix filter to the chain of the rest
/// and its first component.
pub proof fn lemma_step_split(p: Seq<Seq<u8>>)
    requires
        p.len() > 1,
    ensures
        step_of(Term::Subdir(p)) == chain(Term::Subdir(p.take(1)), Term::Subdir(p.skip(1))),
        step_of(Term::Prefix(p)) == chain(Term::Prefix(p.skip(1)), Term::Prefix(p.take(1))),
{
}

/// The union of two chains with the same first operand and different second
/// operands steps to the chain of that operand and the union of the second
/// operands.
pub proof fn lemma_step_shared_head(a: Term, b1: Term, b2: Term)
    requires
        b1 != b2,
    ensures
        step_of(Term::Compose(seq![chain(a, b1), chain(a, b2)])) == chain(
            a,
            Term::Compose(seq![b1, b2]),
        ),
{
    let l = seq![chain(a, b1), chain(a, b2)];
    reveal_with_fuel(dedup_of, 3);
    assert(l.drop_last() =~= seq![chain(a, b1)]);
    assert(l.drop_last().drop_last() =~= Seq::<Term>::empty());
    assert(dedup_of(l.drop_last()) =~= seq![chain(a, b1)]);
    assert(dedup_of(l) =~= l);
    assert(l.map_values(|t: Term| tail_of(t)) =~= seq![b1, b2]);
    assert(head_of(l[0]) == Some(a));
    assert(head_of(l[1]) == Some(a));
    assert(common_pre_of(l) == Some((a, seq![b1, b2])));
}

impl Store {
    /// The expression that a handle stands for, if there is a handle.
    pub open spec fn option_term(&self, r: Option<Filter>) -> Option<Term> {
        match r {
            Some(f) => Some(self.term(f)),
            None => None,
        }
    }

    /// A handle occurs in a list exactly if its expression occurs among the
    /// expressions of the list.
    pub proof fn lemma_terms_contains(&self, l: Seq<Filter>, f: Filter)
        requires
            self.wf(),
            self.contains_all(l),
            self.contains(f),
        ensures
            self.terms(l).contains(self.term(f)) == l.contains(f),
    {
        if l.contains(f) {
            let k = choose|k: int| 0 <= k < l.len() && l[k] == f;
            assert(self.terms(l)[k] == self.term(f));
        }
        if self.terms(l).contains(self.term(f)) {
            let k = choose|k: int| 0 <= k < self.terms(l).len() && self.terms(l)[k] == self.term(f);
            self.lemma_same_term(l[k], f);
        }
    }
}

/// `filters` without the members that repeat the one just before them.
pub fn dedup(store: &Store, filters: &Vec<Filter>) -> (r: Vec<Filter>)
    requires
        store.wf(),
        store.contains_all(filters@),
    ensures
        store.contains_all(r@),
        store.terms(r@) == dedup_of(store.terms(filters@)),
{
    let ghost l = store.terms(filters@);
    let mut out: Vec<Filter> = Vec::new();
    let mut i: usize = 0;
    assert(store.terms(out@) =~= dedup_of(l.take(0)));
    while i < filters.len()
        invariant
            i <= filters.len(),
            store.wf(),
            store.contains_all(filters@),
            l == store.terms(filters@),
            store.contains_all(out@),
            store.terms(out@) == dedup_of(l.take(i as int)),
        decreases filters.len() - i,
    {
        let f = filters[i];
        let n: usize = out.len();
        let ghost before = store.terms(out@);
        proof {
            assert(l[i as int] == store.term(f));
            assert(l.take(i + 1).drop_last() =~= l.take(i as int));
            if n > 0 {
                store.lemma_same_term(out@[n - 1], f);
                assert(before[n - 1] == store.term(out@[n - 1]));
            }
        }
        if n == 0 || out[n - 1] != f {
            out.push(f);
            assert(store.terms(out@) =~= before.push(l[i as int]));
        }
        i += 1;
    }
    assert(l.take(l.len() as int) =~= l);
    out
}

/// Whether `f` is a member of `l`.
fn occurs(l: &Vec<Filter>, f: Filter) -> (r: bool)
    ensures
        r == l@.contains(f),
{
    let mut i: usize = 0;
    while i < l.len()
        invariant
            i <= l.len(),
            forall|k: int| 0 <= k < i ==> l@[k] != f,
        decreases l.len() - i,
    {
        if l[i] == f {
            return true;
        }
        i += 1;
    }
    false
}

/// `l` without the members that occur in `other`.
pub fn retain_absent(store: &Store, l: &Vec<Filter>, other: &Vec<Filter>) -> (r: Vec<Filter>)
    requires
        store.wf(),
        store.contains_all(l@),
        store.contains_all(other@),
    ensures
        store.contains_all(r@),
        store.terms(r@) == without(store.terms(l@), store.terms(other@)),
{
    let ghost lt = store.terms(l@);
    let ghost keep = absent_from(store.terms(other@));
    let mut out: Vec<Filter> = Vec::new();
    let mut i: usize = 0;
    proof {
        reveal(Seq::filter);
        assert(store.terms(out@) =~= lt.take(0).filter(keep));
    }
    while i < l.len()
        invariant
            i <= l.len(),
            store.wf(),
            store.contains_all(l@),
            store.contains_all(other@),
            lt == store.terms(l@),
            keep == absent_from(store.terms(other@)),
            store.contains_all(out@),
            store.terms(out@) == lt.take(i as int).filter(keep),
        decreases l.len() - i,
    {
        let f = l[i];
        let ghost before = store.terms(out@);
        proof {
            assert(lt[i as int] == store.term(f));
            assert(lt.take(i + 1) =~= lt.take(i as int).push(lt[i as int]));
            lt.take(i as int).lemma_filter_push(lt[i as int], keep);
            store.lemma_terms_contains(other@, f);
        }
        if !occurs(other, f) {
            out.push(f);
            assert(store.terms(out@) =~= before.push(lt[i as int]));
        }
        i += 1;
    }
    assert(lt.take(lt.len() as int) =~= lt);
    out
}

/// One step on the union of `filters`.
fn step_compose(store: &mut Store, filters: &Vec<Filter>) -> (r: Filter)
    requires
        old(store).wf(),
        old(store).contains_all(filters@),
    ensures
        final(store).wf(),
        final(store).extends(*old(store)),
        final(store).contains(r),
        final(store).term(r) == step_of(Term::Compose(old(store).terms(filters@))),
    decreases weight(Term::Compose(old(store).terms(filters@))), 0int,
{
    let ghost l = store.terms(filters@);
    if filters.len() == 0 {
        return to_filter(store, Op::Empty);
    }
    if filters.len() == 1 {
        assert(l[0] == store.term(filters@[0]));
        return filters[0];
    }
    let d = dedup(store, filters);
    let ghost dt = store.terms(d@);
    match common_pre(store, &d) {
        Some((common, rest)) => {
            let ghost s1 = *store;
            let c = to_filter(store, Op::Compose(rest));
            return to_filter(store, Op::Chain(common, c));
        },
        None => {},
    }
    let ghost s1 = *store;
    match common_post(store, &d) {
        Some((common, rest)) => {
            let c = to_filter(store, Op::Compose(rest));
            return to_filter(store, Op::Chain(c, common));
        },
        None => {},
    }
    proof {
        store.lemma_extends_terms(s1, d@);
    }
    let ghost s2 = *store;
    let grouped = group(store, &d);
    proof {
        store.lemma_extends_terms(s2, d@);
    }
    if grouped.len() != d.len() {
        let ghost gt = store.run_terms(grouped@);
        let mut out: Vec<Filter> = Vec::new();
        let mut k: usize = 0;
        while k < grouped.len()
            invariant
                k <= grouped.len(),
                store.wf(),
                store.extends(*old(store)),
                store.contains_runs(grouped@),
                store.run_terms(grouped@) == gt,
                store.contains_all(out@),
                out@.len() == k,
                forall|j: int| 0 <= j < k ==> store.term(#[trigger] out@[j]) == Term::Compose(gt[j]),
            decreases grouped.len() - k,
        {
            let ghost prev = *store;
            let ghost before = out@;
            assert(store.contains_all(grouped@[k as int]@));
            let g = to_filter(store, Op::Compose(copy_list(&grouped[k])));
            proof {
                store.lemma_extends_runs(prev, grouped@);
                store.lemma_extends_terms(prev, out@);
                assert(prev.terms(grouped@[k as int]@) == gt[k as int]);
            }
            out.push(g);
            proof {
                assert forall|j: int| 0 <= j < k + 1 implies store.term(#[trigger] out@[j])
                    == Term::Compose(gt[j]) by {
                    if j < k {
                        assert(out@[j] == before[j]);
                        assert(prev.term(before[j]) == Term::Compose(gt[j]));
                    }
                }
            }
            k += 1;
        }
        assert(store.terms(out@) =~= gt.map_values(|g: Seq<Term>| Term::Compose(g)));
        return to_filter(store, Op::Compose(out));
    }
    let sorted = prefix_sort(store, &d);
    let ghost st = store.terms(sorted@);
    proof {
        lemma_sorted_lighter(l);
    }
    let mut out: Vec<Filter> = Vec::new();
    let mut k: usize = 0;
    while k < sorted.len()
        invariant
            k <= sorted.len(),
            store.wf(),
            store.extends(*old(store)),
            store.contains_all(sorted@),
            store.terms(sorted@) == st,
            l == old(store).terms(filters@),
            forall|j: int| 0 <= j < st.len() ==> weight(#[trigger] st[j]) < weight(Term::Compose(l)),
            store.contains_all(out@),
            out@.len() == k,
            forall|j: int| 0 <= j < k ==> store.term(#[trigger] out@[j]) == step_of(st[j]),
        decreases sorted.len() - k,
    {
        let ghost prev = *store;
        let ghost before = out@;
        assert(st[k as int] == store.term(sorted@[k as int]));
        let g = step(store, sorted[k]);
        proof {
            store.lemma_extends_terms(prev, sorted@);
            store.lemma_extends_terms(prev, out@);
        }
        out.push(g);
        proof {
            assert forall|j: int| 0 <= j < k + 1 implies store.term(#[trigger] out@[j]) == step_of(
                st[j],
            ) by {
                if j < k {
                    assert(out@[j] == before[j]);
                    assert(prev.term(before[j]) == step_of(st[j]));
                }
            }
        }
        k += 1;
    }
    assert(st == prefix_sort_of(dedup_of(l)));
    assert(store.terms(out@) =~= step_of(Term::Compose(l))->Compose_0);
    to_filter(store, Op::Compose(out))
}

/// One step on the chain of `a` and `b`.
fn step_chain(store: &mut Store, a: Filter, b: Filter) -> (r: Filter)
    requires
        old(store).wf(),
        old(store).contains(a),
        old(store).contains(b),
    ensures
        final(store).wf(),
        final(store).extends(*old(store)),
        final(store).contains(r),
        final(store).term(r) == step_of(chain(old(store).term(a), old(store).term(b))),
    decreases weight(chain(old(store).term(a), old(store).term(b))), 0int,
{
    match to_op(store, a) {
        Op::Chain(x, y) => {
            let inner = to_filter(store, Op::Chain(y, b));
            return to_filter(store, Op::Chain(x, inner));
        },
        Op::Nop => {
            return b;
        },
        _ => {},
    }
    match to_op(store, b) {
        Op::Nop => {
            return a;
        },
        _ => {},
    }
    let a2 = step(store, a);
    let b2 = step(store, b);
    to_filter(store, Op::Chain(a2, b2))
}

/// One step on the difference of `a` and `b`.
fn step_subtract(store: &mut Store, a: Filter, b: Filter) -> (r: Filter)
    requires
        old(store).wf(),
        old(store).contains(a),
        old(store).contains(b),
    ensures
        final(store).wf(),
        final(store).extends(*old(store)),
        final(store).contains(r),
        final(store).term(r) == step_of(subtract(old(store).term(a), old(store).term(b))),
    decreases weight(subtract(old(store).term(a), old(store).term(b))), 0int,
{
    proof {
        store.lemma_same_term(a, b);
    }
    if a == b {
        return to_filter(store, Op::Empty);
    }
    let oa = to_op(store, a);
    let ob = to_op(store, b);
    match oa {
        Op::Empty => {
            return to_filter(store, Op::Empty);
        },
        _ => {},
    }
    match ob {
        Op::Empty => {
            return a;
        },
        _ => {},
    }
    match (oa, ob) {
        (Op::Chain(x, y), Op::Chain(v, w)) => {
            proof {
                store.lemma_same_term(x, v);
            }
            if x == v {
                let inner = to_filter(store, Op::Subtract(y, w));
                return to_filter(store, Op::Chain(x, inner));
            }
        },
        (Op::Compose(av), Op::Compose(bv)) => {
            let ghost at = store.terms(av@);
            let ghost bt = store.terms(bv@);
            let av2 = retain_absent(store, &av, &bv);
            let bv2 = retain_absent(store, &bv, &av);
            proof {
                lemma_without_lighter(at, bt);
                lemma_without_lighter(bt, at);
            }
            let ghost s1 = *store;
            let ca = to_filter(store, Op::Compose(av2));
            let sa = step(store, ca);
            proof {
                store.lemma_extends_terms(s1, bv2@);
            }
            let cb = to_filter(store, Op::Compose(bv2));
            let sb = step(store, cb);
            return to_filter(store, Op::Subtract(sa, sb));
        },
        _ => {},
    }
    let a2 = step(store, a);
    let b2 = step(store, b);
    to_filter(store, Op::Subtract(a2, b2))
}

/// Applies one rule of the rewrite to `filter`; where none fits, `filter`
/// comes back.
pub fn step(store: &mut Store, filter: Filter) -> (r: Filter)
    requires
        old(store).wf(),
        old(store).contains(filter),
    ensures
        final(store).wf(),
        final(store).extends(*old(store)),
        final(store).contains(r),
        final(store).term(r) == step_of(old(store).term(filter)),
        final(store).stepped_as(filter) == Some(r),
    decreases weight(old(store).term(filter)), 1int,
{
    match store.stepped(filter) {
        Some(g) => {
            return g;
        },
        None => {},
    }
    let result = match to_op(store, filter) {
        Op::Subdir(path) => {
            if path.len() > 1 {
                let a = to_filter(store, Op::Subdir(path.head()));
                let b = to_filter(store, Op::Subdir(path.tail()));
                to_filter(store, Op::Chain(a, b))
            } else {
                filter
            }
        },
        Op::Prefix(path) => {
            if path.len() > 1 {
                let a = to_filter(store, Op::Prefix(path.tail()));
                let b = to_filter(store, Op::Prefix(path.head()));
                to_filter(store, Op::Chain(a, b))
            } else {
                filter
            }
        },
        Op::Compose(filters) => step_compose(store, &filters),
        Op::Chain(a, b) => step_chain(store, a, b),
        Op::Subtract(a, b) => step_subtract(store, a, b),
        _ => filter,
    };
    store.record_stepped(filter, result);
    result
}

/// Applies `step` until it returns its argument, and gives that filter; or
/// nothing, if more steps than the store's limit would be needed.
pub fn iterate(store: &mut Store, filter: Filter) -> (r: Option<Filter>)
    requires
        old(store).wf(),
        old(store).contains(filter),
    ensures
        final(store).wf(),
        final(store).extends(*old(store)),
        r matches Some(g) ==> final(store).contains(g),
        final(store).option_term(r) == iterate_of(
            old(store).term(filter),
            old(store).step_limit(),
        ),
        r matches Some(g) ==> step_of(final(store).term(g)) == final(store).term(g),
{
    proof {
        lemma_iterate_fixed(store.term(filter), store.step_limit());
    }
    let mut cur = filter;
    let mut left: usize = store.limit();
    loop
        invariant
            store.wf(),
            store.extends(*old(store)),
            store.contains(cur),
            iterate_of(old(store).term(filter), old(store).step_limit()) == iterate_of(
                store.term(cur),
                left as nat,
            ),
        decreases left,
    {
        let ghost prev = *store;
        let next = step(store, cur);
        proof {
            store.lemma_same_term(next, cur);
        }
        if next == cur {
            return Some(next);
        }
        if left == 0 {
            return None;
        }
        left -= 1;
        cur = next;
    }
}

} // verus!
