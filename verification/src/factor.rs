//! Finding structure that the members of a list of filters share.

use vstd::prelude::*;
use crate::path::{lemma_path_le_total, lemma_path_le_transitive, path_le, Path};
use crate::store::{copy_list, to_filter, to_op, Filter, Op, Store};
use crate::term::{lemma_weights_push, weight, weights, Term};

verus! {

/// Unwinds the chain `t`: the filters before its last member, chained
/// behind `rest`, and its last member.
pub open spec fn last_chain_of(rest: Term, t: Term) -> (Term, Term)
    decreases t,
{
    match t {
        Term::Chain(a, b) => last_chain_of(Term::Chain(Box::new(rest), a), *b),
        _ => (rest, t),
    }
}

/// The first operand of a chain.
pub open spec fn head_of(t: Term) -> Option<Term> {
    match t {
        Term::Chain(a, _) => Some(*a),
        _ => None,
    }
}

/// The second operand of a chain; of another term, the term itself.
pub open spec fn tail_of(t: Term) -> Term {
    match t {
        Term::Chain(_, b) => *b,
        _ => t,
    }
}

/// The last member of the chain `t`.
pub open spec fn leaf_of(t: Term) -> Term {
    last_chain_of(Term::Nop, t).1
}

/// What comes before the last member of the chain `t`, chained behind the
/// identity.
pub open spec fn front_of(t: Term) -> Term {
    last_chain_of(Term::Nop, t).0
}

/// The first operand that all members of `l` share and what follows it in
/// each, if `l` is not empty and every member is a chain with that first
/// operand.
pub open spec fn common_pre_of(l: Seq<Term>) -> Option<(Term, Seq<Term>)> {
    if l.len() > 0 && l[0] is Chain && (forall|i: int|
        0 <= i < l.len() ==> head_of(#[trigger] l[i]) == head_of(l[0])) {
        Some((head_of(l[0])->0, l.map_values(|t: Term| tail_of(t))))
    } else {
        None
    }
}

/// The last member that all members of `l` share and what comes before it
/// in each, if `l` is not empty, every member ends in the same filter and
/// that filter is not the identity.
pub open spec fn common_post_of(l: Seq<Term>) -> Option<(Term, Seq<Term>)> {
    if l.len() > 0 && leaf_of(l[0]) != Term::Nop && (forall|i: int|
        0 <= i < l.len() ==> leaf_of(#[trigger] l[i]) == leaf_of(l[0])) {
        Some((leaf_of(l[0]), l.map_values(|t: Term| front_of(t))))
    } else {
        None
    }
}

/// Whether `b` belongs in the run that `a` opened: by their last members if
/// `by_leaf`, else by their first operands, which only chains have.
pub open spec fn alike(by_leaf: bool, a: Term, b: Term) -> bool {
    if by_leaf {
        leaf_of(a) == leaf_of(b)
    } else {
        a is Chain && b is Chain && head_of(a) == head_of(b)
    }
}

/// The partition of `l` into runs, in order: a member joins the last run if
/// it is alike to that run's first member, else it opens a new run.
pub open spec fn runs_of(l: Seq<Term>, by_leaf: bool) -> Seq<Seq<Term>>
    decreases l.len(),
{
    if l.len() == 0 {
        Seq::empty()
    } else {
        let before = runs_of(l.drop_last(), by_leaf);
        if before.len() > 0 && alike(by_leaf, before.last()[0], l.last()) {
            before.drop_last().push(before.last().push(l.last()))
        } else {
            before.push(seq![l.last()])
        }
    }
}

/// The runs of `l` by first operand; if that puts every member on its own,
/// the runs by last member.
pub open spec fn group_of(l: Seq<Term>) -> Seq<Seq<Term>> {
    if runs_of(l, false).len() != l.len() {
        runs_of(l, false)
    } else {
        runs_of(l, true)
    }
}

/// The path by which a filter is sorted: that of the subdirectory filter
/// that a chain starts with.
pub open spec fn sort_key(t: Term) -> Option<Seq<Seq<u8>>> {
    match t {
        Term::Chain(a, _) => match *a {
            Term::Subdir(p) => Some(p),
            _ => None,
        },
        _ => None,
    }
}

/// `s` with `t` put behind the last member whose path does not come after
/// that of `t`.
pub open spec fn insert_by_path(s: Seq<Term>, t: Term) -> Seq<Term>
    decreases s.len(),
{
    if s.len() == 0 {
        seq![t]
    } else if path_le(sort_key(s.last())->0, sort_key(t)->0) {
        s.push(t)
    } else {
        insert_by_path(s.drop_last(), t).push(s.last())
    }
}

/// `l` in the order of its members' paths; members with the same path keep
/// their order.
pub open spec fn sort_by_path(l: Seq<Term>) -> Seq<Term>
    decreases l.len(),
{
    if l.len() == 0 {
        l
    } else {
        insert_by_path(sort_by_path(l.drop_last()), l.last())
    }
}

/// `l` sorted by path if every member has one, else `l` as it is.
pub open spec fn prefix_sort_of(l: Seq<Term>) -> Seq<Term> {
    if forall|i: int| 0 <= i < l.len() ==> sort_key(#[trigger] l[i]) is Some {
        sort_by_path(l)
    } else {
        l
    }
}

/// Inserting a member adds its weight and one to the length.
pub proof fn lemma_insert_weights(s: Seq<Term>, t: Term)
    ensures
        weights(insert_by_path(s, t)) == weights(s) + weight(t),
        insert_by_path(s, t).len() == s.len() + 1,
    decreases s.len(),
{
    if s.len() == 0 {
        assert(seq![t] =~= Seq::<Term>::empty().push(t));
        lemma_weights_push(Seq::empty(), t);
        assert(s =~= Seq::<Term>::empty());
    } else if path_le(sort_key(s.last())->0, sort_key(t)->0) {
        lemma_weights_push(s, t);
    } else {
        lemma_insert_weights(s.drop_last(), t);
        lemma_weights_push(insert_by_path(s.drop_last(), t), s.last());
    }
}

/// Sorting keeps the weight and the length.
pub proof fn lemma_sort_weights(l: Seq<Term>)
    ensures
        weights(prefix_sort_of(l)) == weights(l),
        weights(sort_by_path(l)) == weights(l),
        prefix_sort_of(l).len() == l.len(),
        sort_by_path(l).len() == l.len(),
    decreases l.len(),
{
    if l.len() > 0 {
        lemma_sort_weights(l.drop_last());
        lemma_insert_weights(sort_by_path(l.drop_last()), l.last());
    }
}

/// Whether `r` cuts `l` into runs: joined in order the runs give `l`, none
/// is empty, every member of a run is alike to the run's first member, and
/// the first member of a run is not alike to that of the run before it.
pub open spec fn cuts_into_runs(r: Seq<Seq<Term>>, l: Seq<Term>, by_leaf: bool) -> bool {
    &&& r.flatten() == l
    &&& forall|i: int| 0 <= i < r.len() ==> (#[trigger] r[i]).len() > 0
    &&& forall|i: int, j: int|
        0 <= i < r.len() && 0 < j < r[i].len() ==> alike(by_leaf, r[i][0], #[trigger] r[i][j])
    &&& forall|i: int| 0 < i < r.len() ==> !alike(by_leaf, r[i - 1][0], (#[trigger] r[i])[0])
}

/// `runs_of` cuts its list into runs.
pub proof fn lemma_runs_cut(l: Seq<Term>, by_leaf: bool)
    ensures
        cuts_into_runs(runs_of(l, by_leaf), l, by_leaf),
    decreases l.len(),
{
    let r = runs_of(l, by_leaf);
    if l.len() == 0 {
        assert(r.flatten() =~= l);
    } else {
        let before = runs_of(l.drop_last(), by_leaf);
        let x = l.last();
        lemma_runs_cut(l.drop_last(), by_leaf);
        before.lemma_flatten_and_flatten_alt_are_equivalent();
        r.lemma_flatten_and_flatten_alt_are_equivalent();
        if before.len() > 0 && alike(by_leaf, before.last()[0], x) {
            assert(r.drop_last() =~= before.drop_last());
            assert(r.last() == before.last().push(x));
            assert(r.flatten_alt() =~= before.flatten_alt().push(x));
            assert(l =~= l.drop_last().push(x));
            assert forall|i: int, j: int| 0 <= i < r.len() && 0 < j < r[i].len() implies alike(
                by_leaf,
                r[i][0],
                #[trigger] r[i][j],
            ) by {
                if i < r.len() - 1 {
                    assert(r[i] == before[i]);
                } else if j < before.last().len() {
                    assert(r[i][j] == before[i][j]);
                }
            }
            assert forall|i: int| 0 < i < r.len() implies !alike(
                by_leaf,
                r[i - 1][0],
                (#[trigger] r[i])[0],
            ) by {
                assert(r[i - 1] == before[i - 1]);
                assert(r[i][0] == before[i][0]);
            }
        } else {
            assert(r.drop_last() =~= before);
            assert(r.flatten_alt() =~= before.flatten_alt() + seq![x]);
            assert(l =~= l.drop_last() + seq![x]);
            assert forall|i: int, j: int| 0 <= i < r.len() && 0 < j < r[i].len() implies alike(
                by_leaf,
                r[i][0],
                #[trigger] r[i][j],
            ) by {
                if i < r.len() - 1 {
                    assert(r[i] == before[i]);
                }
            }
            assert forall|i: int| 0 < i < r.len() implies !alike(
                by_leaf,
                r[i - 1][0],
                (#[trigger] r[i])[0],
            ) by {
                assert(r[i - 1] == before[i - 1]);
                if i < r.len() - 1 {
                    assert(r[i] == before[i]);
                }
            }
        }
    }
}

/// `group_of` cuts its list into runs by first operand, or, where that puts
/// every member on its own, into runs by last member.
pub proof fn lemma_group_cut(l: Seq<Term>)
    ensures
        cuts_into_runs(group_of(l), l, runs_of(l, false).len() == l.len()),
{
    lemma_runs_cut(l, false);
    lemma_runs_cut(l, true);
}

/// Whether the path of `a` does not come after that of `b`.
pub open spec fn key_le(a: Term, b: Term) -> bool {
    path_le(sort_key(a)->0, sort_key(b)->0)
}

/// Whether no member's path comes after that of a later member.
pub open spec fn sorted_by_path(s: Seq<Term>) -> bool {
    forall|i: int, j: int| 0 <= i < j < s.len() ==> key_le(#[trigger] s[i], #[trigger] s[j])
}

/// The test for having the path `p`.
pub open spec fn has_path(p: Seq<Seq<u8>>) -> spec_fn(Term) -> bool {
    |t: Term| sort_key(t)->0 == p
}

/// Inserting into a sorted list gives a sorted list of the same members
/// and the new one.
pub proof fn lemma_insert_sorted(s: Seq<Term>, t: Term)
    requires
        sorted_by_path(s),
    ensures
        sorted_by_path(insert_by_path(s, t)),
        insert_by_path(s, t).len() == s.len() + 1,
        forall|i: int|
            0 <= i < insert_by_path(s, t).len() ==> (#[trigger] insert_by_path(s, t)[i]) == t
                || s.contains(insert_by_path(s, t)[i]),
    decreases s.len(),
{
    let r = insert_by_path(s, t);
    if s.len() == 0 {
    } else if key_le(s.last(), t) {
        assert forall|i: int, j: int| 0 <= i < j < r.len() implies key_le(
            #[trigger] r[i],
            #[trigger] r[j],
        ) by {
            if j == s.len() && i < s.len() - 1 {
                assert(key_le(s[i], s[s.len() - 1]));
                lemma_path_le_transitive(
                    sort_key(s[i])->0,
                    sort_key(s.last())->0,
                    sort_key(t)->0,
                    0,
                );
            }
        }
        assert forall|i: int| 0 <= i < r.len() implies (#[trigger] r[i]) == t || s.contains(
            r[i],
        ) by {
            if i < s.len() {
                assert(s[i] == r[i]);
            }
        }
    } else {
        let shorter = s.drop_last();
        let inner = insert_by_path(shorter, t);
        assert forall|i: int, j: int| 0 <= i < j < shorter.len() implies key_le(
            #[trigger] shorter[i],
            #[trigger] shorter[j],
        ) by {
            assert(key_le(s[i], s[j]));
        }
        lemma_insert_sorted(shorter, t);
        lemma_path_le_total(sort_key(s.last())->0, sort_key(t)->0, 0);
        assert forall|i: int| 0 <= i < r.len() implies (#[trigger] r[i]) == t || s.contains(
            r[i],
        ) by {
            if i < inner.len() {
                assert(r[i] == inner[i]);
                if inner[i] != t {
                    let k = choose|k: int| 0 <= k < shorter.len() && shorter[k] == inner[i];
                    assert(s[k] == r[i]);
                }
            } else {
                assert(s[s.len() - 1] == r[i]);
            }
        }
        assert forall|i: int, j: int| 0 <= i < j < r.len() implies key_le(
            #[trigger] r[i],
            #[trigger] r[j],
        ) by {
            if j < inner.len() {
                assert(key_le(inner[i], inner[j]));
            } else {
                assert(r[i] == inner[i]);
                if inner[i] != t {
                    let k = choose|k: int| 0 <= k < shorter.len() && shorter[k] == inner[i];
                    assert(key_le(s[k], s[s.len() - 1]));
                }
            }
        }
    }
}

/// Inserting `t` puts it behind the members with its path and leaves the
/// members with another path `p` as they were.
pub proof fn lemma_insert_stable(s: Seq<Term>, t: Term, p: Seq<Seq<u8>>)
    ensures
        insert_by_path(s, t).filter(has_path(p)) == if sort_key(t)->0 == p {
            s.filter(has_path(p)).push(t)
        } else {
            s.filter(has_path(p))
        },
    decreases s.len(),
{
    let keep = has_path(p);
    if s.len() == 0 {
        assert(seq![t] =~= s.push(t));
        s.lemma_filter_push(t, keep);
    } else if key_le(s.last(), t) {
        s.lemma_filter_push(t, keep);
    } else {
        let shorter = s.drop_last();
        lemma_insert_stable(shorter, t, p);
        insert_by_path(shorter, t).lemma_filter_push(s.last(), keep);
        shorter.lemma_filter_push(s.last(), keep);
        assert(s =~= shorter.push(s.last()));
        lemma_path_le_total(sort_key(t)->0, sort_key(t)->0, 0);
    }
}

/// Sorting gives a sorted list.
pub proof fn lemma_sort_sorted(l: Seq<Term>)
    ensures
        sorted_by_path(sort_by_path(l)),
    decreases l.len(),
{
    if l.len() > 0 {
        lemma_sort_sorted(l.drop_last());
        lemma_insert_sorted(sort_by_path(l.drop_last()), l.last());
    }
}

/// Sorting keeps the members with one path, and their order.
pub proof fn lemma_sort_stable(l: Seq<Term>, p: Seq<Seq<u8>>)
    ensures
        sort_by_path(l).filter(has_path(p)) == l.filter(has_path(p)),
    decreases l.len(),
{
    if l.len() > 0 {
        lemma_sort_stable(l.drop_last(), p);
        lemma_insert_stable(sort_by_path(l.drop_last()), l.last(), p);
        l.drop_last().lemma_filter_push(l.last(), has_path(p));
        assert(l =~= l.drop_last().push(l.last()));
    }
}

/// Where `insert_by_path` puts `t`: behind the last member whose path does
/// not come after that of `t`.
pub proof fn lemma_insert_position(s: Seq<Term>, t: Term, j: int)
    requires
        0 <= j <= s.len(),
        j == 0 || path_le(sort_key(s[j - 1])->0, sort_key(t)->0),
        forall|k: int| j <= k < s.len() ==> !path_le(sort_key(#[trigger] s[k])->0, sort_key(t)->0),
    ensures
        insert_by_path(s, t) == s.insert(j, t),
    decreases s.len(),
{
    if s.len() == 0 {
        assert(s.insert(j, t) =~= seq![t]);
    } else if j == s.len() {
        assert(s.insert(j, t) =~= s.push(t));
    } else {
        assert(!path_le(sort_key(s.last())->0, sort_key(t)->0));
        lemma_insert_position(s.drop_last(), t, j);
        assert(s.insert(j, t) =~= s.drop_last().insert(j, t).push(s.last()));
    }
}

impl Store {
    /// The expressions that a shared operand and a list of handles stand for.
    pub open spec fn pair_terms(&self, r: Option<(Filter, Vec<Filter>)>) -> Option<
        (Term, Seq<Term>),
    > {
        match r {
            Some((c, rest)) => Some((self.term(c), self.terms(rest@))),
            None => None,
        }
    }

    /// The expressions that lists of handles stand for.
    pub open spec fn run_terms(&self, r: Seq<Vec<Filter>>) -> Seq<Seq<Term>> {
        Seq::new(r.len(), |i: int| self.terms(r[i]@))
    }

    /// Whether every member of every list is a handle of this store.
    pub open spec fn contains_runs(&self, r: Seq<Vec<Filter>>) -> bool {
        forall|i: int| 0 <= i < r.len() ==> self.contains_all(#[trigger] r[i]@)
    }

    /// Lists of handles of `old` stand in a store that extends `old` for the
    /// expressions they stood for there.
    pub proof fn lemma_extends_runs(&self, old: Store, r: Seq<Vec<Filter>>)
        requires
            self.extends(old),
            old.contains_runs(r),
        ensures
            self.contains_runs(r),
            self.run_terms(r) == old.run_terms(r),
    {
        assert forall|i: int| 0 <= i < r.len() implies self.contains_all(#[trigger] r[i]@)
            && self.terms(r[i]@) == old.terms(r[i]@) by {
            self.lemma_extends_terms(old, r[i]@);
        }
        assert(self.run_terms(r) =~= old.run_terms(r));
    }
}

/// Unwinds the chain `filter`: the handle of the filters before its last
/// member, chained behind `rest`, and the handle of its last member.
pub fn last_chain(store: &mut Store, rest: Filter, filter: Filter) -> (r: (Filter, Filter))
    requires
        old(store).wf(),
        old(store).contains(rest),
        old(store).contains(filter),
    ensures
        final(store).wf(),
        final(store).extends(*old(store)),
        final(store).contains(r.0),
        final(store).contains(r.1),
        (final(store).term(r.0), final(store).term(r.1)) == last_chain_of(
            old(store).term(rest),
            old(store).term(filter),
        ),
    decreases weight(old(store).term(filter)),
{
    match to_op(store, filter) {
        Op::Chain(a, b) => {
            let next = to_filter(store, Op::Chain(rest, a));
            last_chain(store, next, b)
        },
        _ => (rest, filter),
    }
}

/// The first operand that all of `filters` share and what follows it in
/// each, if there is one.
pub fn common_pre(store: &Store, filters: &Vec<Filter>) -> (r: Option<(Filter, Vec<Filter>)>)
    requires
        store.wf(),
        store.contains_all(filters@),
    ensures
        store.pair_terms(r) == common_pre_of(store.terms(filters@)),
        r matches Some((c, rest)) ==> store.contains(c) && store.contains_all(rest@),
{
    let ghost l = store.terms(filters@);
    let mut rest: Vec<Filter> = Vec::new();
    let mut c: Option<Filter> = None;
    let mut i: usize = 0;
    while i < filters.len()
        invariant
            i <= filters.len(),
            store.wf(),
            store.contains_all(filters@),
            l == store.terms(filters@),
            store.contains_all(rest@),
            rest@.len() == i,
            (i == 0) == (c is None),
            c matches Some(x) ==> store.contains(x) && l[0] is Chain && head_of(l[0]) == Some(
                store.term(x),
            ),
            forall|k: int| 0 <= k < i ==> head_of(#[trigger] l[k]) == head_of(l[0]),
            forall|k: int| 0 <= k < i ==> store.term(#[trigger] rest@[k]) == tail_of(l[k]),
        decreases filters.len() - i,
    {
        let f = filters[i];
        assert(l[i as int] == store.term(f));
        match to_op(store, f) {
            Op::Chain(a, b) => {
                rest.push(b);
                match c {
                    None => {
                        c = Some(a);
                    },
                    Some(x) => {
                        proof {
                            store.lemma_same_term(x, a);
                        }
                        if x != a {
                            assert(head_of(l[i as int]) != head_of(l[0]));
                            return None;
                        }
                    },
                }
            },
            _ => {
                assert(!(l[i as int] is Chain));
                assert(head_of(l[i as int]) is None);
                return None;
            },
        }
        i += 1;
    }
    match c {
        Some(x) => {
            assert(store.terms(rest@) =~= l.map_values(|t: Term| tail_of(t)));
            Some((x, rest))
        },
        None => None,
    }
}

/// The last member that all of `filters` share and what comes before it in
/// each, if there is one and it is not the identity.
pub fn common_post(store: &mut Store, filters: &Vec<Filter>) -> (r: Option<(Filter, Vec<Filter>)>)
    requires
        old(store).wf(),
        old(store).contains_all(filters@),
    ensures
        final(store).wf(),
        final(store).extends(*old(store)),
        final(store).pair_terms(r) == common_post_of(old(store).terms(filters@)),
        r matches Some((c, rest)) ==> final(store).contains(c) && final(store).contains_all(rest@),
{
    let ghost l = store.terms(filters@);
    let nop = to_filter(store, Op::Nop);
    proof {
        store.lemma_extends_terms(*old(store), filters@);
    }
    let mut rest: Vec<Filter> = Vec::new();
    let mut c: Option<Filter> = None;
    let mut i: usize = 0;
    while i < filters.len()
        invariant
            i <= filters.len(),
            store.wf(),
            store.extends(*old(store)),
            store.contains_all(filters@),
            store.contains(nop),
            store.term(nop) == Term::Nop,
            l == old(store).terms(filters@),
            l == store.terms(filters@),
            store.contains_all(rest@),
            rest@.len() == i,
            (i == 0) == (c is None),
            c matches Some(x) ==> store.contains(x) && leaf_of(l[0]) == store.term(x),
            forall|k: int| 0 <= k < i ==> leaf_of(#[trigger] l[k]) == leaf_of(l[0]),
            forall|k: int| 0 <= k < i ==> store.term(#[trigger] rest@[k]) == front_of(l[k]),
        decreases filters.len() - i,
    {
        let f = filters[i];
        assert(l[i as int] == store.term(f));
        let ghost prev = *store;
        let (a, b) = last_chain(store, nop, f);
        proof {
            store.lemma_extends_terms(prev, filters@);
            store.lemma_extends_terms(prev, rest@);
        }
        rest.push(a);
        match c {
            None => {
                c = Some(b);
            },
            Some(x) => {
                proof {
                    store.lemma_same_term(x, b);
                }
                if x != b {
                    assert(leaf_of(l[i as int]) != leaf_of(l[0]));
                    return None;
                }
            },
        }
        i += 1;
    }
    match c {
        Some(x) => {
            proof {
                store.lemma_same_term(x, nop);
            }
            if x == nop {
                None
            } else {
                assert(store.terms(rest@) =~= l.map_values(|t: Term| front_of(t)));
                Some((x, rest))
            }
        },
        None => None,
    }
}

/// Whether `b` belongs in the run that `a` opened.
fn alike_filters(store: &mut Store, by_leaf: bool, a: Filter, b: Filter) -> (r: bool)
    requires
        old(store).wf(),
        old(store).contains(a),
        old(store).contains(b),
    ensures
        final(store).wf(),
        final(store).extends(*old(store)),
        r == alike(by_leaf, old(store).term(a), old(store).term(b)),
{
    if by_leaf {
        let nop = to_filter(store, Op::Nop);
        let (_, x) = last_chain(store, nop, a);
        let (_, y) = last_chain(store, nop, b);
        proof {
            store.lemma_same_term(x, y);
        }
        x == y
    } else {
        match to_op(store, a) {
            Op::Chain(x, _) => match to_op(store, b) {
                Op::Chain(y, _) => {
                    proof {
                        store.lemma_same_term(x, y);
                    }
                    x == y
                },
                _ => false,
            },
            _ => false,
        }
    }
}

/// The partition of `filters` into runs of filters that are alike.
fn runs(store: &mut Store, filters: &Vec<Filter>, by_leaf: bool) -> (r: Vec<Vec<Filter>>)
    requires
        old(store).wf(),
        old(store).contains_all(filters@),
    ensures
        final(store).wf(),
        final(store).extends(*old(store)),
        final(store).contains_runs(r@),
        final(store).run_terms(r@) == runs_of(old(store).terms(filters@), by_leaf),
{
    let ghost l = store.terms(filters@);
    let mut res: Vec<Vec<Filter>> = Vec::new();
    let mut i: usize = 0;
    assert(store.run_terms(res@) =~= runs_of(l.take(0), by_leaf));
    while i < filters.len()
        invariant
            i <= filters.len(),
            store.wf(),
            store.extends(*old(store)),
            store.contains_all(filters@),
            l == store.terms(filters@),
            store.contains_runs(res@),
            forall|k: int| 0 <= k < res@.len() ==> (#[trigger] res@[k])@.len() > 0,
            store.run_terms(res@) == runs_of(l.take(i as int), by_leaf),
        decreases filters.len() - i,
    {
        let f = filters[i];
        assert(l[i as int] == store.term(f));
        assert(l.take(i + 1).drop_last() =~= l.take(i as int));
        assert(l.take(i + 1).last() == l[i as int]);
        let ghost before = runs_of(l.take(i as int), by_leaf);
        let mut joined = false;
        if res.len() > 0 {
            let first = res[res.len() - 1][0];
            assert(store.contains_all(res@[res@.len() - 1]@));
            assert(store.run_terms(res@)[res@.len() - 1][0] == store.term(first));
            let ghost prev = *store;
            let same = alike_filters(store, by_leaf, first, f);
            proof {
                store.lemma_extends_terms(prev, filters@);
                store.lemma_extends_runs(prev, res@);
            }
            if same {
                let ghost old_res = res@;
                let mut g = res.pop().unwrap();
                g.push(f);
                res.push(g);
                joined = true;
                assert(store.run_terms(res@) =~= before.drop_last().push(before.last().push(l[i as int]))) by {
                    assert forall|k: int| 0 <= k < res@.len() implies store.run_terms(res@)[k]
                        =~= before.drop_last().push(before.last().push(l[i as int]))[k] by {
                        if k < res@.len() - 1 {
                            assert(res@[k] == old_res[k]);
                            assert(store.run_terms(old_res)[k] == before[k]);
                        } else {
                            assert(store.run_terms(old_res)[k] == before[k]);
                        }
                    }
                }
            }
        }
        if !joined {
            let ghost old_res = res@;
            let mut g: Vec<Filter> = Vec::new();
            g.push(f);
            res.push(g);
            assert(store.run_terms(res@) =~= before.push(seq![l[i as int]])) by {
                assert forall|k: int| 0 <= k < res@.len() implies store.run_terms(res@)[k]
                    =~= before.push(seq![l[i as int]])[k] by {
                    if k < res@.len() - 1 {
                        assert(res@[k] == old_res[k]);
                        assert(store.run_terms(old_res)[k] == before[k]);
                    }
                }
            }
        }
        i += 1;
    }
    assert(l.take(l.len() as int) =~= l);
    res
}

/// The partition of `filters` into runs of filters that share their first
/// operand; if no two do, into runs of filters that share their last member.
pub fn group(store: &mut Store, filters: &Vec<Filter>) -> (r: Vec<Vec<Filter>>)
    requires
        old(store).wf(),
        old(store).contains_all(filters@),
    ensures
        final(store).wf(),
        final(store).extends(*old(store)),
        final(store).contains_runs(r@),
        final(store).run_terms(r@) == group_of(old(store).terms(filters@)),
{
    let res = runs(store, filters, false);
    if res.len() != filters.len() {
        return res;
    }
    let ghost prev = *store;
    proof {
        store.lemma_extends_terms(*old(store), filters@);
    }
    let res = runs(store, filters, true);
    res
}

/// The path by which `f` is sorted, if it has one.
fn sort_path(store: &Store, f: Filter) -> (r: Option<Path>)
    requires
        store.wf(),
        store.contains(f),
    ensures
        match r {
            Some(p) => sort_key(store.term(f)) == Some(p@),
            None => sort_key(store.term(f)) is None,
        },
{
    match to_op(store, f) {
        Op::Chain(a, _) => match to_op(store, a) {
            Op::Subdir(p) => Some(p),
            _ => None,
        },
        _ => None,
    }
}

/// `filters` in the order of the paths of the subdirectory filters they
/// start with, if each of them starts with one; else `filters` as it is.
pub fn prefix_sort(store: &Store, filters: &Vec<Filter>) -> (r: Vec<Filter>)
    requires
        store.wf(),
        store.contains_all(filters@),
    ensures
        store.contains_all(r@),
        store.terms(r@) == prefix_sort_of(store.terms(filters@)),
{
    let ghost l = store.terms(filters@);
    let mut sorted: Vec<Filter> = Vec::new();
    let mut keys: Vec<Path> = Vec::new();
    let mut i: usize = 0;
    assert(store.terms(sorted@) =~= sort_by_path(l.take(0)));
    while i < filters.len()
        invariant
            i <= filters.len(),
            store.wf(),
            store.contains_all(filters@),
            l == store.terms(filters@),
            sorted@.len() == i,
            keys@.len() == i,
            store.contains_all(sorted@),
            store.terms(sorted@) == sort_by_path(l.take(i as int)),
            forall|k: int| 0 <= k < i ==> sort_key(#[trigger] l[k]) is Some,
            forall|k: int|
                0 <= k < i ==> sort_key(store.term(#[trigger] sorted@[k])) == Some(keys@[k]@),
        decreases filters.len() - i,
    {
        let f = filters[i];
        assert(l[i as int] == store.term(f));
        match sort_path(store, f) {
            None => {
                return copy_list(filters);
            },
            Some(p) => {
                let mut j: usize = sorted.len();
                while j > 0 && !keys[j - 1].before_or_same(&p)
                    invariant
                        j <= keys@.len(),
                        forall|k: int| j <= k < keys@.len() ==> !path_le(#[trigger] keys@[k]@, p@),
                    decreases j,
                {
                    j -= 1;
                }
                let ghost s = store.terms(sorted@);
                proof {
                    assert forall|k: int| j <= k < s.len() implies !path_le(
                        sort_key(#[trigger] s[k])->0,
                        sort_key(l[i as int])->0,
                    ) by {
                        assert(sort_key(store.term(sorted@[k])) == Some(keys@[k]@));
                    }
                    if j > 0 {
                        assert(sort_key(store.term(sorted@[j - 1])) == Some(keys@[j - 1]@));
                    }
                    lemma_insert_position(s, l[i as int], j as int);
                    assert(l.take(i + 1).drop_last() =~= l.take(i as int));
                }
                sorted.insert(j, f);
                keys.insert(j, p);
                assert(store.terms(sorted@) =~= s.insert(j as int, l[i as int]));
            },
        }
        i += 1;
    }
    assert(l.take(l.len() as int) =~= l);
    sorted
}

} // verus!
