//! The two rewrites, driven to a form that both leave unchanged.

use vstd::prelude::*;
use crate::simplify::{lemma_simplify_idempotent, simplify, simplify_of};
use crate::step::{iterate, iterate_of, lemma_iterate_fixed, step_of};
use crate::store::{Filter, Store};
use crate::term::Term;

verus! {

/// The form of `t` for evaluation. A round simplifies `t`, and simplifies
/// what stepping `t` to the end gives; if the two agree, stepping that to
/// the end is the result, else it is the term of the next round. Nothing is
/// given if more than `rounds` further rounds would be needed, or more than
/// `steps` steps in one of the runs of steps.
pub open spec fn optimize_of(t: Term, rounds: nat, steps: nat) -> Option<Term>
    decreases rounds,
{
    match iterate_of(t, steps) {
        None => None,
        Some(stepped) => if simplify_of(stepped) == simplify_of(t) {
            iterate_of(simplify_of(stepped), steps)
        } else if rounds == 0 {
            None
        } else {
            optimize_of(simplify_of(stepped), (rounds - 1) as nat, steps)
        },
    }
}

/// What `optimize_of` gives is left unchanged by a step.
pub proof fn lemma_optimize_fixed(t: Term, rounds: nat, steps: nat)
    ensures
        optimize_of(t, rounds, steps) matches Some(r) ==> step_of(r) == r,
    decreases rounds,
{
    match iterate_of(t, steps) {
        None => {},
        Some(stepped) => {
            if simplify_of(stepped) == simplify_of(t) {
                lemma_iterate_fixed(simplify_of(stepped), steps);
            } else if rounds > 0 {
                lemma_optimize_fixed(simplify_of(stepped), (rounds - 1) as nat, steps);
            }
        },
    }
}

/// Of a term that a step leaves unchanged, `optimize_of` gives what
/// stepping its smallest form to the end gives.
pub proof fn lemma_optimize_of_fixed(t: Term, rounds: nat, steps: nat)
    requires
        step_of(t) == t,
    ensures
        optimize_of(t, rounds, steps) == iterate_of(simplify_of(t), steps),
{
}

/// Of a term in its smallest form, `optimize_of` gives a term whose
/// smallest form steps back to it.
pub proof fn lemma_optimize_round_trip(t: Term, rounds: nat, steps: nat)
    requires
        simplify_of(t) == t,
    ensures
        optimize_of(t, rounds, steps) matches Some(r) ==> iterate_of(simplify_of(r), steps)
            == Some(r),
    decreases rounds,
{
    match iterate_of(t, steps) {
        None => {},
        Some(stepped) => {
            if simplify_of(stepped) == simplify_of(t) {
            } else if rounds > 0 {
                lemma_simplify_idempotent(stepped);
                lemma_optimize_round_trip(simplify_of(stepped), (rounds - 1) as nat, steps);
            }
        },
    }
}

/// Optimizing twice gives what optimizing once gives, for a term in its
/// smallest form and for a term whose first round does not end the rewrite.
pub proof fn lemma_optimize_idempotent(t: Term, rounds: nat, steps: nat)
    requires
        simplify_of(t) == t || (iterate_of(t, steps) matches Some(stepped) && simplify_of(stepped)
            != simplify_of(t)),
    ensures
        optimize_of(t, rounds, steps) matches Some(r) ==> optimize_of(r, rounds, steps) == Some(r),
{
    lemma_optimize_fixed(t, rounds, steps);
    if simplify_of(t) == t {
        lemma_optimize_round_trip(t, rounds, steps);
    } else if rounds > 0 {
        let next = simplify_of(iterate_of(t, steps)->0);
        lemma_simplify_idempotent(iterate_of(t, steps)->0);
        lemma_optimize_round_trip(next, (rounds - 1) as nat, steps);
    }
}

/// The form of `filter` that suits evaluation best: the two rewrites in
/// turn, until neither changes it. Nothing is given if that takes more
/// rounds, or one of the runs of steps more steps, than the store's limit.
pub fn optimize(store: &mut Store, filter: Filter) -> (r: Option<Filter>)
    requires
        old(store).wf(),
        old(store).contains(filter),
    ensures
        final(store).wf(),
        final(store).extends(*old(store)),
        r matches Some(g) ==> final(store).contains(g),
        final(store).option_term(r) == optimize_of(
            old(store).term(filter),
            old(store).step_limit(),
            old(store).step_limit(),
        ),
        r matches Some(g) ==> step_of(final(store).term(g)) == final(store).term(g),
{
    proof {
        lemma_optimize_fixed(store.term(filter), store.step_limit(), store.step_limit());
    }
    let mut cur = filter;
    let mut left: usize = store.limit();
    loop
        invariant
            store.wf(),
            store.extends(*old(store)),
            store.contains(cur),
            optimize_of(
                old(store).term(filter),
                old(store).step_limit(),
                old(store).step_limit(),
            ) == optimize_of(store.term(cur), left as nat, old(store).step_limit()),
        decreases left,
    {
        let pretty = simplify(store, cur);
        let optimized = match iterate(store, cur) {
            Some(g) => g,
            None => {
                return None;
            },
        };
        let next = simplify(store, optimized);
        proof {
            store.lemma_same_term(next, pretty);
        }
        if next == pretty {
            return iterate(store, next);
        }
        if left == 0 {
            return None;
        }
        left -= 1;
        cur = next;
    }
}

} // verus!
