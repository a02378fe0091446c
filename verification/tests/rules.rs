use tree_filter::{iterate, optimize, simplify, step, to_filter, to_op, Filter, Op, Path, Store};

fn subdir(s: &mut Store, p: &str) -> Filter {
    to_filter(s, Op::Subdir(Path::parse(p)))
}

fn prefix(s: &mut Store, p: &str) -> Filter {
    to_filter(s, Op::Prefix(Path::parse(p)))
}

fn chain(s: &mut Store, a: Filter, b: Filter) -> Filter {
    to_filter(s, Op::Chain(a, b))
}

fn compose(s: &mut Store, l: Vec<Filter>) -> Filter {
    to_filter(s, Op::Compose(l))
}

fn subtract(s: &mut Store, a: Filter, b: Filter) -> Filter {
    to_filter(s, Op::Subtract(a, b))
}

fn nop(s: &mut Store) -> Filter {
    to_filter(s, Op::Nop)
}

fn empty(s: &mut Store) -> Filter {
    to_filter(s, Op::Empty)
}

#[test]
fn simplify_fuses_subdirs() {
    let mut s = Store::new(100);
    let a = subdir(&mut s, "a");
    let b = subdir(&mut s, "b");
    let f = chain(&mut s, a, b);
    let expected = subdir(&mut s, "a/b");
    assert_eq!(simplify(&mut s, f), expected);
}

#[test]
fn simplify_fuses_prefixes_in_reverse() {
    let mut s = Store::new(100);
    let x = prefix(&mut s, "x");
    let y = prefix(&mut s, "y");
    let f = chain(&mut s, x, y);
    let expected = prefix(&mut s, "y/x");
    assert_eq!(simplify(&mut s, f), expected);
    let wrong = prefix(&mut s, "x/y");
    assert_ne!(simplify(&mut s, f), wrong);
}

#[test]
fn simplify_flattens_nested_unions() {
    let mut s = Store::new(100);
    let a = subdir(&mut s, "a");
    let b = subdir(&mut s, "b");
    let c = subdir(&mut s, "c");
    let inner = compose(&mut s, vec![a, b]);
    let f = compose(&mut s, vec![inner, c]);
    let expected = compose(&mut s, vec![a, b, c]);
    assert_eq!(simplify(&mut s, f), expected);
}

#[test]
fn simplify_flattens_one_level_per_round() {
    let mut s = Store::new(100);
    let a = subdir(&mut s, "a");
    let l1 = compose(&mut s, vec![a]);
    let l2 = compose(&mut s, vec![l1]);
    let l3 = compose(&mut s, vec![l2]);
    assert_eq!(simplify(&mut s, l3), l1);
}

#[test]
fn simplify_simplifies_the_members_of_a_union() {
    let mut s = Store::new(100);
    let a = subdir(&mut s, "a");
    let b = subdir(&mut s, "b");
    let ab = chain(&mut s, a, b);
    let c = prefix(&mut s, "c");
    let f = compose(&mut s, vec![ab, c]);
    let fused = subdir(&mut s, "a/b");
    let expected = compose(&mut s, vec![fused, c]);
    assert_eq!(simplify(&mut s, f), expected);
}

#[test]
fn simplify_nests_chains_to_the_left() {
    let mut s = Store::new(100);
    let a = subdir(&mut s, "a");
    let b = prefix(&mut s, "p");
    let c = subdir(&mut s, "c");
    let bc = chain(&mut s, b, c);
    let f = chain(&mut s, a, bc);
    let ab = chain(&mut s, a, b);
    let expected = chain(&mut s, ab, c);
    assert_eq!(simplify(&mut s, f), expected);
}

#[test]
fn simplify_fuses_prefixes_across_a_chain() {
    let mut s = Store::new(100);
    let x = subdir(&mut s, "s");
    let under = prefix(&mut s, "under");
    let over = prefix(&mut s, "over");
    let inner = chain(&mut s, x, under);
    let f = chain(&mut s, inner, over);
    let fused = prefix(&mut s, "over/under");
    let expected = chain(&mut s, x, fused);
    assert_eq!(simplify(&mut s, f), expected);
}

#[test]
fn simplify_simplifies_both_sides_of_a_difference() {
    let mut s = Store::new(100);
    let a = subdir(&mut s, "a");
    let b = subdir(&mut s, "b");
    let x = prefix(&mut s, "x");
    let y = prefix(&mut s, "y");
    let ab = chain(&mut s, a, b);
    let xy = chain(&mut s, x, y);
    let f = subtract(&mut s, ab, xy);
    let l = subdir(&mut s, "a/b");
    let r = prefix(&mut s, "y/x");
    let expected = subtract(&mut s, l, r);
    assert_eq!(simplify(&mut s, f), expected);
}

#[test]
fn simplify_leaves_plain_filters_alone() {
    let mut s = Store::new(100);
    let n = nop(&mut s);
    let e = empty(&mut s);
    let a = subdir(&mut s, "a/b");
    let p = prefix(&mut s, "p/q");
    assert_eq!(simplify(&mut s, n), n);
    assert_eq!(simplify(&mut s, e), e);
    assert_eq!(simplify(&mut s, a), a);
    assert_eq!(simplify(&mut s, p), p);
}

#[test]
fn simplify_keeps_a_leading_identity() {
    let mut s = Store::new(100);
    let n = nop(&mut s);
    let a = subdir(&mut s, "a");
    let f = chain(&mut s, n, a);
    assert_eq!(simplify(&mut s, f), f);
    assert_ne!(simplify(&mut s, f), simplify(&mut s, a));
}

#[test]
fn simplify_twice_is_simplify_once() {
    let mut s = Store::new(100);
    let a = subdir(&mut s, "a");
    let b = subdir(&mut s, "b");
    let c = subdir(&mut s, "c");
    let p = prefix(&mut s, "p");
    let q = prefix(&mut s, "q");
    let bc = chain(&mut s, b, c);
    let abc = chain(&mut s, a, bc);
    let pq = chain(&mut s, p, q);
    let u = compose(&mut s, vec![abc, pq]);
    let uu = compose(&mut s, vec![u, a]);
    let f = subtract(&mut s, uu, pq);
    let once = simplify(&mut s, f);
    let twice = simplify(&mut s, once);
    assert_eq!(once, twice);
    let fused = subdir(&mut s, "a/b/c");
    let qp = prefix(&mut s, "q/p");
    let flat = compose(&mut s, vec![fused, qp, a]);
    let expected = subtract(&mut s, flat, qp);
    assert_eq!(once, expected);
}

#[test]
fn simplify_answers_again_from_what_it_recorded() {
    let mut s = Store::new(100);
    let a = subdir(&mut s, "a");
    let b = subdir(&mut s, "b");
    let f = chain(&mut s, a, b);
    let first = simplify(&mut s, f);
    let second = simplify(&mut s, f);
    assert_eq!(first, second);
}

#[test]
fn step_splits_a_subdir_with_several_components() {
    let mut s = Store::new(100);
    let f = subdir(&mut s, "a/b/c");
    let a = subdir(&mut s, "a");
    let bc = subdir(&mut s, "b/c");
    let expected = chain(&mut s, a, bc);
    assert_eq!(step(&mut s, f), expected);
}

#[test]
fn step_splits_a_prefix_the_other_way_round() {
    let mut s = Store::new(100);
    let f = prefix(&mut s, "a/b/c");
    let bc = prefix(&mut s, "b/c");
    let a = prefix(&mut s, "a");
    let expected = chain(&mut s, bc, a);
    assert_eq!(step(&mut s, f), expected);
}

#[test]
fn step_leaves_single_components_alone() {
    let mut s = Store::new(100);
    let a = subdir(&mut s, "a");
    let p = prefix(&mut s, "p");
    let none = to_filter(&mut s, Op::Subdir(Path::new()));
    let n = nop(&mut s);
    let e = empty(&mut s);
    assert_eq!(step(&mut s, a), a);
    assert_eq!(step(&mut s, p), p);
    assert_eq!(step(&mut s, none), none);
    assert_eq!(step(&mut s, n), n);
    assert_eq!(step(&mut s, e), e);
}

#[test]
fn step_collapses_small_unions() {
    let mut s = Store::new(100);
    let none = compose(&mut s, vec![]);
    let e = empty(&mut s);
    assert_eq!(step(&mut s, none), e);
    let a = subdir(&mut s, "a/b");
    let one = compose(&mut s, vec![a]);
    assert_eq!(step(&mut s, one), a);
}

#[test]
fn step_factors_a_shared_first_operand() {
    let mut s = Store::new(100);
    let a = subdir(&mut s, "a");
    let b1 = subdir(&mut s, "b1");
    let b2 = subdir(&mut s, "b2");
    let ab1 = chain(&mut s, a, b1);
    let ab2 = chain(&mut s, a, b2);
    let f = compose(&mut s, vec![ab1, ab2]);
    let rest = compose(&mut s, vec![b1, b2]);
    let expected = chain(&mut s, a, rest);
    assert_eq!(step(&mut s, f), expected);
}

#[test]
fn step_drops_a_repeat_before_factoring() {
    let mut s = Store::new(100);
    let a = subdir(&mut s, "a");
    let b = subdir(&mut s, "b");
    let ab = chain(&mut s, a, b);
    let f = compose(&mut s, vec![ab, ab]);
    let rest = compose(&mut s, vec![b]);
    let expected = chain(&mut s, a, rest);
    assert_eq!(step(&mut s, f), expected);
}

#[test]
fn step_factors_a_shared_last_member() {
    let mut s = Store::new(100);
    let a = subdir(&mut s, "a");
    let b = subdir(&mut s, "b");
    let c = prefix(&mut s, "p");
    let ac = chain(&mut s, a, c);
    let bc = chain(&mut s, b, c);
    let f = compose(&mut s, vec![ac, bc]);
    let n = nop(&mut s);
    let na = chain(&mut s, n, a);
    let nb = chain(&mut s, n, b);
    let heads = compose(&mut s, vec![na, nb]);
    let expected = chain(&mut s, heads, c);
    assert_eq!(step(&mut s, f), expected);
}

#[test]
fn step_on_a_repeated_plain_filter_factors_it_out() {
    let mut s = Store::new(100);
    let a = subdir(&mut s, "a");
    let f = compose(&mut s, vec![a, a]);
    let n = nop(&mut s);
    let heads = compose(&mut s, vec![n]);
    let expected = chain(&mut s, heads, a);
    assert_eq!(step(&mut s, f), expected);
}

#[test]
fn step_groups_runs_with_a_shared_first_operand() {
    let mut s = Store::new(100);
    let a = subdir(&mut s, "a");
    let b = subdir(&mut s, "b");
    let x = subdir(&mut s, "x");
    let y = subdir(&mut s, "y");
    let z = subdir(&mut s, "z");
    let ax = chain(&mut s, a, x);
    let ay = chain(&mut s, a, y);
    let bz = chain(&mut s, b, z);
    let f = compose(&mut s, vec![ax, ay, bz]);
    let g1 = compose(&mut s, vec![ax, ay]);
    let g2 = compose(&mut s, vec![bz]);
    let expected = compose(&mut s, vec![g1, g2]);
    assert_eq!(step(&mut s, f), expected);
}

#[test]
fn step_sorts_and_steps_the_members() {
    let mut s = Store::new(100);
    let a = subdir(&mut s, "a");
    let b = subdir(&mut s, "b");
    let x = prefix(&mut s, "x");
    let y = prefix(&mut s, "y/z");
    let bx = chain(&mut s, b, x);
    let ay = chain(&mut s, a, y);
    let f = compose(&mut s, vec![bx, ay]);
    let z = prefix(&mut s, "z");
    let y1 = prefix(&mut s, "y");
    let zy = chain(&mut s, z, y1);
    let ay2 = chain(&mut s, a, zy);
    let expected = compose(&mut s, vec![ay2, bx]);
    assert_eq!(step(&mut s, f), expected);
}

#[test]
fn step_keeps_repeats_that_are_not_neighbours() {
    let mut s = Store::new(100);
    let a = subdir(&mut s, "a");
    let b = subdir(&mut s, "b");
    let f = compose(&mut s, vec![a, b, a]);
    assert_eq!(step(&mut s, f), f);
}

#[test]
fn step_nests_chains_to_the_right() {
    let mut s = Store::new(100);
    let x = subdir(&mut s, "x");
    let y = prefix(&mut s, "y");
    let b = subdir(&mut s, "b");
    let xy = chain(&mut s, x, y);
    let f = chain(&mut s, xy, b);
    let yb = chain(&mut s, y, b);
    let expected = chain(&mut s, x, yb);
    assert_eq!(step(&mut s, f), expected);
}

#[test]
fn step_removes_the_identity_from_a_chain() {
    let mut s = Store::new(100);
    let n = nop(&mut s);
    let a = subdir(&mut s, "a/b");
    let left = chain(&mut s, n, a);
    let right = chain(&mut s, a, n);
    let both = chain(&mut s, n, n);
    assert_eq!(step(&mut s, left), a);
    assert_eq!(step(&mut s, right), a);
    assert_eq!(step(&mut s, both), n);
}

#[test]
fn step_steps_both_operands_of_a_chain() {
    let mut s = Store::new(100);
    let ab = subdir(&mut s, "a/b");
    let cd = prefix(&mut s, "c/d");
    let f = chain(&mut s, ab, cd);
    let a = subdir(&mut s, "a");
    let b = subdir(&mut s, "b");
    let c = prefix(&mut s, "c");
    let d = prefix(&mut s, "d");
    let l = chain(&mut s, a, b);
    let r = chain(&mut s, d, c);
    let expected = chain(&mut s, l, r);
    assert_eq!(step(&mut s, f), expected);
}

#[test]
fn step_of_a_filter_without_itself_is_empty() {
    let mut s = Store::new(100);
    let a = subdir(&mut s, "a/b");
    let f = subtract(&mut s, a, a);
    let e = empty(&mut s);
    assert_eq!(step(&mut s, f), e);
    let ee = subtract(&mut s, e, e);
    assert_eq!(step(&mut s, ee), e);
}

#[test]
fn step_absorbs_the_empty_filter_in_a_difference() {
    let mut s = Store::new(100);
    let a = subdir(&mut s, "a/b");
    let e = empty(&mut s);
    let left = subtract(&mut s, e, a);
    let right = subtract(&mut s, a, e);
    assert_eq!(step(&mut s, left), e);
    assert_eq!(step(&mut s, right), a);
}

#[test]
fn step_factors_a_shared_start_out_of_a_difference() {
    let mut s = Store::new(100);
    let a = subdir(&mut s, "a");
    let b = subdir(&mut s, "b");
    let d = subdir(&mut s, "d");
    let ab = chain(&mut s, a, b);
    let ad = chain(&mut s, a, d);
    let f = subtract(&mut s, ab, ad);
    let inner = subtract(&mut s, b, d);
    let expected = chain(&mut s, a, inner);
    assert_eq!(step(&mut s, f), expected);
}

#[test]
fn step_on_chains_with_different_starts_steps_both() {
    let mut s = Store::new(100);
    let a = subdir(&mut s, "a");
    let c = subdir(&mut s, "c");
    let n = nop(&mut s);
    let an = chain(&mut s, a, n);
    let cn = chain(&mut s, c, n);
    let f = subtract(&mut s, an, cn);
    let expected = subtract(&mut s, a, c);
    assert_eq!(step(&mut s, f), expected);
}

#[test]
fn step_removes_what_two_unions_share() {
    let mut s = Store::new(100);
    let a = subdir(&mut s, "a");
    let b = subdir(&mut s, "b");
    let c = subdir(&mut s, "c");
    let d = subdir(&mut s, "d");
    let l = compose(&mut s, vec![a, b, c]);
    let r = compose(&mut s, vec![b, d]);
    let f = subtract(&mut s, l, r);
    let ac = compose(&mut s, vec![a, c]);
    let expected = subtract(&mut s, ac, d);
    assert_eq!(step(&mut s, f), expected);
}

#[test]
fn step_steps_both_sides_of_a_difference() {
    let mut s = Store::new(100);
    let ab = subdir(&mut s, "a/b");
    let p = prefix(&mut s, "c");
    let f = subtract(&mut s, ab, p);
    let a = subdir(&mut s, "a");
    let b = subdir(&mut s, "b");
    let l = chain(&mut s, a, b);
    let expected = subtract(&mut s, l, p);
    assert_eq!(step(&mut s, f), expected);
}

#[test]
fn iterate_steps_to_the_end() {
    let mut s = Store::new(100);
    let f = subdir(&mut s, "a/b/c");
    let a = subdir(&mut s, "a");
    let b = subdir(&mut s, "b");
    let c = subdir(&mut s, "c");
    let bc = chain(&mut s, b, c);
    let expected = chain(&mut s, a, bc);
    assert_eq!(iterate(&mut s, f), Some(expected));
}

#[test]
fn iterate_result_is_unchanged_by_a_step() {
    let mut s = Store::new(100);
    let abc = subdir(&mut s, "a/b/c");
    let p = prefix(&mut s, "x/y");
    let n = nop(&mut s);
    let np = chain(&mut s, n, p);
    let u = compose(&mut s, vec![abc, np, abc]);
    let f = subtract(&mut s, u, n);
    let r = iterate(&mut s, f).unwrap();
    assert_eq!(step(&mut s, r), r);
    assert_eq!(iterate(&mut s, r), Some(r));
}

#[test]
fn iterate_gives_up_at_the_limit() {
    let mut one = Store::new(1);
    let f = subdir(&mut one, "a/b/c");
    assert_eq!(iterate(&mut one, f), None);
    let mut two = Store::new(2);
    let g = subdir(&mut two, "a/b/c");
    assert!(iterate(&mut two, g).is_some());
    let mut zero = Store::new(0);
    let h = subdir(&mut zero, "a");
    assert_eq!(iterate(&mut zero, h), Some(h));
    let k = subdir(&mut zero, "a/b");
    assert_eq!(iterate(&mut zero, k), None);
}

#[test]
fn optimize_reaches_the_form_for_evaluation() {
    let mut s = Store::new(100);
    let f = subdir(&mut s, "a/b/c");
    let a = subdir(&mut s, "a");
    let b = subdir(&mut s, "b");
    let c = subdir(&mut s, "c");
    let bc = chain(&mut s, b, c);
    let expected = chain(&mut s, a, bc);
    assert_eq!(optimize(&mut s, f), Some(expected));
    let ab = chain(&mut s, a, b);
    let left = chain(&mut s, ab, c);
    assert_eq!(optimize(&mut s, left), Some(expected));
}

#[test]
fn optimize_takes_a_second_round_where_the_first_changes_the_small_form() {
    let mut s = Store::new(100);
    let n = nop(&mut s);
    let a = subdir(&mut s, "a");
    let f = chain(&mut s, n, a);
    assert_eq!(optimize(&mut s, f), Some(a));
    let mut tight = Store::new(0);
    let n0 = nop(&mut tight);
    let a0 = subdir(&mut tight, "a");
    let f0 = chain(&mut tight, n0, a0);
    assert_eq!(optimize(&mut tight, f0), None);
}

#[test]
fn optimize_twice_is_optimize_once() {
    let mut s = Store::new(100);
    let abc = subdir(&mut s, "a/b/c");
    let abd = subdir(&mut s, "a/b/d");
    let p = prefix(&mut s, "x/y");
    let l = chain(&mut s, abc, p);
    let r = chain(&mut s, abd, p);
    let f = compose(&mut s, vec![l, r]);
    let once = optimize(&mut s, f).unwrap();
    assert_eq!(optimize(&mut s, once), Some(once));
    assert_eq!(step(&mut s, once), once);
}

#[test]
fn optimize_gives_up_at_the_limit() {
    let mut s = Store::new(1);
    let f = subdir(&mut s, "a/b/c");
    assert_eq!(optimize(&mut s, f), None);
}

#[test]
fn rewrites_keep_earlier_handles() {
    let mut s = Store::new(100);
    let a = subdir(&mut s, "a/b");
    let before = to_op(&s, a);
    let _ = optimize(&mut s, a);
    assert!(s.has(a));
    assert_eq!(to_op(&s, a), before);
}

#[test]
fn optimize_twice_can_differ_where_the_first_round_ends_on_an_unsimplified_filter() {
    let mut s = Store::new(100);
    let x = subdir(&mut s, "x");
    let b = subdir(&mut s, "b");
    let e = empty(&mut s);
    let n = nop(&mut s);
    let inner = compose(&mut s, vec![x, e]);
    let c = compose(&mut s, vec![b, n]);
    let ce = chain(&mut s, c, e);
    let f = compose(&mut s, vec![inner, ce]);
    let once = optimize(&mut s, f).unwrap();
    let nc = compose(&mut s, vec![n, c]);
    let nce = chain(&mut s, nc, e);
    let expected_once = compose(&mut s, vec![x, nce]);
    assert_eq!(once, expected_once);
    let twice = optimize(&mut s, once).unwrap();
    let flat = compose(&mut s, vec![n, b, n]);
    let fe = chain(&mut s, flat, e);
    let expected_twice = compose(&mut s, vec![x, fe]);
    assert_eq!(twice, expected_twice);
    assert_ne!(once, twice);
    assert_eq!(optimize(&mut s, twice), Some(twice));
}

#[test]
fn iterate_gives_up_on_a_filter_that_steps_in_a_circle() {
    let mut s = Store::new(1000);
    let n = nop(&mut s);
    let nn = chain(&mut s, n, n);
    let f = compose(&mut s, vec![n, nn]);
    let wrapped = compose(&mut s, vec![f]);
    assert_eq!(step(&mut s, f), wrapped);
    assert_eq!(step(&mut s, wrapped), f);
    assert_eq!(iterate(&mut s, f), None);
    assert_eq!(optimize(&mut s, f), None);
}

#[test]
fn simplify_adds_no_nodes() {
    let mut s = Store::new(100);
    let a = subdir(&mut s, "a");
    let p = prefix(&mut s, "p");
    let c = subdir(&mut s, "c");
    let pc = chain(&mut s, p, c);
    let f = chain(&mut s, a, pc);
    let r = simplify(&mut s, f);
    let ap = chain(&mut s, a, p);
    assert_eq!(to_op(&s, r), Op::Chain(ap, c));
    assert_eq!(to_op(&s, ap), Op::Chain(a, p));
}
