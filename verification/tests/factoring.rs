use tree_filter::step::{dedup, retain_absent};
use tree_filter::simplify::flatten;
use tree_filter::{
    common_post, common_pre, group, last_chain, prefix_sort, to_filter, Filter, Op, Path, Store,
};

fn sub(s: &mut Store, p: &str) -> Filter {
    to_filter(s, Op::Subdir(Path::parse(p)))
}

fn pre(s: &mut Store, p: &str) -> Filter {
    to_filter(s, Op::Prefix(Path::parse(p)))
}

fn ch(s: &mut Store, a: Filter, b: Filter) -> Filter {
    to_filter(s, Op::Chain(a, b))
}

fn id(s: &mut Store) -> Filter {
    to_filter(s, Op::Nop)
}

#[test]
fn last_chain_unwinds_to_the_last_member() {
    let mut s = Store::new(10);
    let a = sub(&mut s, "a");
    let b = sub(&mut s, "b");
    let c = sub(&mut s, "c");
    let bc = ch(&mut s, b, c);
    let f = ch(&mut s, a, bc);
    let n = id(&mut s);
    let na = ch(&mut s, n, a);
    let nab = ch(&mut s, na, b);
    assert_eq!(last_chain(&mut s, n, f), (nab, c));
}

#[test]
fn last_chain_of_a_plain_filter_is_the_filter() {
    let mut s = Store::new(10);
    let a = sub(&mut s, "a");
    let r = pre(&mut s, "r");
    assert_eq!(last_chain(&mut s, r, a), (r, a));
}

#[test]
fn last_chain_follows_the_right_operand_only() {
    let mut s = Store::new(10);
    let a = sub(&mut s, "a");
    let b = sub(&mut s, "b");
    let c = sub(&mut s, "c");
    let ab = ch(&mut s, a, b);
    let f = ch(&mut s, ab, c);
    let n = id(&mut s);
    let front = ch(&mut s, n, ab);
    assert_eq!(last_chain(&mut s, n, f), (front, c));
}

#[test]
fn common_pre_finds_the_shared_first_operand() {
    let mut s = Store::new(10);
    let a = sub(&mut s, "a");
    let b1 = sub(&mut s, "b1");
    let b2 = pre(&mut s, "b2");
    let l = ch(&mut s, a, b1);
    let r = ch(&mut s, a, b2);
    assert_eq!(common_pre(&s, &vec![l, r]), Some((a, vec![b1, b2])));
    assert_eq!(common_pre(&s, &vec![l]), Some((a, vec![b1])));
}

#[test]
fn common_pre_fails_without_a_shared_first_operand() {
    let mut s = Store::new(10);
    let a = sub(&mut s, "a");
    let b = sub(&mut s, "b");
    let x = sub(&mut s, "x");
    let ax = ch(&mut s, a, x);
    let bx = ch(&mut s, b, x);
    assert_eq!(common_pre(&s, &vec![]), None);
    assert_eq!(common_pre(&s, &vec![ax, bx]), None);
    assert_eq!(common_pre(&s, &vec![ax, a]), None);
    assert_eq!(common_pre(&s, &vec![a, ax]), None);
}

#[test]
fn common_post_finds_the_shared_last_member() {
    let mut s = Store::new(10);
    let a = sub(&mut s, "a");
    let c = pre(&mut s, "c");
    let ac = ch(&mut s, a, c);
    let n = id(&mut s);
    let na = ch(&mut s, n, a);
    assert_eq!(common_post(&mut s, &vec![ac, c]), Some((c, vec![na, n])));
}

#[test]
fn common_post_fails_on_the_identity_and_on_different_ends() {
    let mut s = Store::new(10);
    let a = sub(&mut s, "a");
    let b = sub(&mut s, "b");
    let n = id(&mut s);
    let an = ch(&mut s, a, n);
    assert_eq!(common_post(&mut s, &vec![]), None);
    assert_eq!(common_post(&mut s, &vec![an, n]), None);
    assert_eq!(common_post(&mut s, &vec![a, b]), None);
}

#[test]
fn group_by_first_operand() {
    let mut s = Store::new(10);
    let a = sub(&mut s, "a");
    let b = sub(&mut s, "b");
    let x = sub(&mut s, "x");
    let y = sub(&mut s, "y");
    let ax = ch(&mut s, a, x);
    let ay = ch(&mut s, a, y);
    let bx = ch(&mut s, b, x);
    assert_eq!(
        group(&mut s, &vec![ax, ay, bx, ax]),
        vec![vec![ax, ay], vec![bx], vec![ax]]
    );
}

#[test]
fn group_by_last_member_where_no_first_operand_is_shared() {
    let mut s = Store::new(10);
    let a = sub(&mut s, "a");
    let b = sub(&mut s, "b");
    let c = pre(&mut s, "c");
    let d = sub(&mut s, "d");
    let ac = ch(&mut s, a, c);
    let bc = ch(&mut s, b, c);
    assert_eq!(group(&mut s, &vec![ac, bc, d]), vec![vec![ac, bc], vec![d]]);
    assert_eq!(group(&mut s, &vec![ac, d, bc]), vec![vec![ac], vec![d], vec![bc]]);
}

#[test]
fn group_of_nothing_is_nothing() {
    let mut s = Store::new(10);
    let none: Vec<Vec<Filter>> = vec![];
    assert_eq!(group(&mut s, &vec![]), none);
}

#[test]
fn prefix_sort_orders_by_path_and_keeps_ties_in_place() {
    let mut s = Store::new(10);
    let a = sub(&mut s, "a");
    let b = sub(&mut s, "b");
    let x = pre(&mut s, "x");
    let y = pre(&mut s, "y");
    let z = pre(&mut s, "z");
    let bx = ch(&mut s, b, x);
    let az = ch(&mut s, a, z);
    let ay = ch(&mut s, a, y);
    assert_eq!(prefix_sort(&s, &vec![bx, az, ay]), vec![az, ay, bx]);
}

#[test]
fn prefix_sort_is_all_or_nothing() {
    let mut s = Store::new(10);
    let a = sub(&mut s, "a");
    let b = sub(&mut s, "b");
    let x = pre(&mut s, "x");
    let bx = ch(&mut s, b, x);
    let ax = ch(&mut s, a, x);
    let xa = ch(&mut s, x, a);
    assert_eq!(prefix_sort(&s, &vec![bx, ax, xa]), vec![bx, ax, xa]);
    assert_eq!(prefix_sort(&s, &vec![bx, ax, a]), vec![bx, ax, a]);
    assert_eq!(prefix_sort(&s, &vec![bx, ax]), vec![ax, bx]);
    assert_eq!(prefix_sort(&s, &vec![]), vec![]);
}

#[test]
fn prefix_sort_compares_component_by_component() {
    let mut s = Store::new(10);
    let dash = sub(&mut s, "a-b");
    let deep = sub(&mut s, "a/b");
    let short = sub(&mut s, "a");
    let x = pre(&mut s, "x");
    let f_dash = ch(&mut s, dash, x);
    let f_deep = ch(&mut s, deep, x);
    let f_short = ch(&mut s, short, x);
    assert_eq!(
        prefix_sort(&s, &vec![f_dash, f_deep, f_short]),
        vec![f_short, f_deep, f_dash]
    );
}

#[test]
fn dedup_drops_neighbouring_repeats_only() {
    let mut s = Store::new(10);
    let a = sub(&mut s, "a");
    let b = sub(&mut s, "b");
    assert_eq!(dedup(&s, &vec![a, a, b, b, b, a]), vec![a, b, a]);
    assert_eq!(dedup(&s, &vec![]), vec![]);
}

#[test]
fn retain_absent_drops_every_shared_member() {
    let mut s = Store::new(10);
    let a = sub(&mut s, "a");
    let b = sub(&mut s, "b");
    let c = sub(&mut s, "c");
    assert_eq!(retain_absent(&s, &vec![a, b, a, c], &vec![a]), vec![b, c]);
    assert_eq!(retain_absent(&s, &vec![a, b], &vec![]), vec![a, b]);
    assert_eq!(retain_absent(&s, &vec![a, b], &vec![b, a, c]), vec![]);
}

#[test]
fn flatten_opens_one_level() {
    let mut s = Store::new(10);
    let a = sub(&mut s, "a");
    let b = sub(&mut s, "b");
    let c = sub(&mut s, "c");
    let inner = to_filter(&mut s, Op::Compose(vec![b, c]));
    let outer = to_filter(&mut s, Op::Compose(vec![inner]));
    assert_eq!(flatten(&s, &vec![a, inner, outer]), vec![a, b, c, inner]);
}
