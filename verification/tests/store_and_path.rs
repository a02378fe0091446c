use tree_filter::hashing::{hash_bytes, mix};
use tree_filter::store::{copy_list, copy_op, same_list, same_op};
use tree_filter::{to_filter, to_op, Op, Path, Store};

#[test]
fn path_parse_drops_empty_components() {
    let p = Path::parse("a//b/");
    assert_eq!(p.len(), 2);
    assert_eq!(p.component(0), b"a".to_vec());
    assert_eq!(p.component(1), b"b".to_vec());
    assert!(p.same(&Path::parse("/a/b")));
    assert_eq!(Path::parse("").len(), 0);
    assert_eq!(Path::parse("///").len(), 0);
    assert!(Path::parse("").same(&Path::new()));
}

#[test]
fn path_join_appends() {
    let a = Path::parse("a/b");
    let c = Path::parse("c");
    assert!(a.join(&c).same(&Path::parse("a/b/c")));
    assert!(c.join(&a).same(&Path::parse("c/a/b")));
    assert!(a.join(&Path::new()).same(&a));
    assert!(Path::new().join(&a).same(&a));
    assert!(!a.join(&c).same(&c.join(&a)));
}

#[test]
fn path_head_and_tail_split_off_the_first_component() {
    let p = Path::parse("a/b/c");
    assert!(p.head().same(&Path::parse("a")));
    assert!(p.tail().same(&Path::parse("b/c")));
    assert!(p.head().join(&p.tail()).same(&p));
    let one = Path::parse("a");
    assert!(one.head().same(&one));
    assert_eq!(one.tail().len(), 0);
}

#[test]
fn path_duplicate_is_the_same_path() {
    let p = Path::parse("a/b/c");
    assert!(p.duplicate().same(&p));
    assert_eq!(p.duplicate(), p);
}

#[test]
fn path_order_is_by_component() {
    let a = Path::parse("a");
    let ab = Path::parse("a/b");
    let a_b = Path::parse("a-b");
    let b = Path::parse("b");
    assert!(a.before_or_same(&a));
    assert!(a.before_or_same(&ab));
    assert!(!ab.before_or_same(&a));
    assert!(ab.before_or_same(&a_b));
    assert!(!a_b.before_or_same(&ab));
    assert!(a_b.before_or_same(&b));
    assert!(!b.before_or_same(&a));
    assert!(Path::new().before_or_same(&a));
    assert!(!a.before_or_same(&Path::new()));
}

#[test]
fn store_gives_one_handle_per_expression() {
    let mut s = Store::new(10);
    let a1 = to_filter(&mut s, Op::Subdir(Path::parse("a")));
    let a2 = to_filter(&mut s, Op::Subdir(Path::parse("/a/")));
    let b = to_filter(&mut s, Op::Subdir(Path::parse("b")));
    let p = to_filter(&mut s, Op::Prefix(Path::parse("a")));
    assert_eq!(a1, a2);
    assert_ne!(a1, b);
    assert_ne!(a1, p);
    let c1 = to_filter(&mut s, Op::Chain(a1, b));
    let c2 = to_filter(&mut s, Op::Chain(a2, b));
    let c3 = to_filter(&mut s, Op::Chain(b, a1));
    let d = to_filter(&mut s, Op::Subtract(a1, b));
    assert_eq!(c1, c2);
    assert_ne!(c1, c3);
    assert_ne!(c1, d);
    let u1 = to_filter(&mut s, Op::Compose(vec![a1, b]));
    let u2 = to_filter(&mut s, Op::Compose(vec![a1, b]));
    let u3 = to_filter(&mut s, Op::Compose(vec![b, a1]));
    let u4 = to_filter(&mut s, Op::Compose(vec![a1, b, b]));
    assert_eq!(u1, u2);
    assert_ne!(u1, u3);
    assert_ne!(u1, u4);
    let n = to_filter(&mut s, Op::Nop);
    let e = to_filter(&mut s, Op::Empty);
    assert_ne!(n, e);
    assert_eq!(n, to_filter(&mut s, Op::Nop));
}

#[test]
fn to_op_gives_back_what_to_filter_took() {
    let mut s = Store::new(10);
    let a = to_filter(&mut s, Op::Subdir(Path::parse("a/b")));
    let b = to_filter(&mut s, Op::Prefix(Path::parse("c")));
    let c = to_filter(&mut s, Op::Chain(a, b));
    let u = to_filter(&mut s, Op::Compose(vec![a, b, c]));
    let d = to_filter(&mut s, Op::Subtract(u, c));
    assert_eq!(to_op(&s, a), Op::Subdir(Path::parse("a/b")));
    assert_eq!(to_op(&s, b), Op::Prefix(Path::parse("c")));
    assert_eq!(to_op(&s, c), Op::Chain(a, b));
    assert_eq!(to_op(&s, u), Op::Compose(vec![a, b, c]));
    assert_eq!(to_op(&s, d), Op::Subtract(u, c));
}

#[test]
fn store_knows_its_handles() {
    let mut big = Store::new(10);
    let small = Store::new(10);
    let a = to_filter(&mut big, Op::Nop);
    let b = to_filter(&mut big, Op::Empty);
    assert!(big.has(a));
    assert!(big.has(b));
    assert!(!small.has(a));
    assert!(big.has_all(&vec![a, b]));
    assert!(!small.has_all(&vec![a]));
    assert!(small.has_all(&vec![]));
    assert!(big.accepts(&Op::Chain(a, b)));
    assert!(!small.accepts(&Op::Chain(a, b)));
    assert!(!small.accepts(&Op::Subtract(a, b)));
    assert!(!small.accepts(&Op::Compose(vec![b])));
    assert!(small.accepts(&Op::Compose(vec![])));
    assert!(small.accepts(&Op::Subdir(Path::parse("a"))));
    assert!(small.accepts(&Op::Nop));
}

#[test]
fn store_keeps_its_limit() {
    let mut s = Store::new(7);
    assert_eq!(s.limit(), 7);
    let _ = to_filter(&mut s, Op::Nop);
    assert_eq!(s.limit(), 7);
}

#[test]
fn ops_compare_by_what_they_hold() {
    let mut s = Store::new(10);
    let a = to_filter(&mut s, Op::Nop);
    let b = to_filter(&mut s, Op::Empty);
    assert!(same_op(&Op::Chain(a, b), &Op::Chain(a, b)));
    assert!(!same_op(&Op::Chain(a, b), &Op::Chain(b, a)));
    assert!(!same_op(&Op::Chain(a, b), &Op::Subtract(a, b)));
    assert!(same_op(&Op::Compose(vec![a, b]), &Op::Compose(vec![a, b])));
    assert!(!same_op(&Op::Compose(vec![a, b]), &Op::Compose(vec![a])));
    assert!(same_op(
        &Op::Subdir(Path::parse("a/b")),
        &Op::Subdir(Path::parse("a//b"))
    ));
    assert!(!same_op(
        &Op::Subdir(Path::parse("a")),
        &Op::Prefix(Path::parse("a"))
    ));
    assert!(same_op(&Op::Nop, &Op::Nop));
    assert!(!same_op(&Op::Nop, &Op::Empty));
    assert!(same_list(&vec![a, b], &vec![a, b]));
    assert!(!same_list(&vec![a, b], &vec![b, a]));
    assert_eq!(copy_list(&vec![a, b, a]), vec![a, b, a]);
    assert_eq!(copy_op(&Op::Compose(vec![a, b])), Op::Compose(vec![a, b]));
    assert_eq!(
        copy_op(&Op::Prefix(Path::parse("x/y"))),
        Op::Prefix(Path::parse("x/y"))
    );
}

#[test]
fn hashes_follow_the_formula() {
    assert_eq!(mix(1, 2), 33);
    assert_eq!(mix(u64::MAX, u64::MAX), 483296);
    assert_eq!(hash_bytes(&vec![]), 7);
    assert_eq!(hash_bytes(&vec![97]), 314);
    assert_eq!(Path::new().hash(), 11);
    assert_eq!(Path::parse("a").hash(), 655);
    assert_eq!(Path::parse("a/b").hash(), Path::parse("a//b/").hash());
    assert_ne!(Path::parse("a/b").hash(), Path::parse("b/a").hash());
}
