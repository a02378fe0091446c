//! The store of filters: one handle for each distinct expression.

use std::collections::HashMap;
use vstd::prelude::*;
use crate::hashing::{hash_of_path, mix, mixed};
use crate::path::Path;
use crate::simplify::{simplify_of, simplify_round};
use crate::step::step_of;
use crate::term::{chain, subtract, Term};

verus! {

broadcast use vstd::std_specs::hash::group_hash_axioms;

/// The handle of a filter in a [`Store`]. Within one store, two handles are
/// equal exactly if they stand for the same expression.
#[derive(Clone, Copy, PartialEq, Eq, Hash, Debug, Structural)]
pub struct Filter {
    id: usize,
}

/// The outermost operation of a filter, over the handles of its operands.
#[derive(Debug, PartialEq, Eq)]
pub enum Op {
    /// Passes content through unchanged.
    Nop,
    /// Selects nothing.
    Empty,
    /// Restricts to the subtree at the path.
    Subdir(Path),
    /// Puts the selection under the path.
    Prefix(Path),
    /// Applies the first filter, and the second to its result.
    Chain(Filter, Filter),
    /// The ordered union of the filters, each applied on its own.
    Compose(Vec<Filter>),
    /// What the first filter selects without what the second selects.
    Subtract(Filter, Filter),
}

/// What an [`Op`] holds, as plain values.
pub enum Shape {
    Nop,
    Empty,
    Subdir(Seq<Seq<u8>>),
    Prefix(Seq<Seq<u8>>),
    Chain(Filter, Filter),
    Compose(Seq<Filter>),
    Subtract(Filter, Filter),
}

impl View for Op {
    type V = Shape;

    open spec fn view(&self) -> Shape {
        match self {
            Op::Nop => Shape::Nop,
            Op::Empty => Shape::Empty,
            Op::Subdir(p) => Shape::Subdir(p@),
            Op::Prefix(p) => Shape::Prefix(p@),
            Op::Chain(a, b) => Shape::Chain(*a, *b),
            Op::Compose(l) => Shape::Compose(l@),
            Op::Subtract(a, b) => Shape::Subtract(*a, *b),
        }
    }
}

/// The filters, each stored once, and what the rewrites have found so far.
pub struct Store {
    nodes: Vec<Op>,
    index: HashMap<u64, Vec<usize>>,
    simplified: HashMap<usize, Filter>,
    stepped: HashMap<usize, Filter>,
    limit: usize,
}

/// The hash of a list of handles.
spec fn hash_of_list(l: Seq<Filter>) -> u64
    decreases l.len(),
{
    if l.len() == 0 {
        13
    } else {
        mixed(hash_of_list(l.drop_last()), l.last().id as u64)
    }
}

/// The hash of an operation: equal operations have equal hashes.
spec fn hash_of(s: Shape) -> u64 {
    match s {
        Shape::Nop => 1,
        Shape::Empty => 2,
        Shape::Subdir(p) => mixed(3, hash_of_path(p)),
        Shape::Prefix(p) => mixed(4, hash_of_path(p)),
        Shape::Chain(a, b) => mixed(mixed(5, a.id as u64), b.id as u64),
        Shape::Compose(l) => mixed(6, hash_of_list(l)),
        Shape::Subtract(a, b) => mixed(mixed(8, a.id as u64), b.id as u64),
    }
}

/// The hash of a list of handles.
fn hash_list(l: &Vec<Filter>) -> (h: u64)
    ensures
        h == hash_of_list(l@),
{
    let mut h: u64 = 13;
    let mut i: usize = 0;
    assert(l@.take(0) =~= Seq::<Filter>::empty());
    while i < l.len()
        invariant
            i <= l.len(),
            h == hash_of_list(l@.take(i as int)),
        decreases l.len() - i,
    {
        assert(l@.take(i + 1).drop_last() =~= l@.take(i as int));
        h = mix(h, l[i].id as u64);
        i += 1;
    }
    assert(l@.take(l@.len() as int) =~= l@);
    h
}

/// The hash of an operation.
fn hash_op(op: &Op) -> (h: u64)
    ensures
        h == hash_of(op@),
{
    match op {
        Op::Nop => 1,
        Op::Empty => 2,
        Op::Subdir(p) => mix(3, p.hash()),
        Op::Prefix(p) => mix(4, p.hash()),
        Op::Chain(a, b) => mix(mix(5, a.id as u64), b.id as u64),
        Op::Compose(l) => mix(6, hash_list(l)),
        Op::Subtract(a, b) => mix(mix(8, a.id as u64), b.id as u64),
    }
}

/// Whether something is recorded for `k`.
spec fn is_key(m: Map<usize, Filter>, k: usize) -> bool {
    m.contains_key(k)
}

/// Whether every operand of `s` has a number below `n`.
spec fn below(s: Shape, n: int) -> bool {
    match s {
        Shape::Chain(a, b) => a.id < n && b.id < n,
        Shape::Subtract(a, b) => a.id < n && b.id < n,
        Shape::Compose(l) => forall|k: int| 0 <= k < l.len() ==> (#[trigger] l[k]).id < n,
        _ => true,
    }
}

/// The expression of node `i`: operands are read at lower numbers only.
spec fn term_at(shapes: Seq<Shape>, i: nat) -> Term
    decreases i,
{
    if i >= shapes.len() {
        Term::Nop
    } else {
        match shapes[i as int] {
            Shape::Nop => Term::Nop,
            Shape::Empty => Term::Empty,
            Shape::Subdir(p) => Term::Subdir(p),
            Shape::Prefix(p) => Term::Prefix(p),
            Shape::Chain(a, b) => if a.id < i && b.id < i {
                chain(term_at(shapes, a.id as nat), term_at(shapes, b.id as nat))
            } else {
                Term::Nop
            },
            Shape::Compose(l) => Term::Compose(
                Seq::new(
                    l.len(),
                    |k: int|
                        if 0 <= k < l.len() && l[k].id < i {
                            term_at(shapes, l[k].id as nat)
                        } else {
                            Term::Nop
                        },
                ),
            ),
            Shape::Subtract(a, b) => if a.id < i && b.id < i {
                subtract(term_at(shapes, a.id as nat), term_at(shapes, b.id as nat))
            } else {
                Term::Nop
            },
        }
    }
}

/// Operands come before what they are operands of, and no expression is
/// stored twice.
spec fn nodes_ok(s: Seq<Shape>) -> bool {
    &&& forall|i: int| 0 <= i < s.len() ==> below(#[trigger] s[i], i)
    &&& forall|i: nat, j: nat|
        i < s.len() && j < s.len() && #[trigger] term_at(s, i) == #[trigger] term_at(s, j) ==> i
            == j
}

/// Every node is found under its hash, and only nodes are.
spec fn index_ok(s: Seq<Shape>, index: Map<u64, Vec<usize>>) -> bool {
    &&& forall|i: int|
        0 <= i < s.len() ==> index.contains_key(hash_of(#[trigger] s[i])) && index[hash_of(
            s[i],
        )]@.contains(i as usize)
    &&& forall|h: u64, k: int|
        index.contains_key(h) && 0 <= k < index[h]@.len() ==> #[trigger] index[h]@[k] < s.len()
}

/// What is recorded of a rewrite is what the rewrite gives, and the smallest
/// form of a filter is recorded too for what one round makes of the filter.
spec fn memo_ok(s: Seq<Shape>, simplified: Map<usize, Filter>, stepped: Map<usize, Filter>) -> bool {
    &&& forall|k: usize| #[trigger]
        simplified.contains_key(k) ==> k < s.len() && simplified[k].id < s.len() && term_at(
            s,
            simplified[k].id as nat,
        ) == simplify_of(term_at(s, k as nat))
    &&& forall|k: usize| #[trigger]
        stepped.contains_key(k) ==> k < s.len() && stepped[k].id < s.len() && term_at(
            s,
            stepped[k].id as nat,
        ) == step_of(term_at(s, k as nat))
    &&& forall|k: usize| #[trigger]
        is_key(simplified, k) ==> exists|h: usize| #[trigger]
            simplified.contains_key(h) && term_at(s, h as nat) == simplify_round(
                term_at(s, k as nat),
            ) && simplified[h] == simplified[k]
}

/// What was recorded stays right where the nodes it speaks of stay.
proof fn lemma_memo_grown(
    s0: Seq<Shape>,
    s1: Seq<Shape>,
    simplified: Map<usize, Filter>,
    stepped: Map<usize, Filter>,
)
    requires
        memo_ok(s0, simplified, stepped),
        s0.len() <= s1.len(),
        forall|i: nat| i < s0.len() ==> #[trigger] term_at(s1, i) == term_at(s0, i),
    ensures
        memo_ok(s1, simplified, stepped),
{
    assert forall|k: usize| #[trigger] is_key(simplified, k) implies exists|h: usize| #[trigger]
        simplified.contains_key(h) && term_at(s1, h as nat) == simplify_round(
            term_at(s1, k as nat),
        ) && simplified[h] == simplified[k] by {
        let h = choose|h: usize| #[trigger]
            simplified.contains_key(h) && term_at(s0, h as nat) == simplify_round(
                term_at(s0, k as nat),
            ) && simplified[h] == simplified[k];
        assert(term_at(s1, h as nat) == term_at(s0, h as nat));
        assert(term_at(s1, k as nat) == term_at(s0, k as nat));
        assert(simplified.contains_key(h) && term_at(s1, h as nat) == simplify_round(
            term_at(s1, k as nat),
        ) && simplified[h] == simplified[k]);
    }
}

/// The index stays right where a node is added under its hash.
proof fn lemma_index_grown(
    s0: Seq<Shape>,
    shape: Shape,
    before: Map<u64, Vec<usize>>,
    after: Map<u64, Vec<usize>>,
    b0: Seq<usize>,
    bucket: Vec<usize>,
    n: usize,
)
    requires
        index_ok(s0, before),
        n == s0.len(),
        after == before.insert(hash_of(shape), bucket),
        before.contains_key(hash_of(shape)) ==> b0 == before[hash_of(shape)]@,
        !before.contains_key(hash_of(shape)) ==> b0.len() == 0,
        bucket@ == b0.push(n),
    ensures
        index_ok(s0.push(shape), after),
{
    let s1 = s0.push(shape);
    let h = hash_of(shape);
    assert forall|i: int| 0 <= i < s1.len() implies after.contains_key(hash_of(#[trigger] s1[i]))
        && after[hash_of(s1[i])]@.contains(i as usize) by {
        if i < n {
            assert(s1[i] == s0[i]);
            assert(before[hash_of(s0[i])]@.contains(i as usize));
            if hash_of(s0[i]) == h {
                let j = choose|j: int| 0 <= j < b0.len() && b0[j] == i as usize;
                assert(bucket@[j] == i as usize);
            }
        } else {
            assert(bucket@[b0.len() as int] == n);
        }
    }
    assert forall|g: u64, k: int| after.contains_key(g) && 0 <= k < after[g]@.len() implies #[trigger]
        after[g]@[k] < s1.len() by {
        if g == h {
            if k < b0.len() {
                assert(before[h]@[k] < s0.len());
            }
        } else {
            assert(before[g]@[k] < s0.len());
        }
    }
}

/// The expression of a node depends on the nodes up to it alone.
proof fn lemma_term_at_prefix(s1: Seq<Shape>, s2: Seq<Shape>, i: nat)
    requires
        s1.len() <= s2.len(),
        forall|k: int| 0 <= k < s1.len() ==> s1[k] == s2[k],
        i < s1.len(),
    ensures
        term_at(s1, i) == term_at(s2, i),
    decreases i,
{
    match s1[i as int] {
        Shape::Chain(a, b) => {
            if a.id < i && b.id < i {
                lemma_term_at_prefix(s1, s2, a.id as nat);
                lemma_term_at_prefix(s1, s2, b.id as nat);
            }
        },
        Shape::Subtract(a, b) => {
            if a.id < i && b.id < i {
                lemma_term_at_prefix(s1, s2, a.id as nat);
                lemma_term_at_prefix(s1, s2, b.id as nat);
            }
        },
        Shape::Compose(l) => {
            assert forall|k: int| 0 <= k < l.len() && l[k].id < i implies term_at(
                s1,
                l[k].id as nat,
            ) == term_at(s2, l[k].id as nat) by {
                lemma_term_at_prefix(s1, s2, l[k].id as nat);
            }
            assert(term_at(s1, i)->Compose_0 =~= term_at(s2, i)->Compose_0);
        },
        _ => {},
    }
}

impl Store {
    spec fn shapes(&self) -> Seq<Shape> {
        Seq::new(self.nodes@.len(), |i: int| self.nodes@[i]@)
    }

    /// Whether `f` is a handle of this store.
    pub closed spec fn contains(&self, f: Filter) -> bool {
        f.id < self.nodes@.len()
    }

    /// The expression that `f` stands for.
    pub closed spec fn term(&self, f: Filter) -> Term {
        term_at(self.shapes(), f.id as nat)
    }

    /// The number of steps and of rounds after which the rewrites give up.
    pub closed spec fn step_limit(&self) -> nat {
        self.limit as nat
    }

    /// Whether every member of `l` is a handle of this store.
    pub open spec fn contains_all(&self, l: Seq<Filter>) -> bool {
        forall|k: int| 0 <= k < l.len() ==> self.contains(#[trigger] l[k])
    }

    /// The expressions that the members of `l` stand for.
    pub open spec fn terms(&self, l: Seq<Filter>) -> Seq<Term> {
        Seq::new(l.len(), |k: int| self.term(l[k]))
    }

    /// Whether every operand of `s` is a handle of this store.
    pub open spec fn holds(&self, s: Shape) -> bool {
        match s {
            Shape::Chain(a, b) => self.contains(a) && self.contains(b),
            Shape::Subtract(a, b) => self.contains(a) && self.contains(b),
            Shape::Compose(l) => self.contains_all(l),
            _ => true,
        }
    }

    /// The expression with the outermost operation `s`.
    pub open spec fn term_of(&self, s: Shape) -> Term {
        match s {
            Shape::Nop => Term::Nop,
            Shape::Empty => Term::Empty,
            Shape::Subdir(p) => Term::Subdir(p),
            Shape::Prefix(p) => Term::Prefix(p),
            Shape::Chain(a, b) => chain(self.term(a), self.term(b)),
            Shape::Compose(l) => Term::Compose(self.terms(l)),
            Shape::Subtract(a, b) => subtract(self.term(a), self.term(b)),
        }
    }

    /// What is recorded as the smallest form of `f`.
    pub closed spec fn simplified_as(&self, f: Filter) -> Option<Filter> {
        if self.simplified@.contains_key(f.id) {
            Some(self.simplified@[f.id])
        } else {
            None
        }
    }

    /// What is recorded as one step from `f`.
    pub closed spec fn stepped_as(&self, f: Filter) -> Option<Filter> {
        if self.stepped@.contains_key(f.id) {
            Some(self.stepped@[f.id])
        } else {
            None
        }
    }

    /// Whether this store has every handle of `old`, each for the expression
    /// it had there, all that was recorded in `old`, and the limit of `old`.
    pub open spec fn extends(&self, old: Store) -> bool {
        &&& self.step_limit() == old.step_limit()
        &&& forall|f: Filter| #[trigger]
            old.contains(f) ==> self.contains(f) && self.term(f) == old.term(f)
        &&& forall|f: Filter|
            (#[trigger] old.simplified_as(f)) is Some ==> self.simplified_as(f)
                == old.simplified_as(f)
        &&& forall|f: Filter|
            (#[trigger] old.stepped_as(f)) is Some ==> self.stepped_as(f) == old.stepped_as(f)
    }

    /// The invariant of the store: operands come before what they are
    /// operands of, no expression is stored twice, every filter is found
    /// under its hash, and what is recorded of a rewrite is what the rewrite
    /// gives.
    pub closed spec fn wf(&self) -> bool {
        &&& nodes_ok(self.shapes())
        &&& index_ok(self.shapes(), self.index@)
        &&& memo_ok(self.shapes(), self.simplified@, self.stepped@)
    }

    /// A stored filter is the expression of its outermost operation.
    proof fn lemma_node(&self, i: int)
        requires
            self.wf(),
            0 <= i < self.nodes@.len(),
        ensures
            self.holds(self.shapes()[i]),
            term_at(self.shapes(), i as nat) == self.term_of(self.shapes()[i]),
    {
        let s = self.shapes();
        assert(below(s[i], i));
        match s[i] {
            Shape::Compose(l) => {
                assert(term_at(s, i as nat)->Compose_0 =~= self.terms(l));
            },
            _ => {},
        }
    }

    /// What is recorded of a rewrite is what the rewrite gives.
    pub proof fn lemma_recorded(&self, f: Filter)
        requires
            self.wf(),
        ensures
            self.simplified_as(f) matches Some(g) ==> self.contains(f) && self.contains(g)
                && self.term(g) == simplify_of(self.term(f)),
            self.stepped_as(f) matches Some(g) ==> self.contains(f) && self.contains(g)
                && self.term(g) == step_of(self.term(f)),
    {
    }

    /// Where the smallest form of `f` is recorded, it is recorded too for
    /// what one round of the simplifier makes of `f`, and so for every form
    /// on the way from `f` to its smallest form.
    pub proof fn lemma_recorded_round(&self, f: Filter) -> (h: Filter)
        requires
            self.wf(),
            self.simplified_as(f) is Some,
        ensures
            self.contains(h),
            self.term(h) == simplify_round(self.term(f)),
            self.simplified_as(h) == self.simplified_as(f),
    {
        let s = self.shapes();
        let k = f.id;
        assert(is_key(self.simplified@, k));
        let w = choose|w: usize| #[trigger]
            self.simplified@.contains_key(w) && term_at(s, w as nat) == simplify_round(
                term_at(s, k as nat),
            ) && self.simplified@[w] == self.simplified@[k];
        Filter { id: w }
    }

    /// With a new operation behind them the nodes stay right, every node
    /// stands for what it stood for, and the new node stands for the
    /// expression of the operation.
    proof fn lemma_nodes_grown(&self, shape: Shape)
        requires
            self.wf(),
            self.holds(shape),
            forall|i: int| 0 <= i < self.shapes().len() ==> self.shapes()[i] != shape,
        ensures
            nodes_ok(self.shapes().push(shape)),
            forall|i: nat|
                i < self.shapes().len() ==> #[trigger] term_at(self.shapes().push(shape), i)
                    == term_at(self.shapes(), i),
            term_at(self.shapes().push(shape), self.shapes().len()) == self.term_of(shape),
    {
        let s0 = self.shapes();
        let s1 = s0.push(shape);
        let n = s0.len();
        assert forall|i: nat| i < s0.len() implies #[trigger] term_at(s1, i) == term_at(s0, i) by {
            lemma_term_at_prefix(s0, s1, i);
        }
        assert(below(shape, n as int));
        assert(s1[n as int] == shape);
        assert(n < s1.len());
        match shape {
            Shape::Compose(l) => {
                assert(term_at(s1, n) is Compose);
                assert(term_at(s1, n)->Compose_0.len() == l.len());
                assert forall|k: int| 0 <= k < l.len() implies term_at(s1, n)->Compose_0[k]
                    == self.terms(l)[k] by {
                    assert(self.contains(l[k]));
                    assert(l[k].id < n);
                    assert(term_at(s1, l[k].id as nat) == term_at(s0, l[k].id as nat));
                }
                assert(term_at(s1, n)->Compose_0 =~= self.terms(l));
            },
            Shape::Chain(a, b) => {
                assert(a.id < n && b.id < n);
                assert(term_at(s1, a.id as nat) == term_at(s0, a.id as nat));
                assert(term_at(s1, b.id as nat) == term_at(s0, b.id as nat));
            },
            Shape::Subtract(a, b) => {
                assert(a.id < n && b.id < n);
                assert(term_at(s1, a.id as nat) == term_at(s0, a.id as nat));
                assert(term_at(s1, b.id as nat) == term_at(s0, b.id as nat));
            },
            _ => {},
        }
        assert(term_at(s1, n) == self.term_of(shape));
        assert forall|i: nat, j: nat|
            i < s1.len() && j < s1.len() && #[trigger] term_at(s1, i) == #[trigger] term_at(
                s1,
                j,
            ) implies i == j by {
            if i < n && j == n {
                self.lemma_node(i as int);
                self.lemma_same_shape(s0[i as int], shape);
            } else if i == n && j < n {
                self.lemma_node(j as int);
                self.lemma_same_shape(s0[j as int], shape);
            }
        }
    }

    /// Two handles that stand for the same expression are the same handle.
    pub proof fn lemma_same_term(&self, f: Filter, g: Filter)
        requires
            self.wf(),
            self.contains(f),
            self.contains(g),
        ensures
            (self.term(f) == self.term(g)) == (f == g),
    {
    }

    /// Two lists of handles that stand for the same expressions are the same
    /// list.
    pub proof fn lemma_same_terms(&self, l: Seq<Filter>, m: Seq<Filter>)
        requires
            self.wf(),
            self.contains_all(l),
            self.contains_all(m),
        ensures
            (self.terms(l) == self.terms(m)) == (l == m),
    {
        if self.terms(l) == self.terms(m) {
            assert(l.len() == self.terms(l).len());
            assert(m.len() == self.terms(m).len());
            assert forall|k: int| 0 <= k < l.len() implies l[k] == m[k] by {
                assert(self.terms(l)[k] == self.terms(m)[k]);
                self.lemma_same_term(l[k], m[k]);
            }
            assert(l =~= m);
        }
    }

    /// Two operations over handles of this store that give the same
    /// expression are the same operation.
    pub proof fn lemma_same_shape(&self, s1: Shape, s2: Shape)
        requires
            self.wf(),
            self.holds(s1),
            self.holds(s2),
        ensures
            (self.term_of(s1) == self.term_of(s2)) == (s1 == s2),
    {
        if self.term_of(s1) == self.term_of(s2) {
            match (s1, s2) {
                (Shape::Chain(a, b), Shape::Chain(c, d)) => {
                    self.lemma_same_term(a, c);
                    self.lemma_same_term(b, d);
                },
                (Shape::Subtract(a, b), Shape::Subtract(c, d)) => {
                    self.lemma_same_term(a, c);
                    self.lemma_same_term(b, d);
                },
                (Shape::Compose(l), Shape::Compose(m)) => {
                    self.lemma_same_terms(l, m);
                },
                _ => {},
            }
        }
    }

    /// A list of handles of `old` stands in a store that extends `old` for
    /// the expressions it stood for there.
    pub proof fn lemma_extends_terms(&self, old: Store, l: Seq<Filter>)
        requires
            self.extends(old),
            old.contains_all(l),
        ensures
            self.contains_all(l),
            self.terms(l) == old.terms(l),
    {
        assert(self.terms(l) =~= old.terms(l));
    }

    /// An empty store whose rewrites give up after `limit` steps.
    pub fn new(limit: usize) -> (r: Store)
        ensures
            r.wf(),
            r.step_limit() == limit,
            forall|f: Filter| !r.contains(f),
            forall|f: Filter| r.simplified_as(f) is None && r.stepped_as(f) is None,
    {
        Store {
            nodes: Vec::new(),
            index: HashMap::new(),
            simplified: HashMap::new(),
            stepped: HashMap::new(),
            limit,
        }
    }

    /// The number of steps and of rounds after which the rewrites give up.
    pub fn limit(&self) -> (n: usize)
        ensures
            n == self.step_limit(),
    {
        self.limit
    }

    /// Whether `f` is a handle of this store.
    pub fn has(&self, f: Filter) -> (r: bool)
        ensures
            r == self.contains(f),
    {
        f.id < self.nodes.len()
    }

    /// Whether every member of `l` is a handle of this store.
    pub fn has_all(&self, l: &Vec<Filter>) -> (r: bool)
        ensures
            r == self.contains_all(l@),
    {
        let mut i: usize = 0;
        while i < l.len()
            invariant
                i <= l.len(),
                forall|k: int| 0 <= k < i ==> self.contains(#[trigger] l@[k]),
            decreases l.len() - i,
        {
            if l[i].id >= self.nodes.len() {
                return false;
            }
            i += 1;
        }
        true
    }

    /// Whether every operand of `op` is a handle of this store.
    pub fn accepts(&self, op: &Op) -> (r: bool)
        ensures
            r == self.holds(op@),
    {
        match op {
            Op::Chain(a, b) => self.has(*a) && self.has(*b),
            Op::Subtract(a, b) => self.has(*a) && self.has(*b),
            Op::Compose(l) => self.has_all(l),
            _ => true,
        }
    }

    /// The number of the node with the operation `op`, if there is one.
    fn find(&self, op: &Op, h: u64) -> (r: Option<usize>)
        requires
            self.wf(),
            h == hash_of(op@),
        ensures
            match r {
                Some(i) => i < self.nodes@.len() && self.nodes@[i as int]@ == op@,
                None => forall|i: int| 0 <= i < self.nodes@.len() ==> self.nodes@[i]@ != op@,
            },
    {
        let bucket = match self.index.get(&h) {
            Some(b) => b,
            None => {
                assert forall|i: int| 0 <= i < self.nodes@.len() implies self.nodes@[i]@ != op@ by {
                    assert(self.shapes()[i] == self.nodes@[i]@);
                }
                return None;
            },
        };
        let mut k: usize = 0;
        while k < bucket.len()
            invariant
                k <= bucket@.len(),
                self.wf(),
                h == hash_of(op@),
                self.index@.contains_key(h),
                bucket@ == self.index@[h]@,
                forall|j: int| 0 <= j < k ==> self.nodes@[bucket@[j] as int]@ != op@,
            decreases bucket.len() - k,
        {
            let i: usize = bucket[k];
            if same_op(&self.nodes[i], op) {
                return Some(i);
            }
            k += 1;
        }
        let total: usize = self.nodes.len();
        assert forall|i: int| 0 <= i < self.nodes@.len() implies self.nodes@[i]@ != op@ by {
            assert(self.shapes()[i] == self.nodes@[i]@);
            assert(i < total);
            if self.nodes@[i]@ == op@ {
                let n = i as usize;
                assert(hash_of(self.shapes()[i]) == h);
                assert(bucket@.contains(n));
                let j = choose|j: int| 0 <= j < bucket@.len() && bucket@[j] == n;
                assert(self.nodes@[bucket@[j] as int]@ != op@);
            }
        }
        None
    }

    /// What is recorded as the smallest form of `f`.
    pub(crate) fn simplified(&self, f: Filter) -> (r: Option<Filter>)
        requires
            self.wf(),
            self.contains(f),
        ensures
            r == self.simplified_as(f),
            r matches Some(g) ==> self.contains(g) && self.term(g) == simplify_of(self.term(f)),
    {
        match self.simplified.get(&f.id) {
            Some(g) => Some(*g),
            None => None,
        }
    }

    /// Records `g` as the smallest form of `f`; `next` is what one round of
    /// the simplifier makes of `f`.
    pub(crate) fn record_simplified(&mut self, f: Filter, g: Filter, next: Filter)
        requires
            old(self).wf(),
            old(self).contains(f),
            old(self).contains(g),
            old(self).term(g) == simplify_of(old(self).term(f)),
            old(self).contains(next),
            old(self).term(next) == simplify_round(old(self).term(f)),
            next == f || old(self).simplified_as(next) == Some(g),
        ensures
            final(self).wf(),
            final(self).extends(*old(self)),
            final(self).simplified_as(f) == Some(g),
    {
        proof {
            if self.simplified@.contains_key(f.id) {
                self.lemma_same_term(self.simplified@[f.id], g);
            }
        }
        self.simplified.insert(f.id, g);
        proof {
            let s = self.shapes();
            assert(s == old(self).shapes());
            assert forall|k: usize| #[trigger] is_key(self.simplified@, k) implies exists|
                h: usize,
            | #[trigger]
                self.simplified@.contains_key(h) && term_at(s, h as nat) == simplify_round(
                    term_at(s, k as nat),
                ) && self.simplified@[h] == self.simplified@[k] by {
                if k == f.id {
                    let h = next.id;
                    assert(self.simplified@.contains_key(h) && term_at(s, h as nat)
                        == simplify_round(term_at(s, k as nat)) && self.simplified@[h]
                        == self.simplified@[k]);
                } else {
                    assert(is_key(old(self).simplified@, k));
                    let h = choose|h: usize| #[trigger]
                        old(self).simplified@.contains_key(h) && term_at(s, h as nat)
                            == simplify_round(term_at(s, k as nat)) && old(self).simplified@[h]
                            == old(self).simplified@[k];
                    assert(self.simplified@.contains_key(h) && term_at(s, h as nat)
                        == simplify_round(term_at(s, k as nat)) && self.simplified@[h]
                        == self.simplified@[k]);
                }
            }
        }
    }

    /// What is recorded as one step from `f`.
    pub(crate) fn stepped(&self, f: Filter) -> (r: Option<Filter>)
        requires
            self.wf(),
            self.contains(f),
        ensures
            r == self.stepped_as(f),
            r matches Some(g) ==> self.contains(g) && self.term(g) == step_of(self.term(f)),
    {
        match self.stepped.get(&f.id) {
            Some(g) => Some(*g),
            None => None,
        }
    }

    /// Records `g` as one step from `f`.
    pub(crate) fn record_stepped(&mut self, f: Filter, g: Filter)
        requires
            old(self).wf(),
            old(self).contains(f),
            old(self).contains(g),
            old(self).term(g) == step_of(old(self).term(f)),
        ensures
            final(self).wf(),
            final(self).extends(*old(self)),
            final(self).stepped_as(f) == Some(g),
    {
        proof {
            if self.stepped@.contains_key(f.id) {
                self.lemma_same_term(self.stepped@[f.id], g);
            }
        }
        self.stepped.insert(f.id, g);
        assert(self.shapes() == old(self).shapes());
    }
}

/// A copy of a list of handles.
pub fn copy_list(l: &Vec<Filter>) -> (r: Vec<Filter>)
    ensures
        r@ == l@,
{
    let mut r: Vec<Filter> = Vec::new();
    let mut i: usize = 0;
    while i < l.len()
        invariant
            i <= l.len(),
            r@ == l@.take(i as int),
        decreases l.len() - i,
    {
        r.push(l[i]);
        assert(l@.take(i + 1) =~= l@.take(i as int).push(l@[i as int]));
        i += 1;
    }
    assert(l@.take(l@.len() as int) =~= l@);
    r
}

/// A copy of an operation.
pub fn copy_op(op: &Op) -> (r: Op)
    ensures
        r@ == op@,
{
    match op {
        Op::Nop => Op::Nop,
        Op::Empty => Op::Empty,
        Op::Subdir(p) => Op::Subdir(p.duplicate()),
        Op::Prefix(p) => Op::Prefix(p.duplicate()),
        Op::Chain(a, b) => Op::Chain(*a, *b),
        Op::Compose(l) => Op::Compose(copy_list(l)),
        Op::Subtract(a, b) => Op::Subtract(*a, *b),
    }
}

/// Whether two lists hold the same handles in the same order.
pub fn same_list(l: &Vec<Filter>, m: &Vec<Filter>) -> (r: bool)
    ensures
        r == (l@ == m@),
{
    if l.len() != m.len() {
        return false;
    }
    let mut i: usize = 0;
    while i < l.len()
        invariant
            i <= l.len(),
            l.len() == m.len(),
            forall|k: int| 0 <= k < i ==> l@[k] == m@[k],
        decreases l.len() - i,
    {
        if l[i].id != m[i].id {
            return false;
        }
        i += 1;
    }
    assert(l@ =~= m@);
    true
}

/// Whether two operations are the same operation on the same operands.
pub fn same_op(a: &Op, b: &Op) -> (r: bool)
    ensures
        r == (a@ == b@),
{
    match (a, b) {
        (Op::Nop, Op::Nop) => true,
        (Op::Empty, Op::Empty) => true,
        (Op::Subdir(p), Op::Subdir(q)) => p.same(q),
        (Op::Prefix(p), Op::Prefix(q)) => p.same(q),
        (Op::Chain(a1, b1), Op::Chain(a2, b2)) => a1.id == a2.id && b1.id == b2.id,
        (Op::Compose(l), Op::Compose(m)) => same_list(l, m),
        (Op::Subtract(a1, b1), Op::Subtract(a2, b2)) => a1.id == a2.id && b1.id == b2.id,
        _ => false,
    }
}

/// The outermost operation of `f`.
pub fn to_op(store: &Store, f: Filter) -> (op: Op)
    requires
        store.wf(),
        store.contains(f),
    ensures
        store.holds(op@),
        store.term_of(op@) == store.term(f),
{
    proof {
        store.lemma_node(f.id as int);
    }
    copy_op(&store.nodes[f.id])
}

/// The handle of the filter with the outermost operation `op`: that of the
/// stored filter if the store has it, else that of a new one.
pub fn to_filter(store: &mut Store, op: Op) -> (f: Filter)
    requires
        old(store).wf(),
        old(store).holds(op@),
    ensures
        final(store).wf(),
        final(store).extends(*old(store)),
        final(store).contains(f),
        final(store).term(f) == old(store).term_of(op@),
        old(store).contains(f) ==> old(store).term(f) == old(store).term_of(op@),
{
    let h = hash_op(&op);
    match store.find(&op, h) {
        Some(i) => {
            proof {
                store.lemma_node(i as int);
            }
            Filter { id: i }
        },
        None => {
            let n: usize = store.nodes.len();
            let ghost s0 = store.shapes();
            let ghost shape = op@;
            store.nodes.push(op);
            let mut bucket: Vec<usize> = match store.index.remove(&h) {
                Some(b) => b,
                None => Vec::new(),
            };
            let ghost b0 = bucket@;
            bucket.push(n);
            let ghost added = bucket;
            store.index.insert(h, bucket);
            proof {
                assert(store.shapes() =~= s0.push(shape));
                assert(store.index@ =~= old(store).index@.insert(h, added));
                lemma_index_grown(s0, shape, old(store).index@, store.index@, b0, added, n);
                old(store).lemma_nodes_grown(shape);
                lemma_memo_grown(s0, store.shapes(), store.simplified@, store.stepped@);
            }
            Filter { id: n }
        },
    }
}

} // verus!
