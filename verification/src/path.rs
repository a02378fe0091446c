//! Relative paths as sequences of components.

use vstd::prelude::*;
use vstd::string::StringSliceAdditionalSpecFns;
use crate::hashing::{hash_bytes, hash_of_bytes, hash_of_path, mix};

verus! {

/// Whether byte string `a` comes before or equals `b` from index `i` on,
/// given that they agree before `i`.
pub open spec fn bytes_le_from(a: Seq<u8>, b: Seq<u8>, i: int) -> bool
    decreases a.len() - i,
{
    if i < 0 || i >= a.len() {
        true
    } else if i >= b.len() {
        false
    } else if a[i] != b[i] {
        a[i] < b[i]
    } else {
        bytes_le_from(a, b, i + 1)
    }
}

/// Lexicographic order on byte strings.
pub open spec fn bytes_le(a: Seq<u8>, b: Seq<u8>) -> bool {
    bytes_le_from(a, b, 0)
}

/// Whether component sequence `a` comes before or equals `b` from index `i`
/// on, given that they agree before `i`.
pub open spec fn path_le_from(a: Seq<Seq<u8>>, b: Seq<Seq<u8>>, i: int) -> bool
    decreases a.len() - i,
{
    if i < 0 || i >= a.len() {
        true
    } else if i >= b.len() {
        false
    } else if a[i] != b[i] {
        bytes_le(a[i], b[i])
    } else {
        path_le_from(a, b, i + 1)
    }
}

/// The order of paths: lexicographic by component, each component compared
/// as a byte string.
pub open spec fn path_le(a: Seq<Seq<u8>>, b: Seq<Seq<u8>>) -> bool {
    path_le_from(a, b, 0)
}

/// The components of the text `bytes[from..]`, read with `/` as separator;
/// `cur` is the component that has been read so far. Empty components are
/// dropped, so doubled, leading and trailing separators do not matter.
pub open spec fn split_from(bytes: Seq<u8>, from: int, cur: Seq<u8>) -> Seq<Seq<u8>>
    decreases bytes.len() - from,
{
    if from < 0 || from >= bytes.len() {
        if cur.len() == 0 {
            Seq::empty()
        } else {
            seq![cur]
        }
    } else if bytes[from] == 47u8 {
        if cur.len() == 0 {
            split_from(bytes, from + 1, cur)
        } else {
            seq![cur] + split_from(bytes, from + 1, Seq::empty())
        }
    } else {
        split_from(bytes, from + 1, cur.push(bytes[from]))
    }
}

/// The components of a `/`-separated text.
pub open spec fn split(bytes: Seq<u8>) -> Seq<Seq<u8>> {
    split_from(bytes, 0, Seq::empty())
}

/// Any two byte strings are comparable.
pub proof fn lemma_bytes_le_total(a: Seq<u8>, b: Seq<u8>, i: int)
    requires
        0 <= i,
    ensures
        bytes_le_from(a, b, i) || bytes_le_from(b, a, i),
    decreases a.len() - i,
{
    if i < a.len() && i < b.len() && a[i] == b[i] {
        lemma_bytes_le_total(a, b, i + 1);
    }
}

/// The order of byte strings is transitive.
pub proof fn lemma_bytes_le_transitive(a: Seq<u8>, b: Seq<u8>, c: Seq<u8>, i: int)
    requires
        0 <= i,
        bytes_le_from(a, b, i),
        bytes_le_from(b, c, i),
    ensures
        bytes_le_from(a, c, i),
    decreases a.len() - i,
{
    if i < a.len() && a[i] == b[i] && b[i] == c[i] {
        lemma_bytes_le_transitive(a, b, c, i + 1);
    }
}

/// Two byte strings that come before each other are the same.
pub proof fn lemma_bytes_le_antisymmetric(a: Seq<u8>, b: Seq<u8>, i: int)
    requires
        0 <= i <= a.len(),
        i <= b.len(),
        a.take(i) == b.take(i),
        bytes_le_from(a, b, i),
        bytes_le_from(b, a, i),
    ensures
        a == b,
    decreases a.len() - i,
{
    if i < a.len() {
        assert(a.take(i + 1) =~= a.take(i).push(a[i]));
        assert(b.take(i + 1) =~= b.take(i).push(b[i]));
        lemma_bytes_le_antisymmetric(a, b, i + 1);
    } else {
        assert(a.take(i) =~= a);
        assert(b.take(i) =~= b);
    }
}

/// Any two paths are comparable.
pub proof fn lemma_path_le_total(a: Seq<Seq<u8>>, b: Seq<Seq<u8>>, i: int)
    requires
        0 <= i,
    ensures
        path_le_from(a, b, i) || path_le_from(b, a, i),
    decreases a.len() - i,
{
    if i < a.len() && i < b.len() {
        if a[i] == b[i] {
            lemma_path_le_total(a, b, i + 1);
        } else {
            lemma_bytes_le_total(a[i], b[i], 0);
        }
    }
}

/// The order of paths is transitive.
pub proof fn lemma_path_le_transitive(a: Seq<Seq<u8>>, b: Seq<Seq<u8>>, c: Seq<Seq<u8>>, i: int)
    requires
        0 <= i,
        path_le_from(a, b, i),
        path_le_from(b, c, i),
    ensures
        path_le_from(a, c, i),
    decreases a.len() - i,
{
    if i < a.len() {
        if a[i] == b[i] && b[i] == c[i] {
            lemma_path_le_transitive(a, b, c, i + 1);
        } else if a[i] != b[i] && b[i] != c[i] {
            lemma_bytes_le_transitive(a[i], b[i], c[i], 0);
            if a[i] == c[i] {
                assert(a[i].take(0) =~= b[i].take(0));
                lemma_bytes_le_antisymmetric(a[i], b[i], 0);
            }
        }
    }
}

/// Two paths that come before each other are the same path.
pub proof fn lemma_path_le_antisymmetric(a: Seq<Seq<u8>>, b: Seq<Seq<u8>>, i: int)
    requires
        0 <= i <= a.len(),
        i <= b.len(),
        a.take(i) == b.take(i),
        path_le_from(a, b, i),
        path_le_from(b, a, i),
    ensures
        a == b,
    decreases a.len() - i,
{
    if i < a.len() {
        if a[i] != b[i] {
            assert(a[i].take(0) =~= b[i].take(0));
            lemma_bytes_le_antisymmetric(a[i], b[i], 0);
        }
        assert(a.take(i + 1) =~= a.take(i).push(a[i]));
        assert(b.take(i + 1) =~= b.take(i).push(b[i]));
        lemma_path_le_antisymmetric(a, b, i + 1);
    } else {
        assert(a.take(i) =~= a);
        assert(b.take(i) =~= b);
    }
}

/// A relative path: a sequence of components, the outermost first.
#[derive(Debug, PartialEq, Eq)]
pub struct Path {
    parts: Vec<Vec<u8>>,
}

impl View for Path {
    type V = Seq<Seq<u8>>;

    closed spec fn view(&self) -> Seq<Seq<u8>> {
        Seq::new(self.parts@.len(), |i: int| self.parts@[i]@)
    }
}

fn bytes_same(a: &Vec<u8>, b: &Vec<u8>) -> (r: bool)
    ensures
        r == (a@ == b@),
{
    if a.len() != b.len() {
        return false;
    }
    let mut i: usize = 0;
    while i < a.len()
        invariant
            i <= a.len(),
            a.len() == b.len(),
            forall|k: int| 0 <= k < i ==> a@[k] == b@[k],
        decreases a.len() - i,
    {
        if a[i] != b[i] {
            return false;
        }
        i += 1;
    }
    assert(a@ =~= b@);
    true
}

fn bytes_before(a: &Vec<u8>, b: &Vec<u8>) -> (r: bool)
    ensures
        r == bytes_le(a@, b@),
{
    let mut i: usize = 0;
    while i < a.len()
        invariant
            i <= a.len(),
            bytes_le(a@, b@) == bytes_le_from(a@, b@, i as int),
        decreases a.len() - i,
    {
        if i >= b.len() {
            return false;
        }
        if a[i] != b[i] {
            return a[i] < b[i];
        }
        i += 1;
    }
    true
}

fn bytes_copy(a: &Vec<u8>) -> (r: Vec<u8>)
    ensures
        r@ == a@,
{
    let mut r: Vec<u8> = Vec::new();
    let mut i: usize = 0;
    while i < a.len()
        invariant
            i <= a.len(),
            r@ == a@.take(i as int),
        decreases a.len() - i,
    {
        r.push(a[i]);
        assert(a@.take(i + 1) =~= a@.take(i as int).push(a@[i as int]));
        i += 1;
    }
    assert(a@.take(a@.len() as int) =~= a@);
    r
}

impl Path {
    /// The path without components.
    pub fn new() -> (r: Path)
        ensures
            r@ == Seq::<Seq<u8>>::empty(),
    {
        let r = Path { parts: Vec::new() };
        assert(r@ =~= Seq::<Seq<u8>>::empty());
        r
    }

    /// Reads a `/`-separated path. Empty components are dropped.
    pub fn parse(text: &str) -> (r: Path)
        ensures
            r@ == split(text.spec_bytes()),
    {
        let bytes = text.as_bytes();
        let mut parts: Vec<Vec<u8>> = Vec::new();
        let mut cur: Vec<u8> = Vec::new();
        let mut i: usize = 0;
        let ghost mut done: Seq<Seq<u8>> = Seq::empty();
        while i < bytes.len()
            invariant
                i <= bytes.len(),
                done == Seq::new(parts@.len(), |k: int| parts@[k]@),
                split(bytes@) == done + split_from(bytes@, i as int, cur@),
            decreases bytes.len() - i,
        {
            let b: u8 = bytes[i];
            if b == 47u8 {
                if cur.len() > 0 {
                    let ghost before = done;
                    proof {
                        done = done.push(cur@);
                        assert(done + split_from(bytes@, i + 1, Seq::empty()) =~= before + (seq![
                            cur@,
                        ] + split_from(bytes@, i + 1, Seq::empty())));
                    }
                    parts.push(cur);
                    cur = Vec::new();
                    assert(done =~= Seq::new(parts@.len(), |k: int| parts@[k]@));
                }
            } else {
                cur.push(b);
            }
            i += 1;
        }
        if cur.len() > 0 {
            proof {
                done = done.push(cur@);
            }
            parts.push(cur);
        }
        let r = Path { parts };
        assert(r@ =~= split(bytes@));
        r
    }

    /// The number of components.
    pub fn len(&self) -> (n: usize)
        ensures
            n == self@.len(),
    {
        self.parts.len()
    }

    /// A copy of component `i`.
    pub fn component(&self, i: usize) -> (c: Vec<u8>)
        requires
            i < self@.len(),
        ensures
            c@ == self@[i as int],
    {
        bytes_copy(&self.parts[i])
    }

    /// The hash of this path.
    pub fn hash(&self) -> (h: u64)
        ensures
            h == hash_of_path(self@),
    {
        let mut h: u64 = 11;
        let mut i: usize = 0;
        assert(self@.take(0) =~= Seq::<Seq<u8>>::empty());
        while i < self.parts.len()
            invariant
                i <= self.parts@.len(),
                h == hash_of_path(self@.take(i as int)),
            decreases self.parts.len() - i,
        {
            assert(self@.take(i + 1).drop_last() =~= self@.take(i as int));
            assert(self@.take(i + 1).last() == self.parts@[i as int]@);
            h = mix(h, hash_bytes(&self.parts[i]));
            i += 1;
        }
        assert(self@.take(self@.len() as int) =~= self@);
        h
    }

    /// A copy of this path.
    pub fn duplicate(&self) -> (r: Path)
        ensures
            r@ == self@,
    {
        let r = self.range(0, self.parts.len());
        assert(self@.subrange(0, self@.len() as int) =~= self@);
        r
    }

    /// The components from `from` up to, not including, `to`.
    fn range(&self, from: usize, to: usize) -> (r: Path)
        requires
            from <= to <= self@.len(),
        ensures
            r@ == self@.subrange(from as int, to as int),
    {
        let mut parts: Vec<Vec<u8>> = Vec::new();
        let mut i: usize = from;
        while i < to
            invariant
                from <= i <= to,
                to <= self.parts@.len(),
                parts@.len() == i - from,
                forall|k: int| 0 <= k < parts@.len() ==> parts@[k]@ == self.parts@[from + k]@,
            decreases to - i,
        {
            parts.push(bytes_copy(&self.parts[i]));
            i += 1;
        }
        let r = Path { parts };
        assert(r@ =~= self@.subrange(from as int, to as int));
        r
    }

    /// The path of the first component alone.
    pub fn head(&self) -> (r: Path)
        requires
            self@.len() > 0,
        ensures
            r@ == self@.take(1),
    {
        self.range(0, 1)
    }

    /// The path without its first component.
    pub fn tail(&self) -> (r: Path)
        requires
            self@.len() > 0,
        ensures
            r@ == self@.skip(1),
    {
        self.range(1, self.parts.len())
    }

    /// This path followed by `other`.
    pub fn join(&self, other: &Path) -> (r: Path)
        ensures
            r@ == self@ + other@,
    {
        let mut parts: Vec<Vec<u8>> = Vec::new();
        let mut i: usize = 0;
        while i < self.parts.len()
            invariant
                i <= self.parts@.len(),
                parts@.len() == i,
                forall|k: int| 0 <= k < i ==> parts@[k]@ == self.parts@[k]@,
            decreases self.parts.len() - i,
        {
            parts.push(bytes_copy(&self.parts[i]));
            i += 1;
        }
        let mut j: usize = 0;
        while j < other.parts.len()
            invariant
                j <= other.parts@.len(),
                parts@.len() == self.parts@.len() + j,
                forall|k: int| 0 <= k < self.parts@.len() ==> parts@[k]@ == self.parts@[k]@,
                forall|k: int| 0 <= k < j ==> parts@[self.parts@.len() + k]@ == other.parts@[k]@,
            decreases other.parts.len() - j,
        {
            parts.push(bytes_copy(&other.parts[j]));
            j += 1;
        }
        let r = Path { parts };
        assert(r@ =~= self@ + other@);
        r
    }

    /// Whether the two paths have the same components.
    pub fn same(&self, other: &Path) -> (r: bool)
        ensures
            r == (self@ == other@),
    {
        if self.parts.len() != other.parts.len() {
            assert(self@.len() != other@.len());
            return false;
        }
        let mut i: usize = 0;
        while i < self.parts.len()
            invariant
                i <= self.parts@.len(),
                self.parts@.len() == other.parts@.len(),
                forall|k: int| 0 <= k < i ==> self.parts@[k]@ == other.parts@[k]@,
            decreases self.parts.len() - i,
        {
            if !bytes_same(&self.parts[i], &other.parts[i]) {
                assert(self@[i as int] != other@[i as int]);
                return false;
            }
            i += 1;
        }
        assert(self@ =~= other@);
        true
    }

    /// Whether this path comes before `other` or equals it.
    pub fn before_or_same(&self, other: &Path) -> (r: bool)
        ensures
            r == path_le(self@, other@),
    {
        let mut i: usize = 0;
        while i < self.parts.len()
            invariant
                i <= self.parts@.len(),
                path_le(self@, other@) == path_le_from(self@, other@, i as int),
            decreases self.parts.len() - i,
        {
            if i >= other.parts.len() {
                return false;
            }
            if !bytes_same(&self.parts[i], &other.parts[i]) {
                assert(self@[i as int] != other@[i as int]);
                return bytes_before(&self.parts[i], &other.parts[i]);
            }
            assert(self@[i as int] == other@[i as int]);
            i += 1;
        }
        true
    }
}

} // verus!
