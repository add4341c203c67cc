//! An ordered table: rows sorted by key, each key at most once.
//!
//! The model of a table is the sequence of its rows in key order.

use vstd::prelude::*;

use crate::text;

verus! {

/// A strict total order on key models.
pub trait Ordered: Sized {
    spec fn before(self, other: Self) -> bool;

    proof fn irreflexive(a: Self)
        ensures
            !a.before(a),
    ;

    proof fn transitive(a: Self, b: Self, c: Self)
        requires
            a.before(b),
            b.before(c),
        ensures
            a.before(c),
    ;

    proof fn total(a: Self, b: Self)
        ensures
            a == b || a.before(b) || b.before(a),
    ;
}

/// A type whose values can be keys of a table.
pub trait Key: Sized {
    type O: Ordered;

    /// The model of a key.
    spec fn key(&self) -> Self::O;

    fn is_before(&self, other: &Self) -> (r: bool)
        ensures
            r == self.key().before(other.key()),
    ;
}

impl Ordered for u8 {
    open spec fn before(self, other: Self) -> bool {
        self < other
    }

    proof fn irreflexive(a: Self) {
    }

    proof fn transitive(a: Self, b: Self, c: Self) {
    }

    proof fn total(a: Self, b: Self) {
    }
}

impl Key for u8 {
    type O = u8;

    open spec fn key(&self) -> u8 {
        *self
    }

    fn is_before(&self, other: &Self) -> (r: bool) {
        let r = *self < *other;
        assert((*self).before(*other) == r);
        r
    }
}

impl Ordered for u32 {
    open spec fn before(self, other: Self) -> bool {
        self < other
    }

    proof fn irreflexive(a: Self) {
    }

    proof fn transitive(a: Self, b: Self, c: Self) {
    }

    proof fn total(a: Self, b: Self) {
    }
}

impl Key for u32 {
    type O = u32;

    open spec fn key(&self) -> u32 {
        *self
    }

    fn is_before(&self, other: &Self) -> (r: bool) {
        let r = *self < *other;
        assert((*self).before(*other) == r);
        r
    }
}

impl Ordered for u64 {
    open spec fn before(self, other: Self) -> bool {
        self < other
    }

    proof fn irreflexive(a: Self) {
    }

    proof fn transitive(a: Self, b: Self, c: Self) {
    }

    proof fn total(a: Self, b: Self) {
    }
}

impl Key for u64 {
    type O = u64;

    open spec fn key(&self) -> u64 {
        *self
    }

    fn is_before(&self, other: &Self) -> (r: bool) {
        let r = *self < *other;
        assert((*self).before(*other) == r);
        r
    }
}

impl Ordered for usize {
    open spec fn before(self, other: Self) -> bool {
        self < other
    }

    proof fn irreflexive(a: Self) {
    }

    proof fn transitive(a: Self, b: Self, c: Self) {
    }

    proof fn total(a: Self, b: Self) {
    }
}

impl Key for usize {
    type O = usize;

    open spec fn key(&self) -> usize {
        *self
    }

    fn is_before(&self, other: &Self) -> (r: bool) {
        let r = *self < *other;
        assert((*self).before(*other) == r);
        r
    }
}

impl Ordered for i32 {
    open spec fn before(self, other: Self) -> bool {
        self < other
    }

    proof fn irreflexive(a: Self) {
    }

    proof fn transitive(a: Self, b: Self, c: Self) {
    }

    proof fn total(a: Self, b: Self) {
    }
}

impl Key for i32 {
    type O = i32;

    open spec fn key(&self) -> i32 {
        *self
    }

    fn is_before(&self, other: &Self) -> (r: bool) {
        let r = *self < *other;
        assert((*self).before(*other) == r);
        r
    }
}

impl Ordered for i64 {
    open spec fn before(self, other: Self) -> bool {
        self < other
    }

    proof fn irreflexive(a: Self) {
    }

    proof fn transitive(a: Self, b: Self, c: Self) {
    }

    proof fn total(a: Self, b: Self) {
    }
}

impl Key for i64 {
    type O = i64;

    open spec fn key(&self) -> i64 {
        *self
    }

    fn is_before(&self, other: &Self) -> (r: bool) {
        let r = *self < *other;
        assert((*self).before(*other) == r);
        r
    }
}

/// Lexicographic order of character sequences from index `i` on, which is also
/// the order of their UTF-8 encodings.
pub open spec fn lex_from(a: Seq<char>, b: Seq<char>, i: int) -> bool
    decreases b.len() - i,
{
    if i < 0 || i >= b.len() {
        false
    } else if i >= a.len() {
        true
    } else if a[i] != b[i] {
        a[i] < b[i]
    } else {
        lex_from(a, b, i + 1)
    }
}

proof fn lex_irreflexive(a: Seq<char>, i: int)
    requires
        0 <= i,
    ensures
        !lex_from(a, a, i),
    decreases a.len() - i,
{
    if i < a.len() {
        lex_irreflexive(a, i + 1);
    }
}

proof fn lex_transitive(a: Seq<char>, b: Seq<char>, c: Seq<char>, i: int)
    requires
        0 <= i,
        lex_from(a, b, i),
        lex_from(b, c, i),
    ensures
        lex_from(a, c, i),
    decreases a.len() + b.len() + c.len() - i,
{
    if i < a.len() && i < b.len() && i < c.len() && a[i] == b[i] && b[i] == c[i] {
        lex_transitive(a, b, c, i + 1);
    }
}

proof fn lex_total(a: Seq<char>, b: Seq<char>, i: int)
    requires
        0 <= i <= a.len(),
        i <= b.len(),
        forall|k: int| 0 <= k < i ==> a[k] == b[k],
    ensures
        a == b || lex_from(a, b, i) || lex_from(b, a, i),
    decreases a.len() - i,
{
    if i < a.len() && i < b.len() && a[i] == b[i] {
        lex_total(a, b, i + 1);
    } else if i == a.len() && i == b.len() {
        assert(a =~= b);
    }
}

impl Ordered for Seq<char> {
    open spec fn before(self, other: Self) -> bool {
        lex_from(self, other, 0)
    }

    proof fn irreflexive(a: Self) {
        lex_irreflexive(a, 0);
    }

    proof fn transitive(a: Self, b: Self, c: Self) {
        lex_transitive(a, b, c, 0);
    }

    proof fn total(a: Self, b: Self) {
        lex_total(a, b, 0);
    }
}

/// Whether `a` comes before `b` in the order of strings.
pub fn string_before(a: &str, b: &str) -> (r: bool)
    ensures
        r == a@.before(b@),
{
    let x = text::chars_of(a);
    let y = text::chars_of(b);
    let mut i: usize = 0;
    while i < y.len()
        invariant
            x@ == a@,
            y@ == b@,
            i <= y@.len(),
            lex_from(a@, b@, 0) == lex_from(a@, b@, i as int),
        decreases y@.len() - i,
    {
        if i >= x.len() {
            return true;
        }
        if x[i] != y[i] {
            return x[i] < y[i];
        }
        i += 1;
    }
    false
}

impl Key for String {
    type O = Seq<char>;

    open spec fn key(&self) -> Seq<char> {
        self@
    }

    fn is_before(&self, other: &Self) -> (r: bool) {
        string_before(self.as_str(), other.as_str())
    }
}

impl<A: Ordered> Ordered for Option<A> {
    open spec fn before(self, other: Self) -> bool {
        match (self, other) {
            (_, None) => false,
            (None, Some(_)) => true,
            (Some(a), Some(b)) => a.before(b),
        }
    }

    proof fn irreflexive(a: Self) {
        if let Some(x) = a {
            A::irreflexive(x);
        }
    }

    proof fn transitive(a: Self, b: Self, c: Self) {
        if let (Some(x), Some(y), Some(z)) = (a, b, c) {
            A::transitive(x, y, z);
        }
    }

    proof fn total(a: Self, b: Self) {
        if let (Some(x), Some(y)) = (a, b) {
            A::total(x, y);
        }
    }
}

impl<A: Key> Key for Option<A> {
    type O = Option<A::O>;

    open spec fn key(&self) -> Option<A::O> {
        match self {
            Some(a) => Some(a.key()),
            None => None,
        }
    }

    fn is_before(&self, other: &Self) -> (r: bool) {
        match (self, other) {
            (_, None) => false,
            (None, Some(_)) => true,
            (Some(a), Some(b)) => a.is_before(b),
        }
    }
}

impl<A: Ordered, B: Ordered> Ordered for (A, B) {
    open spec fn before(self, other: Self) -> bool {
        self.0.before(other.0) || (self.0 == other.0 && self.1.before(other.1))
    }

    proof fn irreflexive(a: Self) {
        A::irreflexive(a.0);
        B::irreflexive(a.1);
    }

    proof fn transitive(a: Self, b: Self, c: Self) {
        if a.0.before(b.0) && b.0.before(c.0) {
            A::transitive(a.0, b.0, c.0);
        }
        if a.1.before(b.1) && b.1.before(c.1) {
            B::transitive(a.1, b.1, c.1);
        }
    }

    proof fn total(a: Self, b: Self) {
        A::total(a.0, b.0);
        B::total(a.1, b.1);
    }
}

impl<A: Ordered, B: Ordered, C: Ordered> Ordered for (A, B, C) {
    open spec fn before(self, other: Self) -> bool {
        self.0.before(other.0) || (self.0 == other.0 && (self.1, self.2).before((other.1, other.2)))
    }

    proof fn irreflexive(a: Self) {
        A::irreflexive(a.0);
        <(B, C)>::irreflexive((a.1, a.2));
    }

    proof fn transitive(a: Self, b: Self, c: Self) {
        if a.0.before(b.0) && b.0.before(c.0) {
            A::transitive(a.0, b.0, c.0);
        }
        if (a.1, a.2).before((b.1, b.2)) && (b.1, b.2).before((c.1, c.2)) {
            <(B, C)>::transitive((a.1, a.2), (b.1, b.2), (c.1, c.2));
        }
    }

    proof fn total(a: Self, b: Self) {
        A::total(a.0, b.0);
        <(B, C)>::total((a.1, a.2), (b.1, b.2));
    }
}

/// Whether two keys are the same.
pub fn same_key<K: Key>(a: &K, b: &K) -> (r: bool)
    ensures
        r == (a.key() == b.key()),
{
    proof {
        K::O::total(a.key(), b.key());
        K::O::irreflexive(a.key());
    }
    !a.is_before(b) && !b.is_before(a)
}

impl<A: Key, B: Key, C: Key> Key for (A, B, C) {
    type O = (A::O, B::O, C::O);

    open spec fn key(&self) -> (A::O, B::O, C::O) {
        (self.0.key(), self.1.key(), self.2.key())
    }

    fn is_before(&self, other: &Self) -> (r: bool) {
        let ghost a = (self.0.key(), self.1.key(), self.2.key());
        let ghost b = (other.0.key(), other.1.key(), other.2.key());
        proof {
            assert(self.key() == a && other.key() == b);
            assert((a.1, a.2).before((b.1, b.2)) == (a.1.before(b.1) || (a.1 == b.1 && a.2.before(b.2))));
            assert(a.before(b) == (a.0.before(b.0) || (a.0 == b.0 && (a.1, a.2).before((b.1, b.2)))));
        }
        if self.0.is_before(&other.0) {
            return true;
        }
        if !same_key(&self.0, &other.0) {
            return false;
        }
        if self.1.is_before(&other.1) {
            return true;
        }
        same_key(&self.1, &other.1) && self.2.is_before(&other.2)
    }
}

impl<A: Key, B: Key> Key for (A, B) {
    type O = (A::O, B::O);

    open spec fn key(&self) -> (A::O, B::O) {
        (self.0.key(), self.1.key())
    }

    fn is_before(&self, other: &Self) -> (r: bool) {
        let ghost a = (self.0.key(), self.1.key());
        let ghost b = (other.0.key(), other.1.key());
        proof {
            assert(self.key() == a && other.key() == b);
            assert(a.before(b) == (a.0.before(b.0) || (a.0 == b.0 && a.1.before(b.1))));
        }
        if self.0.is_before(&other.0) {
            return true;
        }
        if other.0.is_before(&self.0) {
            proof {
                if self.0.key() == other.0.key() {
                    A::O::irreflexive(self.0.key());
                }
            }
            return false;
        }
        proof {
            A::O::total(self.0.key(), other.0.key());
        }
        self.1.is_before(&other.1)
    }
}

/// Rows in strictly ascending key order.
pub open spec fn ordered<A: Ordered, W>(s: Seq<(A, W)>) -> bool {
    forall|i: int, j: int| 0 <= i < j < s.len() ==> (#[trigger] s[i]).0.before((#[trigger] s[j]).0)
}

/// Length of the longest prefix of rows, from `i` on, whose keys come before `k`.
pub open spec fn rank_from<A: Ordered, W>(s: Seq<(A, W)>, k: A, i: int) -> int
    decreases s.len() - i,
{
    if 0 <= i < s.len() && s[i].0.before(k) {
        rank_from(s, k, i + 1)
    } else {
        i
    }
}

/// Number of rows whose keys come before `k`.
pub open spec fn rank<A: Ordered, W>(s: Seq<(A, W)>, k: A) -> int {
    rank_from(s, k, 0)
}

pub open spec fn holds<A: Ordered, W>(s: Seq<(A, W)>, k: A) -> bool {
    let r = rank(s, k);
    r < s.len() && s[r].0 == k
}

/// The value stored under `k`.
pub open spec fn get<A: Ordered, W>(s: Seq<(A, W)>, k: A) -> Option<W> {
    if holds(s, k) {
        Some(s[rank(s, k)].1)
    } else {
        None
    }
}

/// The rows with `w` stored under `k`.
pub open spec fn put<A: Ordered, W>(s: Seq<(A, W)>, k: A, w: W) -> Seq<(A, W)> {
    if holds(s, k) {
        s.update(rank(s, k), (k, w))
    } else {
        s.insert(rank(s, k), (k, w))
    }
}

/// The rows with `w` stored under `k` unless something is stored there.
pub open spec fn put_new<A: Ordered, W>(s: Seq<(A, W)>, k: A, w: W) -> Seq<(A, W)> {
    if holds(s, k) {
        s
    } else {
        put(s, k, w)
    }
}

/// The rows without the one of `k`.
pub open spec fn without<A: Ordered, W>(s: Seq<(A, W)>, k: A) -> Seq<(A, W)> {
    if holds(s, k) {
        s.remove(rank(s, k))
    } else {
        s
    }
}

pub proof fn rank_is<A: Ordered, W>(s: Seq<(A, W)>, k: A, from: int, p: int)
    requires
        0 <= from <= p <= s.len(),
        forall|i: int| from <= i < p ==> (#[trigger] s[i]).0.before(k),
        p < s.len() ==> !s[p].0.before(k),
    ensures
        rank_from(s, k, from) == p,
    decreases p - from,
{
    if from < p {
        assert(s[from].0.before(k));
        rank_is(s, k, from + 1, p);
    }
}

pub proof fn rank_bounds<A: Ordered, W>(s: Seq<(A, W)>, k: A, from: int)
    requires
        0 <= from <= s.len(),
    ensures
        from <= rank_from(s, k, from) <= s.len(),
        forall|i: int| from <= i < rank_from(s, k, from) ==> (#[trigger] s[i]).0.before(k),
        rank_from(s, k, from) < s.len() ==> !s[rank_from(s, k, from)].0.before(k),
    decreases s.len() - from,
{
    if from < s.len() && s[from].0.before(k) {
        rank_bounds(s, k, from + 1);
    }
}

/// What is stored can be read back, and storing leaves every other key alone.
pub proof fn get_after_put<A: Ordered, W>(s: Seq<(A, W)>, k: A, w: W, other: A)
    requires
        ordered(s),
    ensures
        ordered(put(s, k, w)),
        get(put(s, k, w), k) == Some(w),
        other != k ==> get(put(s, k, w), other) == get(s, other),
{
    let r = rank(s, k);
    let t = put(s, k, w);
    rank_bounds(s, k, 0);
    A::irreflexive(k);
    put_ordered(s, k, w);
    assert(rank(t, k) == r) by {
        assert forall|i: int| 0 <= i < r implies (#[trigger] t[i]).0.before(k) by {
            assert(t[i] == s[i]);
        }
        rank_is(t, k, 0, r);
    }
    assert(t[r] == (k, w));
    if other != k {
        let q = rank(s, other);
        rank_bounds(s, other, 0);
        A::total(other, k);
        if holds(s, k) {
            assert(t.len() == s.len());
            assert forall|i: int| 0 <= i < t.len() implies (#[trigger] t[i]).0 == s[i].0 by {
            }
            assert forall|i: int| 0 <= i < q implies (#[trigger] t[i]).0.before(other) by {
                assert(s[i].0.before(other));
            }
            rank_is(t, other, 0, q);
        } else if k.before(other) {
            assert(r <= q) by {
                if q < r {
                    assert(s[q].0.before(k));
                    A::transitive(s[q].0, k, other);
                }
            }
            assert forall|i: int| 0 <= i < q + 1 implies (#[trigger] t[i]).0.before(other) by {
                if i < r {
                    assert(t[i] == s[i]);
                } else if i > r {
                    assert(t[i] == s[i - 1]);
                }
            }
            if q < s.len() {
                assert(t[q + 1] == s[q]);
            }
            rank_is(t, other, 0, q + 1);
        } else {
            assert(q <= r) by {
                if r < q {
                    assert(s[r].0.before(other));
                    A::transitive(s[r].0, other, k);
                }
            }
            assert forall|i: int| 0 <= i < q implies (#[trigger] t[i]).0.before(other) by {
                assert(t[i] == s[i]);
            }
            if q < r {
                assert(t[q] == s[q]);
            } else {
                assert(!k.before(other));
                assert(t[q].0 == k);
                if q < s.len() && s[q].0 == other {
                    assert(!s[r].0.before(k));
                    assert(false);
                }
            }
            rank_is(t, other, 0, q);
        }
    }
}

pub proof fn put_ordered<A: Ordered, W>(s: Seq<(A, W)>, k: A, w: W)
    requires
        ordered(s),
    ensures
        ordered(put(s, k, w)),
{
    let r = rank(s, k);
    let t = put(s, k, w);
    rank_bounds(s, k, 0);
    assert forall|i: int, j: int| 0 <= i < j < t.len() implies (#[trigger] t[i]).0.before((#[trigger] t[j]).0) by {
        if holds(s, k) {
            assert(t[i].0 == s[i].0);
            assert(t[j].0 == s[j].0);
        } else {
            let a = if i > r { i - 1 } else { i };
            let b = if j > r { j - 1 } else { j };
            if i == r {
                let x = s[b].0;
                A::total(x, s[r].0);
                assert(!s[r].0.before(k));
                A::total(s[r].0, k);
                if b > r {
                    A::transitive(k, s[r].0, x);
                }
            } else if j == r {
                assert(s[a].0.before(k));
            } else {
                assert(t[i] == s[a]);
                assert(t[j] == s[b]);
            }
        }
    }
}

/// Storing adds no row but the stored one.
pub proof fn rows_after_put<A: Ordered, W>(s: Seq<(A, W)>, k: A, w: W)
    ensures
        forall|i: int|
            0 <= i < put(s, k, w).len() ==> #[trigger] put(s, k, w)[i] == (k, w) || s.contains(put(s, k, w)[i]),
{
    let r = rank(s, k);
    let t = put(s, k, w);
    rank_bounds(s, k, 0);
    assert forall|i: int| 0 <= i < t.len() implies #[trigger] t[i] == (k, w) || s.contains(t[i]) by {
        if holds(s, k) {
            if i != r {
                assert(t[i] == s[i]);
            }
        } else if i < r {
            assert(t[i] == s[i]);
        } else if i > r {
            assert(t[i] == s[i - 1]);
        }
    }
}

/// Taking a row out leaves no row but others.
pub proof fn rows_after_without<A: Ordered, W>(s: Seq<(A, W)>, k: A)
    ensures
        forall|i: int| 0 <= i < without(s, k).len() ==> s.contains(#[trigger] without(s, k)[i]),
{
    let r = rank(s, k);
    let t = without(s, k);
    rank_bounds(s, k, 0);
    assert forall|i: int| 0 <= i < t.len() implies s.contains(#[trigger] t[i]) by {
        if holds(s, k) && i >= r {
            assert(t[i] == s[i + 1]);
        } else {
            assert(t[i] == s[i]);
        }
    }
}

/// What is read is a row.
pub proof fn get_is_row<A: Ordered, W>(s: Seq<(A, W)>, k: A)
    ensures
        get(s, k) matches Some(w) ==> s.contains((k, w)),
{
    rank_bounds(s, k, 0);
    if holds(s, k) {
        assert(s[rank(s, k)] == (k, s[rank(s, k)].1));
    }
}

/// A key behind all others is stored last.
pub proof fn put_last<A: Ordered, W>(s: Seq<(A, W)>, k: A, w: W)
    requires
        forall|i: int| 0 <= i < s.len() ==> (#[trigger] s[i]).0.before(k),
    ensures
        put(s, k, w) == s.push((k, w)),
{
    rank_is(s, k, 0, s.len() as int);
    assert(put(s, k, w) =~= s.push((k, w)));
}

pub proof fn without_ordered<A: Ordered, W>(s: Seq<(A, W)>, k: A)
    requires
        ordered(s),
    ensures
        ordered(without(s, k)),
{
    let r = rank(s, k);
    let t = without(s, k);
    rank_bounds(s, k, 0);
    assert forall|i: int, j: int| 0 <= i < j < t.len() implies (#[trigger] t[i]).0.before((#[trigger] t[j]).0) by {
        if holds(s, k) {
            let a = if i >= r { i + 1 } else { i };
            let b = if j >= r { j + 1 } else { j };
            assert(t[i] == s[a]);
            assert(t[j] == s[b]);
        }
    }
}

/// A row taken out and stored again ends up where it was.
pub proof fn put_after_without<A: Ordered, W>(s: Seq<(A, W)>, k: A, w: W)
    requires
        ordered(s),
    ensures
        put(without(s, k), k, w) == put(s, k, w),
{
    let r = rank(s, k);
    let t = without(s, k);
    rank_bounds(s, k, 0);
    if holds(s, k) {
        assert forall|i: int| 0 <= i < r implies (#[trigger] t[i]).0.before(k) by {
            assert(t[i] == s[i]);
        }
        if r < t.len() {
            assert(t[r] == s[r + 1]);
            assert(s[r].0.before(s[r + 1].0));
            if s[r + 1].0.before(k) {
                A::transitive(k, s[r + 1].0, k);
                A::irreflexive(k);
            }
        }
        rank_is(t, k, 0, r);
        if r < t.len() && t[r].0 == k {
            A::irreflexive(k);
        }
        assert(put(t, k, w) =~= put(s, k, w));
    }
}

pub struct Table<K: Key, W: DeepView> {
    rows: Vec<(K, W)>,
}

impl<K: Key, W: DeepView> DeepView for Table<K, W> {
    type V = Seq<(K::O, W::V)>;

    closed spec fn deep_view(&self) -> Seq<(K::O, W::V)> {
        Seq::new(self.rows@.len(), |i: int| (self.rows@[i].0.key(), self.rows@[i].1.deep_view()))
    }
}

impl<K: Key, W: DeepView> Table<K, W> {
    #[verifier::type_invariant]
    spec fn sorted(self) -> bool {
        ordered(self.deep_view())
    }

    pub fn new() -> (r: Self)
        ensures
            r.deep_view() == Seq::<(K::O, W::V)>::empty(),
    {
        let r = Table { rows: Vec::new() };
        assert(r.deep_view() =~= Seq::<(K::O, W::V)>::empty());
        r
    }

    /// The number of rows; they are in strictly ascending key order.
    pub fn len(&self) -> (r: usize)
        ensures
            r == self.deep_view().len(),
            ordered(self.deep_view()),
    {
        proof {
            use_type_invariant(self);
        }
        self.rows.len()
    }

    pub fn key_at(&self, i: usize) -> (r: &K)
        requires
            i < self.deep_view().len(),
        ensures
            r.key() == self.deep_view()[i as int].0,
    {
        &self.rows[i].0
    }

    pub fn value_at(&self, i: usize) -> (r: &W)
        requires
            i < self.deep_view().len(),
        ensures
            r.deep_view() == self.deep_view()[i as int].1,
    {
        &self.rows[i].1
    }

    /// Index of the first row whose key does not come before `k`.
    pub fn position(&self, k: &K) -> (r: usize)
        ensures
            r == rank(self.deep_view(), k.key()),
            r <= self.deep_view().len(),
    {
        proof {
            use_type_invariant(self);
        }
        let ghost s = self.deep_view();
        let mut lo: usize = 0;
        let mut hi: usize = self.rows.len();
        while lo < hi
            invariant
                s == self.deep_view(),
                ordered(s),
                lo <= hi <= self.rows@.len(),
                s.len() == self.rows@.len(),
                forall|i: int| 0 <= i < lo ==> (#[trigger] s[i]).0.before(k.key()),
                hi < s.len() ==> !s[hi as int].0.before(k.key()),
            decreases hi - lo,
        {
            let mid = lo + (hi - lo) / 2;
            if self.rows[mid].0.is_before(k) {
                proof {
                    assert(s[mid as int].0.before(k.key()));
                    assert forall|i: int| 0 <= i < mid implies (#[trigger] s[i]).0.before(k.key()) by {
                        K::O::transitive(s[i].0, s[mid as int].0, k.key());
                    }
                }
                lo = mid + 1;
            } else {
                hi = mid;
            }
        }
        proof {
            rank_is(s, k.key(), 0, lo as int);
        }
        lo
    }

    fn is_at(&self, i: usize, k: &K) -> (r: bool)
        requires
            i == rank(self.deep_view(), k.key()),
        ensures
            r == holds(self.deep_view(), k.key()),
    {
        proof {
            rank_bounds(self.deep_view(), k.key(), 0);
            K::O::irreflexive(k.key());
        }
        if i >= self.rows.len() {
            return false;
        }
        let later = k.is_before(&self.rows[i].0);
        proof {
            K::O::total(self.rows@[i as int].0.key(), k.key());
        }
        !later
    }

    pub fn contains(&self, k: &K) -> (r: bool)
        ensures
            r == holds(self.deep_view(), k.key()),
    {
        let i = self.position(k);
        self.is_at(i, k)
    }

    /// The value stored under `k`.
    pub fn get(&self, k: &K) -> (r: Option<&W>)
        ensures
            r.deep_view() == get(self.deep_view(), k.key()),
    {
        let i = self.position(k);
        if self.is_at(i, k) {
            Some(&self.rows[i].1)
        } else {
            None
        }
    }

    /// Stores `w` under `k`.
    pub fn insert(&mut self, k: K, w: W)
        ensures
            final(self).deep_view() == put(old(self).deep_view(), k.key(), w.deep_view()),
    {
        proof {
            use_type_invariant(&*self);
            put_ordered(self.deep_view(), k.key(), w.deep_view());
        }
        let i = self.position(&k);
        let found = self.is_at(i, &k);
        let ghost s = self.deep_view();
        let ghost key = k.key();
        let ghost value = w.deep_view();
        let mut rows: Vec<(K, W)> = Vec::new();
        std::mem::swap(&mut rows, &mut self.rows);
        if found {
            rows[i] = (k, w);
        } else {
            rows.insert(i, (k, w));
        }
        let ghost t = Seq::new(rows@.len(), |j: int| (rows@[j].0.key(), rows@[j].1.deep_view()));
        assert(t =~= put(s, key, value));
        self.rows = rows;
        assert(self.deep_view() =~= t);
    }

    /// Takes the row of `k` out and hands its value back.
    pub fn take(&mut self, k: &K) -> (r: Option<W>)
        ensures
            r.deep_view() == get(old(self).deep_view(), k.key()),
            final(self).deep_view() == without(old(self).deep_view(), k.key()),
            forall|w: W::V| #[trigger]
                put(final(self).deep_view(), k.key(), w) == put(old(self).deep_view(), k.key(), w),
    {
        proof {
            use_type_invariant(&*self);
            without_ordered(self.deep_view(), k.key());
        }
        let ghost s = self.deep_view();
        proof {
            assert forall|w: W::V| #[trigger] put(without(s, k.key()), k.key(), w) == put(s, k.key(), w) by {
                put_after_without(s, k.key(), w);
            }
        }
        let i = self.position(k);
        if self.is_at(i, k) {
            let mut rows: Vec<(K, W)> = Vec::new();
            std::mem::swap(&mut rows, &mut self.rows);
            let row = rows.remove(i);
            let ghost t = Seq::new(rows@.len(), |j: int| (rows@[j].0.key(), rows@[j].1.deep_view()));
            assert(t =~= without(s, k.key()));
            self.rows = rows;
            assert(self.deep_view() =~= t);
            Some(row.1)
        } else {
            None
        }
    }

    /// Replaces the value of row `i`.
    pub fn set_at(&mut self, i: usize, w: W)
        requires
            i < old(self).deep_view().len(),
        ensures
            final(self).deep_view() == old(self).deep_view().update(
                i as int,
                (old(self).deep_view()[i as int].0, w.deep_view()),
            ),
    {
        proof {
            use_type_invariant(&*self);
        }
        let ghost s = self.deep_view();
        let ghost t = s.update(i as int, (s[i as int].0, w.deep_view()));
        let mut rows: Vec<(K, W)> = Vec::new();
        std::mem::swap(&mut rows, &mut self.rows);
        let (last, row) = (rows.len() - 1, rows.swap_remove(i));
        rows.push((row.0, w));
        let n = rows.len() - 1;
        if i < n {
            let other = rows.swap_remove(i);
            rows.push(other);
        }
        assert(last == n);
        let ghost u = Seq::new(rows@.len(), |j: int| (rows@[j].0.key(), rows@[j].1.deep_view()));
        assert(u =~= t);
        proof {
            assert forall|a: int, b: int| 0 <= a < b < t.len() implies (#[trigger] t[a]).0.before((#[trigger] t[b]).0) by {
                assert(s[a].0.before(s[b].0));
            }
        }
        self.rows = rows;
        assert(self.deep_view() =~= t);
    }

    /// The values in key order.
    pub fn into_values(self) -> (r: Vec<W>)
        ensures
            r.deep_view() == values(self.deep_view()),
    {
        let ghost s = self.deep_view();
        let mut rows = self.rows;
        let mut back: Vec<W> = Vec::new();
        while rows.len() > 0
            invariant
                rows@.len() + back@.len() == s.len(),
                forall|i: int| 0 <= i < rows@.len() ==> (#[trigger] rows@[i]).1.deep_view() == s[i].1,
                forall|i: int| 0 <= i < back@.len() ==> (#[trigger] back@[i]).deep_view() == s[s.len() - 1 - i].1,
            decreases rows@.len(),
        {
            let row = rows.pop();
            if let Some(row) = row {
                back.push(row.1);
            }
        }
        let mut out: Vec<W> = Vec::new();
        while back.len() > 0
            invariant
                back@.len() + out@.len() == s.len(),
                forall|i: int| 0 <= i < back@.len() ==> (#[trigger] back@[i]).deep_view() == s[s.len() - 1 - i].1,
                forall|i: int| 0 <= i < out@.len() ==> (#[trigger] out@[i]).deep_view() == s[i].1,
            decreases back@.len(),
        {
            let w = back.pop();
            if let Some(w) = w {
                out.push(w);
            }
        }
        assert(out.deep_view() =~= values(s));
        out
    }
}

/// A copy of a vector.
pub fn copy_all<T: Copy>(v: &Vec<T>) -> (r: Vec<T>)
    ensures
        r@ == v@,
{
    let mut out: Vec<T> = Vec::new();
    let mut i: usize = 0;
    while i < v.len()
        invariant
            i <= v@.len(),
            out@ == v@.take(i as int),
        decreases v@.len() - i,
    {
        out.push(v[i]);
        i += 1;
        assert(v@.take(i as int) =~= v@.take(i - 1).push(v@[i - 1]));
    }
    assert(v@.take(v@.len() as int) =~= v@);
    out
}

/// The list stored under `k`, empty where there is none.
pub open spec fn list_at<A: Ordered, W>(s: Seq<(A, Seq<W>)>, k: A) -> Seq<W> {
    match get(s, k) {
        Some(l) => l,
        None => Seq::empty(),
    }
}

/// The rows with `w` appended to the list under `k`.
pub open spec fn with_item<A: Ordered, W>(s: Seq<(A, Seq<W>)>, k: A, w: W) -> Seq<(A, Seq<W>)> {
    put(s, k, list_at(s, k).push(w))
}

/// Appends `w` to the list under `k`.
pub fn push_item<K: Key, W: DeepView>(t: &mut Table<K, Vec<W>>, k: K, w: W)
    ensures
        final(t).deep_view() == with_item(old(t).deep_view(), k.key(), w.deep_view()),
{
    let mut list = match t.take(&k) {
        Some(l) => l,
        None => {
            let l: Vec<W> = Vec::new();
            assert(l.deep_view() =~= Seq::empty());
            l
        },
    };
    let ghost before = list.deep_view();
    let ghost x = w.deep_view();
    list.push(w);
    assert(list.deep_view() =~= before.push(x));
    t.insert(k, list);
}

/// The rows with `m` added to the set under `k`.
pub open spec fn with_member<A: Ordered, B: Ordered>(s: Seq<(A, Seq<(B, ())>)>, k: A, m: B) -> Seq<(A, Seq<(B, ())>)> {
    put(s, k, put(list_at(s, k), m, ()))
}

/// Adds `m` to the set under `k`.
pub fn add_member<K: Key, M: Key>(t: &mut Table<K, Table<M, ()>>, k: K, m: M)
    ensures
        final(t).deep_view() == with_member(old(t).deep_view(), k.key(), m.key()),
{
    let mut set = match t.take(&k) {
        Some(l) => l,
        None => Table::new(),
    };
    set.insert(m, ());
    t.insert(k, set);
}

/// How often `k` was counted.
pub open spec fn count_at<A: Ordered>(s: Seq<(A, usize)>, k: A) -> usize {
    match get(s, k) {
        Some(n) => n,
        None => 0,
    }
}

/// The counts with one more for `k`.
pub open spec fn with_vote<A: Ordered>(s: Seq<(A, usize)>, k: A) -> Seq<(A, usize)> {
    put(s, k, count_at(s, k).wrapping_add(1))
}

/// Counts `k` once more.
pub fn vote<K: Key>(t: &mut Table<K, usize>, k: K)
    ensures
        final(t).deep_view() == with_vote(old(t).deep_view(), k.key()),
{
    let n: usize = match t.get(&k) {
        Some(n) => *n,
        None => 0,
    };
    t.insert(k, n.wrapping_add(1));
}

/// The values of the rows.
pub open spec fn values<A, W>(s: Seq<(A, W)>) -> Seq<W> {
    Seq::new(s.len(), |i: int| s[i].1)
}

/// The keys of the rows.
pub open spec fn keys<A, W>(s: Seq<(A, W)>) -> Seq<A> {
    Seq::new(s.len(), |i: int| s[i].0)
}

/// The values from index `i` on, each stored under its key and then its index.
pub open spec fn queued<A: Ordered, W>(by: Seq<A>, vals: Seq<W>, i: int) -> Seq<((A, usize), W)>
    decreases vals.len() - i,
{
    if i < 0 || i >= vals.len() {
        Seq::empty()
    } else {
        put(queued(by, vals, i + 1), (by[i], i as usize), vals[i])
    }
}

/// The values ordered by their keys; values with equal keys keep their order.
pub open spec fn sorted_by<A: Ordered, W>(by: Seq<A>, vals: Seq<W>) -> Seq<W> {
    values(queued(by, vals, 0))
}

/// The keys of a vector.
pub open spec fn key_models<K: Key>(v: Seq<K>) -> Seq<K::O> {
    Seq::new(v.len(), |i: int| v[i].key())
}

pub fn stable_sort<K: Key, W: DeepView>(by: Vec<K>, vals: Vec<W>) -> (r: Vec<W>)
    requires
        by@.len() == vals@.len(),
    ensures
        r.deep_view() == sorted_by(key_models(by@), vals.deep_view()),
{
    let ghost ks = key_models(by@);
    let ghost vs = vals.deep_view();
    let mut by = by;
    let mut vals = vals;
    let mut t: Table<(K, usize), W> = Table::new();
    while vals.len() > 0
        invariant
            by@.len() == vals@.len(),
            vals@.len() <= vs.len(),
            ks.len() == vs.len(),
            forall|i: int| 0 <= i < by@.len() ==> (#[trigger] by@[i]).key() == ks[i],
            forall|i: int| 0 <= i < vals@.len() ==> (#[trigger] vals@[i]).deep_view() == vs[i],
            t.deep_view() == queued(ks, vs, vals@.len() as int),
        decreases vals@.len(),
    {
        let w = vals.pop();
        let k = by.pop();
        if let (Some(w), Some(k)) = (w, k) {
            t.insert((k, vals.len()), w);
        }
    }
    t.into_values()
}

/// Each row of a queue is one of the values, under its key and index; every
/// value from `i` on has its row.
pub proof fn queued_rows<A: Ordered, W>(by: Seq<A>, vals: Seq<W>, i: int)
    requires
        by.len() == vals.len(),
        vals.len() <= usize::MAX,
        0 <= i <= vals.len(),
    ensures
        ordered(queued(by, vals, i)),
        queued(by, vals, i).len() == vals.len() - i,
        forall|r: int| 0 <= r < vals.len() - i ==> {
            let row = #[trigger] queued(by, vals, i)[r];
            i <= row.0.1 < vals.len() && row.0.0 == by[row.0.1 as int] && row.1 == vals[row.0.1 as int]
        },
    decreases vals.len() - i,
{
    if i < vals.len() {
        queued_rows(by, vals, i + 1);
        let s = queued(by, vals, i + 1);
        let k = (by[i], i as usize);
        put_ordered(s, k, vals[i]);
        rank_bounds(s, k, 0);
        let t = put(s, k, vals[i]);
        let p = rank(s, k);
        assert(!holds(s, k)) by {
            if holds(s, k) {
                assert(s[p].0.1 >= i + 1);
            }
        }
        assert forall|r: int| 0 <= r < vals.len() - i implies {
            let row = #[trigger] t[r];
            i <= row.0.1 < vals.len() && row.0.0 == by[row.0.1 as int] && row.1 == vals[row.0.1 as int]
        } by {
            if r < p {
                assert(t[r] == s[r]);
            } else if r > p {
                assert(t[r] == s[r - 1]);
            }
        }
    }
}

/// Sorting keeps the number of values, orders them by key and keeps the order
/// of values with equal keys: the result lists the values at the indices that
/// the rows of the queue hold, no index twice.
pub proof fn sorting_is_stable<A: Ordered, W>(by: Seq<A>, vals: Seq<W>, a: int, b: int)
    requires
        by.len() == vals.len(),
        vals.len() <= usize::MAX,
        0 <= a < b < vals.len(),
    ensures
        sorted_by(by, vals).len() == vals.len(),
        ({
            let i = queued(by, vals, 0)[a].0.1;
            let j = queued(by, vals, 0)[b].0.1;
            &&& i < vals.len()
            &&& j < vals.len()
            &&& i != j
            &&& sorted_by(by, vals)[a] == vals[i as int]
            &&& sorted_by(by, vals)[b] == vals[j as int]
            &&& by[i as int].before(by[j as int]) || (by[i as int] == by[j as int] && i < j)
        }),
{
    queued_rows(by, vals, 0);
    let q = queued(by, vals, 0);
    assert(q[a].0.before(q[b].0));
    A::irreflexive(q[a].0.0);
}

proof fn queue_keeps_values<A: Ordered, W, B>(by: Seq<A>, vals: Seq<W>, f: spec_fn(W) -> B, i: int)
    requires
        by.len() == vals.len(),
        vals.len() <= usize::MAX,
        0 <= i <= vals.len(),
    ensures
        values(queued(by, vals, i)).map_values(f).to_multiset() == vals.skip(i).map_values(f).to_multiset(),
    decreases vals.len() - i,
{
    if i < vals.len() {
        queue_keeps_values(by, vals, f, i + 1);
        queued_rows(by, vals, i + 1);
        let s = queued(by, vals, i + 1);
        let k = (by[i], i as usize);
        rank_bounds(s, k, 0);
        let p = rank(s, k);
        assert(!holds(s, k)) by {
            if holds(s, k) {
                assert(s[p].0.1 >= i + 1);
            }
        }
        let rest = values(s).map_values(f);
        assert(values(queued(by, vals, i)).map_values(f) =~= rest.insert(p, f(vals[i])));
        vstd::seq_lib::to_multiset_insert(rest, p, f(vals[i]));
        let left = vals.skip(i + 1).map_values(f);
        assert(vals.skip(i).map_values(f) =~= left.insert(0, f(vals[i])));
        vstd::seq_lib::to_multiset_insert(left, 0, f(vals[i]));
    } else {
        assert(values(queued(by, vals, i)).map_values(f) =~= vals.skip(i).map_values(f));
    }
}

/// Sorting keeps every value as often as it is there, whatever is read off the
/// values.
pub proof fn sorting_keeps_values<A: Ordered, W, B>(by: Seq<A>, vals: Seq<W>, f: spec_fn(W) -> B)
    requires
        by.len() == vals.len(),
        vals.len() <= usize::MAX,
    ensures
        sorted_by(by, vals).map_values(f).to_multiset() == vals.map_values(f).to_multiset(),
{
    queue_keeps_values(by, vals, f, 0);
    assert(vals.skip(0) =~= vals);
}

} // verus!
