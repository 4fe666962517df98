//! Stable ordering and grouping of indexed records.
//!
//! The records themselves stay where they are; a key order ranks their
//! indices, ties between equal keys going to the smaller index, so every
//! order here is a strict total order on `0..len` and a sort by it is
//! stable. Equal keys form contiguous runs in that order, which is how
//! records that share a key are found in `O(n log n)`.
use vstd::prelude::*;
use crate::text::{text_lt, lemma_text_lt_irreflexive, lemma_text_lt_total, lemma_text_lt_transitive, chars_eq, chars_lt};

verus! {

/// An order on the indices `0..len()` of some records that ranks them by a
/// key and then by index.
pub trait KeyOrder {
    spec fn count(&self) -> nat;

    /// Record `a` and record `b` have equal keys.
    spec fn same(&self, a: int, b: int) -> bool;

    /// Record `a` comes before record `b`.
    spec fn before(&self, a: int, b: int) -> bool;

    proof fn order_laws(&self)
        ensures
            forall|a: int| #![trigger self.same(a, a)] self.same(a, a),
            forall|a: int, b: int| #[trigger] self.same(a, b) ==> self.same(b, a),
            forall|a: int, b: int, c: int|
                #[trigger] self.same(a, b) && #[trigger] self.same(b, c) ==> self.same(a, c),
            forall|a: int| #![trigger self.before(a, a)] !self.before(a, a),
            forall|a: int, b: int, c: int|
                #[trigger] self.before(a, b) && #[trigger] self.before(b, c) ==> self.before(a, c),
            forall|a: int, b: int| a != b ==> #[trigger] self.before(a, b) || self.before(b, a),
            forall|a: int, b: int, c: int|
                #[trigger] self.before(a, b) && #[trigger] self.before(b, c) && self.same(a, c)
                    ==> self.same(a, b),
    ;

    fn len(&self) -> (r: usize)
        ensures
            r == self.count(),
    ;

    fn is_before(&self, a: usize, b: usize) -> (r: bool)
        requires
            a < self.count(),
            b < self.count(),
        ensures
            r == self.before(a as int, b as int),
    ;

    fn is_same(&self, a: usize, b: usize) -> (r: bool)
        requires
            a < self.count(),
            b < self.count(),
        ensures
            r == self.same(a as int, b as int),
    ;
}

/// `s` lists indices in strictly increasing order of `k`.
pub open spec fn ranked<K: KeyOrder>(k: &K, s: Seq<usize>) -> bool {
    forall|i: int, j: int| 0 <= i < j < s.len() ==> #[trigger] k.before(s[i] as int, s[j] as int)
}

/// `s` lists exactly the indices `lo..hi`.
pub open spec fn covers(s: Seq<usize>, lo: int, hi: int) -> bool {
    &&& forall|i: int| 0 <= i < s.len() ==> lo <= #[trigger] s[i] < hi
    &&& forall|x: int| lo <= x < hi ==> #[trigger] s.contains(x as usize)
    &&& s.len() == hi - lo
}

/// The indices `lo..hi`, ranked by `k`.
pub fn sort_range<K: KeyOrder>(k: &K, lo: usize, hi: usize) -> (r: Vec<usize>)
    requires
        lo <= hi <= k.count(),
    ensures
        ranked(k, r@),
        covers(r@, lo as int, hi as int),
    decreases hi - lo,
{
    proof {
        k.order_laws();
    }
    if hi - lo <= 1 {
        let mut r: Vec<usize> = Vec::new();
        if hi - lo == 1 {
            r.push(lo);
            assert(r@[0] == lo);
        }
        return r;
    }
    let mid = lo + (hi - lo) / 2;
    let a = sort_range(k, lo, mid);
    let b = sort_range(k, mid, hi);
    merge(k, &a, &b, lo, mid, hi)
}

fn merge<K: KeyOrder>(k: &K, a: &Vec<usize>, b: &Vec<usize>, lo: usize, mid: usize, hi: usize) -> (r: Vec<usize>)
    requires
        lo <= mid <= hi <= k.count(),
        ranked(k, a@),
        ranked(k, b@),
        covers(a@, lo as int, mid as int),
        covers(b@, mid as int, hi as int),
    ensures
        ranked(k, r@),
        covers(r@, lo as int, hi as int),
{
    proof {
        k.order_laws();
    }
    let mut r: Vec<usize> = Vec::new();
    let mut i: usize = 0;
    let mut j: usize = 0;
    while i < a.len() || j < b.len()
        invariant
            lo <= mid <= hi <= k.count(),
            ranked(k, a@),
            ranked(k, b@),
            covers(a@, lo as int, mid as int),
            covers(b@, mid as int, hi as int),
            i <= a.len(),
            j <= b.len(),
            r.len() == i + j,
            ranked(k, r@),
            forall|x: int| 0 <= x < r.len() ==> (#[trigger] a@.take(i as int).contains(r@[x]) || b@.take(j as int).contains(r@[x])),
            forall|x: int| 0 <= x < i ==> #[trigger] r@.contains(a@[x]),
            forall|x: int| 0 <= x < j ==> #[trigger] r@.contains(b@[x]),
            r.len() > 0 && i < a.len() ==> k.before(r@.last() as int, a@[i as int] as int),
            r.len() > 0 && j < b.len() ==> k.before(r@.last() as int, b@[j as int] as int),
        decreases a.len() + b.len() - i - j,
    {
        let take_a = if i < a.len() && j < b.len() {
            k.is_before(a[i], b[j])
        } else {
            i < a.len()
        };
        let ghost old_r = r@;
        proof {
            k.order_laws();
        }
        if take_a {
            let x = a[i];
            r.push(x);
            proof {
                assert forall|y: int| 0 <= y < r.len() implies (#[trigger] a@.take(i + 1).contains(r@[y]) || b@.take(j as int).contains(r@[y])) by {
                    if y < old_r.len() {
                        if a@.take(i as int).contains(r@[y]) {
                            let w = choose|w: int| 0 <= w < i && a@.take(i as int)[w] == r@[y];
                            assert(a@.take(i + 1)[w] == r@[y]);
                        }
                    } else {
                        assert(a@.take(i + 1)[i as int] == x);
                    }
                }
                assert forall|y: int| 0 <= y < i + 1 implies #[trigger] r@.contains(a@[y]) by {
                    if y < i {
                        assert(old_r.contains(a@[y]));
                        let w = choose|w: int| 0 <= w < old_r.len() && old_r[w] == a@[y];
                        assert(r@[w] == a@[y]);
                    } else {
                        assert(r@[old_r.len() as int] == a@[y]);
                    }
                }
                assert forall|y: int| 0 <= y < j implies #[trigger] r@.contains(b@[y]) by {
                    assert(old_r.contains(b@[y]));
                    let w = choose|w: int| 0 <= w < old_r.len() && old_r[w] == b@[y];
                    assert(r@[w] == b@[y]);
                }
                if j < b.len() && i < a.len() {
                    assert(k.before(x as int, b@[j as int] as int));
                }
                if j < b.len() && !(i < a.len()) {
                    assert(false);
                }
                assert forall|p: int, q: int| 0 <= p < q < r.len() implies #[trigger] k.before(r@[p] as int, r@[q] as int) by {
                    if q == r.len() - 1 && p < q {
                        if p < old_r.len() - 1 {
                            assert(k.before(r@[p] as int, old_r.last() as int));
                        }
                    }
                }
                if i + 1 < a.len() {
                    assert(k.before(a@[i as int] as int, a@[i + 1] as int));
                }
            }
            i = i + 1;
        } else {
            let x = b[j];
            r.push(x);
            proof {
                if i < a.len() && j < b.len() {
                    assert(!k.before(a@[i as int] as int, b@[j as int] as int));
                    assert(lo <= a@[i as int] < mid);
                    assert(mid <= b@[j as int] < hi);
                    assert(k.before(b@[j as int] as int, a@[i as int] as int));
                }
                assert forall|y: int| 0 <= y < r.len() implies (#[trigger] a@.take(i as int).contains(r@[y]) || b@.take(j + 1).contains(r@[y])) by {
                    if y < old_r.len() {
                        if b@.take(j as int).contains(r@[y]) {
                            let w = choose|w: int| 0 <= w < j && b@.take(j as int)[w] == r@[y];
                            assert(b@.take(j + 1)[w] == r@[y]);
                        }
                    } else {
                        assert(b@.take(j + 1)[j as int] == x);
                    }
                }
                assert forall|y: int| 0 <= y < j + 1 implies #[trigger] r@.contains(b@[y]) by {
                    if y < j {
                        assert(old_r.contains(b@[y]));
                        let w = choose|w: int| 0 <= w < old_r.len() && old_r[w] == b@[y];
                        assert(r@[w] == b@[y]);
                    } else {
                        assert(r@[old_r.len() as int] == b@[y]);
                    }
                }
                assert forall|y: int| 0 <= y < i implies #[trigger] r@.contains(a@[y]) by {
                    assert(old_r.contains(a@[y]));
                    let w = choose|w: int| 0 <= w < old_r.len() && old_r[w] == a@[y];
                    assert(r@[w] == a@[y]);
                }
                assert forall|p: int, q: int| 0 <= p < q < r.len() implies #[trigger] k.before(r@[p] as int, r@[q] as int) by {
                    if q == r.len() - 1 && p < q {
                        if p < old_r.len() - 1 {
                            assert(k.before(r@[p] as int, old_r.last() as int));
                        }
                    }
                }
                if j + 1 < b.len() {
                    assert(k.before(b@[j as int] as int, b@[j + 1] as int));
                }
            }
            j = j + 1;
        }
    }
    proof {
        assert(a@.take(a.len() as int) =~= a@);
        assert(b@.take(b.len() as int) =~= b@);
        assert forall|x: int| lo <= x < hi implies #[trigger] r@.contains(x as usize) by {
            if x < mid {
                assert(a@.contains(x as usize));
                let w = choose|w: int| 0 <= w < a.len() && a@[w] == x as usize;
                assert(r@.contains(a@[w]));
            } else {
                assert(b@.contains(x as usize));
                let w = choose|w: int| 0 <= w < b.len() && b@[w] == x as usize;
                assert(r@.contains(b@[w]));
            }
        }
        assert forall|y: int| 0 <= y < r.len() implies lo <= #[trigger] r@[y] < hi by {
            if a@.contains(r@[y]) {
                let w = choose|w: int| 0 <= w < a.len() && a@[w] == r@[y];
            } else {
                assert(b@.contains(r@[y]));
                let w = choose|w: int| 0 <= w < b.len() && b@[w] == r@[y];
            }
        }
    }
    r
}

/// The ranked list of all indices.
pub fn rank_all<K: KeyOrder>(k: &K) -> (r: Vec<usize>)
    ensures
        ranked(k, r@),
        covers(r@, 0, k.count() as int),
{
    let n = k.len();
    sort_range(k, 0, n)
}

/// `bounds` cuts the ranked list `s` into its runs of equal keys: run `r`
/// is `s[bounds[r]..bounds[r + 1]]`, and it holds exactly the positions
/// whose key is that of its first element.
pub open spec fn runs_of<K: KeyOrder>(k: &K, s: Seq<usize>, bounds: Seq<usize>) -> bool {
    &&& bounds.len() >= 1
    &&& bounds[0] == 0
    &&& bounds.last() == s.len()
    &&& forall|r1: int, r2: int| 0 <= r1 < r2 < bounds.len() ==> #[trigger] bounds[r1] < #[trigger] bounds[r2]
    &&& forall|r: int, q: int|
        #![trigger k.same(s[bounds[r] as int] as int, s[q] as int)]
        0 <= r < bounds.len() - 1 && 0 <= q < s.len() ==> (k.same(s[bounds[r] as int] as int, s[q] as int)
            <==> bounds[r] <= q < bounds[r + 1])
}

/// A stretch `s[a..e]` of equal keys, with a different key just before and
/// just after it, holds every position with that key.
proof fn lemma_run_exact<K: KeyOrder>(k: &K, s: Seq<usize>, a: int, e: int)
    requires
        ranked(k, s),
        0 <= a < e <= s.len(),
        a > 0 ==> !k.same(s[a - 1] as int, s[a] as int),
        forall|q: int| a <= q < e ==> #[trigger] k.same(s[a] as int, s[q] as int),
        e < s.len() ==> !k.same(s[a] as int, s[e] as int),
    ensures
        forall|q: int| 0 <= q < s.len() ==> (#[trigger] k.same(s[a] as int, s[q] as int) <==> a <= q < e),
{
    k.order_laws();
    assert forall|q: int| 0 <= q < s.len() && #[trigger] k.same(s[a] as int, s[q] as int) implies a <= q < e by {
        if q < a {
            if q < a - 1 {
                assert(k.before(s[q] as int, s[a - 1] as int));
                assert(k.before(s[a - 1] as int, s[a] as int));
                assert(k.same(s[q] as int, s[a] as int));
                assert(k.same(s[q] as int, s[a - 1] as int));
                assert(k.same(s[a - 1] as int, s[q] as int));
                assert(k.same(s[a - 1] as int, s[a] as int));
            } else {
                assert(k.same(s[q] as int, s[a] as int));
            }
        } else if q >= e {
            if q > e {
                assert(k.before(s[a] as int, s[e] as int));
                assert(k.before(s[e] as int, s[q] as int));
            }
        }
    }
}

/// The bounds of the runs of equal keys in a ranked list.
pub fn run_bounds<K: KeyOrder>(k: &K, s: &Vec<usize>) -> (bounds: Vec<usize>)
    requires
        ranked(k, s@),
        covers(s@, 0, k.count() as int),
    ensures
        runs_of(k, s@, bounds@),
{
    let n = s.len();
    let mut bounds: Vec<usize> = Vec::new();
    bounds.push(0);
    let mut p: usize = 0;
    while p < n
        invariant
            n == s.len(),
            n == k.count(),
            ranked(k, s@),
            covers(s@, 0, n as int),
            p <= n,
            bounds.len() >= 1,
            bounds@[0] == 0,
            bounds@.last() == p,
            0 < p < n ==> !k.same(s@[p - 1] as int, s@[p as int] as int),
            forall|r1: int, r2: int| 0 <= r1 < r2 < bounds.len() ==> #[trigger] bounds@[r1] < #[trigger] bounds@[r2],
            forall|r: int, q: int|
                #![trigger k.same(s@[bounds@[r] as int] as int, s@[q] as int)]
                0 <= r < bounds.len() - 1 && 0 <= q < n ==> (k.same(s@[bounds@[r] as int] as int, s@[q] as int)
                    <==> bounds@[r] <= q < bounds@[r + 1]),
        decreases n - p,
    {
        proof {
            k.order_laws();
        }
        assert(s@[p as int] < n);
        assert(k.same(s@[p as int] as int, s@[p as int] as int));
        let mut e = p + 1;
        while e < n && k.is_same(s[p], s[e])
            invariant
                p < e <= n,
                n == s.len(),
                n == k.count(),
                covers(s@, 0, n as int),
                forall|q: int| p <= q < e ==> #[trigger] k.same(s@[p as int] as int, s@[q] as int),
            decreases n - e,
        {
            e = e + 1;
        }
        proof {
            lemma_run_exact(k, s@, p as int, e as int);
            if e < n {
                assert(k.same(s@[p as int] as int, s@[e - 1] as int));
                if k.same(s@[e - 1] as int, s@[e as int] as int) {
                    assert(k.same(s@[p as int] as int, s@[e as int] as int));
                }
            }
        }
        let ghost old_b = bounds@;
        bounds.push(e);
        proof {
            assert forall|r1: int, r2: int| 0 <= r1 < r2 < bounds.len() implies #[trigger] bounds@[r1] < #[trigger] bounds@[r2] by {
                if r2 == bounds.len() - 1 && r1 < old_b.len() - 1 {
                    assert(old_b[r1] < old_b[old_b.len() - 1]);
                }
            }
            assert forall|r: int, q: int|
                #![trigger k.same(s@[bounds@[r] as int] as int, s@[q] as int)]
                0 <= r < bounds.len() - 1 && 0 <= q < n implies (k.same(s@[bounds@[r] as int] as int, s@[q] as int)
                    <==> bounds@[r] <= q < bounds@[r + 1]) by {
                if r < old_b.len() - 1 {
                    assert(bounds@[r] == old_b[r]);
                    assert(bounds@[r + 1] == old_b[r + 1]);
                    assert(k.same(s@[old_b[r] as int] as int, s@[q] as int) <==> old_b[r] <= q < old_b[r + 1]);
                } else {
                    assert(bounds@[r] == p);
                    assert(bounds@[r + 1] == e);
                }
            }
        }
        p = e;
    }
    bounds
}

/// Record `i` shares its key with some other record.
pub open spec fn shared<K: KeyOrder>(k: &K, i: int) -> bool {
    exists|j: int| 0 <= j < k.count() && j != i && #[trigger] k.same(i, j)
}

/// For each record, whether another record has the same key.
pub fn mark_shared<K: KeyOrder>(k: &K) -> (r: Vec<bool>)
    ensures
        r.len() == k.count(),
        forall|i: int| 0 <= i < k.count() ==> #[trigger] r@[i] == shared(k, i),
{
    proof {
        k.order_laws();
    }
    let n = k.len();
    let s = rank_all(k);
    let mut r: Vec<bool> = Vec::new();
    for i in 0..n
        invariant
            n == k.count(),
            r.len() == i,
            forall|x: int| 0 <= x < i ==> r@[x] == false,
    {
        r.push(false);
    }
    // s[p] shares a key with a neighbour in the ranked list exactly when it
    // shares a key with anyone.
    for p in 0..n
        invariant
            n == k.count(),
            s.len() == n,
            ranked(k, s@),
            covers(s@, 0, n as int),
            r.len() == n,
            forall|q: int| 0 <= q < p ==> #[trigger] r@[s@[q] as int] == shared(k, s@[q] as int),
            forall|q: int| p <= q < n ==> #[trigger] r@[s@[q] as int] == false,
    {
        let x = s[p];
        let left = p > 0 && k.is_same(s[p - 1], x);
        let right = p + 1 < n && k.is_same(x, s[p + 1]);
        let ghost old_r = r@;
        r.set(x, left || right);
        proof {
            k.order_laws();
            lemma_ranked_distinct(k, s@);
            if left {
                assert(k.same(x as int, s@[p - 1] as int));
            }
            if right {
                assert(k.same(x as int, s@[p + 1] as int));
            }
            if !left && !right && shared(k, x as int) {
                let j = choose|j: int| 0 <= j < k.count() && j != x && #[trigger] k.same(x as int, j);
                assert(s@.contains(j as usize));
                let q = choose|q: int| 0 <= q < n && s@[q] == j as usize;
                if q < p {
                    assert(k.before(s@[q] as int, s@[p - 1] as int) || q == p - 1);
                    if q < p - 1 {
                        assert(k.before(s@[p - 1] as int, x as int));
                        assert(k.same(s@[q] as int, x as int));
                        assert(k.same(s@[q] as int, s@[p - 1] as int));
                    }
                } else {
                    assert(q > p);
                    if q > p + 1 {
                        assert(k.before(x as int, s@[p + 1] as int));
                        assert(k.before(s@[p + 1] as int, s@[q] as int));
                        assert(k.same(x as int, s@[p + 1] as int));
                    }
                }
            }
            assert forall|q: int| 0 <= q < p + 1 implies #[trigger] r@[s@[q] as int] == shared(k, s@[q] as int) by {
                if q < p {
                    assert(s@[q] != x);
                }
            }
            assert forall|q: int| p + 1 <= q < n implies #[trigger] r@[s@[q] as int] == false by {
                assert(s@[q] != x);
            }
        }
    }
    proof {
        assert forall|i: int| 0 <= i < k.count() implies #[trigger] r@[i] == shared(k, i) by {
            assert(s@.contains(i as usize));
            let q = choose|q: int| 0 <= q < n && s@[q] == i as usize;
        }
    }
    r
}

/// A ranked list holds no index twice.
pub proof fn lemma_ranked_distinct<K: KeyOrder>(k: &K, s: Seq<usize>)
    requires
        ranked(k, s),
    ensures
        forall|i: int, j: int| 0 <= i < s.len() && 0 <= j < s.len() && i != j ==> s[i] != s[j],
{
    k.order_laws();
    assert forall|i: int, j: int| 0 <= i < s.len() && 0 <= j < s.len() && i != j implies s[i] != s[j] by {
        if i < j {
            assert(k.before(s[i] as int, s[j] as int));
        } else {
            assert(k.before(s[j] as int, s[i] as int));
        }
    }
}

// ---------------------------------------------------------------------------
// Key orders used by the library
// ---------------------------------------------------------------------------

/// Records keyed by text: first by `primary`, then by `secondary`, then by index.
pub struct TextKeys {
    pub primary: Vec<Vec<char>>,
    pub secondary: Vec<Vec<char>>,
}

/// The secondary key of record `a` (empty where none is given).
pub open spec fn second_key(s: Seq<Vec<char>>, a: int) -> Seq<char> {
    if 0 <= a < s.len() {
        s[a]@
    } else {
        Seq::empty()
    }
}

/// `a` before `b` by text, then secondary text, then index.
pub open spec fn text_key_before(p: Seq<Vec<char>>, s: Seq<Vec<char>>, a: int, b: int) -> bool {
    ||| text_lt(p[a]@, p[b]@)
    ||| (p[a]@ == p[b]@ && text_lt(second_key(s, a), second_key(s, b)))
    ||| (p[a]@ == p[b]@ && second_key(s, a) == second_key(s, b) && a < b)
}

fn second_of(s: &Vec<Vec<char>>, a: usize) -> (r: Vec<char>)
    ensures
        r@ == second_key(s@, a as int),
{
    if a < s.len() {
        crate::text::slice_chars(&s[a], 0, s[a].len())
    } else {
        Vec::new()
    }
}

impl KeyOrder for TextKeys {
    open spec fn count(&self) -> nat {
        self.primary.len() as nat
    }

    open spec fn same(&self, a: int, b: int) -> bool {
        self.primary@[a]@ == self.primary@[b]@
    }

    open spec fn before(&self, a: int, b: int) -> bool {
        text_key_before(self.primary@, self.secondary@, a, b)
    }

    proof fn order_laws(&self) {
        let p = self.primary@;
        let s = self.secondary@;
        assert forall|a: int| #![trigger self.before(a, a)] !self.before(a, a) by {
            lemma_text_lt_irreflexive(p[a]@);
            lemma_text_lt_irreflexive(second_key(s, a));
        }
        assert forall|a: int, b: int, c: int|
            #[trigger] self.before(a, b) && #[trigger] self.before(b, c) implies self.before(a, c) by {
            lemma_text_lt_total(p[a]@, p[b]@);
            lemma_text_lt_total(p[b]@, p[c]@);
            lemma_text_lt_total(p[a]@, p[c]@);
            lemma_text_lt_total(second_key(s, a), second_key(s, b));
            lemma_text_lt_total(second_key(s, b), second_key(s, c));
            if text_lt(p[a]@, p[b]@) && text_lt(p[b]@, p[c]@) {
                lemma_text_lt_transitive(p[a]@, p[b]@, p[c]@);
            }
            if text_lt(second_key(s, a), second_key(s, b)) && text_lt(second_key(s, b), second_key(s, c)) {
                lemma_text_lt_transitive(second_key(s, a), second_key(s, b), second_key(s, c));
            }
        }
        assert forall|a: int, b: int| a != b implies #[trigger] self.before(a, b) || self.before(b, a) by {
            lemma_text_lt_total(p[a]@, p[b]@);
            lemma_text_lt_total(second_key(s, a), second_key(s, b));
        }
        assert forall|a: int, b: int, c: int|
            #[trigger] self.before(a, b) && #[trigger] self.before(b, c) && self.same(a, c) implies self.same(a, b) by {
            lemma_text_lt_total(p[a]@, p[b]@);
            lemma_text_lt_total(p[b]@, p[c]@);
            if text_lt(p[a]@, p[b]@) {
                if text_lt(p[b]@, p[c]@) {
                    lemma_text_lt_transitive(p[a]@, p[b]@, p[c]@);
                    lemma_text_lt_irreflexive(p[a]@);
                } else {
                    lemma_text_lt_irreflexive(p[a]@);
                }
            } else if p[a]@ != p[b]@ {
                lemma_text_lt_total(p[a]@, p[b]@);
                if text_lt(p[b]@, p[c]@) {
                    lemma_text_lt_total(p[b]@, p[a]@);
                }
            }
        }
    }

    fn len(&self) -> (r: usize) {
        self.primary.len()
    }

    fn is_before(&self, a: usize, b: usize) -> (r: bool) {
        let pa = &self.primary[a];
        let pb = &self.primary[b];
        if chars_lt(pa, pb) {
            return true;
        }
        if !chars_eq(pa, pb) {
            return false;
        }
        let sa = second_of(&self.secondary, a);
        let sb = second_of(&self.secondary, b);
        assert(sa@ =~= second_key(self.secondary@, a as int));
        if chars_lt(&sa, &sb) {
            return true;
        }
        chars_eq(&sa, &sb) && a < b
    }

    fn is_same(&self, a: usize, b: usize) -> (r: bool) {
        chars_eq(&self.primary[a], &self.primary[b])
    }
}

/// Records keyed by a number: by `keys[i]` (ascending, or descending), then by index.
pub struct NumberKeys {
    pub keys: Vec<u64>,
    pub descending: bool,
}

impl KeyOrder for NumberKeys {
    open spec fn count(&self) -> nat {
        self.keys.len() as nat
    }

    open spec fn same(&self, a: int, b: int) -> bool {
        self.keys@[a] == self.keys@[b]
    }

    open spec fn before(&self, a: int, b: int) -> bool {
        ||| (!self.descending && self.keys@[a] < self.keys@[b])
        ||| (self.descending && self.keys@[a] > self.keys@[b])
        ||| (self.keys@[a] == self.keys@[b] && a < b)
    }

    proof fn order_laws(&self) {
    }

    fn len(&self) -> (r: usize) {
        self.keys.len()
    }

    fn is_before(&self, a: usize, b: usize) -> (r: bool) {
        let ka = self.keys[a];
        let kb = self.keys[b];
        (!self.descending && ka < kb) || (self.descending && ka > kb) || (ka == kb && a < b)
    }

    fn is_same(&self, a: usize, b: usize) -> (r: bool) {
        self.keys[a] == self.keys[b]
    }
}

} // verus!
