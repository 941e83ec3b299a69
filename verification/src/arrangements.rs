//! The arrangement enumerator.
//!
//! An arrangement is an ordered, duplicate-free sequence of `k` values taken
//! from one pool; the universe of a `(pool, k)` pair is the list of every such
//! arrangement, in one fixed order. The universe grows incrementally: the
//! single empty arrangement is extended element by element, each step
//! appending every pool value not already present, walking the current list
//! in order and the pool in order, which fixes the enumeration order.

use vstd::prelude::*;
use crate::GenError;

verus! {

/// All one-element extensions of `a` by values of `pool` not already in `a`,
/// in pool order.
pub open spec fn extensions_of(a: Seq<i32>, pool: Seq<i32>) -> Seq<Seq<i32>>
    decreases pool.len(),
{
    if pool.len() == 0 {
        Seq::empty()
    } else {
        extensions_of(a, pool.drop_last()) + if a.contains(pool.last()) {
            Seq::<Seq<i32>>::empty()
        } else {
            seq![a.push(pool.last())]
        }
    }
}

/// Every arrangement of `arrs` extended by one element, in arrangement order.
pub open spec fn extend_all(arrs: Seq<Seq<i32>>, pool: Seq<i32>) -> Seq<Seq<i32>>
    decreases arrs.len(),
{
    if arrs.len() == 0 {
        Seq::empty()
    } else {
        extend_all(arrs.drop_last(), pool) + extensions_of(arrs.last(), pool)
    }
}

/// The ordered universe of duplicate-free `k`-element arrangements over
/// `pool`, grown from the empty arrangement by `k` extension rounds.
pub open spec fn arrangements_of(pool: Seq<i32>, k: nat) -> Seq<Seq<i32>>
    decreases k,
{
    if k == 0 {
        seq![Seq::<i32>::empty()]
    } else {
        extend_all(arrangements_of(pool, (k - 1) as nat), pool)
    }
}

/// What it means for `a` to be one arrangement of the `(pool, k)` universe:
/// exactly `k` values, pairwise distinct, every one drawn from the pool.
pub open spec fn is_arrangement(a: Seq<i32>, pool: Seq<i32>, k: nat) -> bool {
    &&& a.len() == k
    &&& a.no_duplicates()
    &&& forall|i: int| 0 <= i < a.len() ==> pool.contains(#[trigger] a[i])
}

/// The falling factorial n·(n−1)·…·(n−k+1): how many ordered, duplicate-free
/// k-element arrangements a pool of n distinct values admits.
pub open spec fn falling_factorial(n: nat, k: nat) -> nat
    decreases k,
{
    if k == 0 {
        1
    } else if k > n {
        0
    } else {
        falling_factorial(n, (k - 1) as nat) * ((n - k + 1) as nat)
    }
}

/// n! = n·(n−1)·…·1.
pub open spec fn factorial(n: nat) -> nat
    decreases n,
{
    if n == 0 {
        1
    } else {
        n * factorial((n - 1) as nat)
    }
}

/// Occurrences of `x` among the entries of `pool`.
pub open spec fn count_eq(pool: Seq<i32>, x: i32) -> nat
    decreases pool.len(),
{
    if pool.len() == 0 {
        0
    } else {
        count_eq(pool.drop_last(), x) + if pool.last() == x {
            1nat
        } else {
            0nat
        }
    }
}

/// How many entries of `pool` already occur in `a`.
pub open spec fn count_contained(a: Seq<i32>, pool: Seq<i32>) -> nat
    decreases pool.len(),
{
    if pool.len() == 0 {
        0
    } else {
        count_contained(a, pool.drop_last()) + if a.contains(pool.last()) {
            1nat
        } else {
            0nat
        }
    }
}

proof fn lemma_contains_split(pool: Seq<i32>, e: i32)
    requires
        pool.len() > 0,
    ensures
        pool.contains(e) <==> (pool.drop_last().contains(e) || pool.last() == e),
{
    if pool.contains(e) {
        let i = choose|i: int| 0 <= i < pool.len() && pool[i] == e;
        if i < pool.len() - 1 {
            assert(pool.drop_last()[i] == e);
        }
    }
    if pool.drop_last().contains(e) {
        let i = choose|i: int| 0 <= i < pool.drop_last().len() && pool.drop_last()[i] == e;
        assert(pool[i] == e);
    }
    if pool.last() == e {
        assert(pool[pool.len() - 1] == e);
    }
}

proof fn lemma_push_contains(a: Seq<i32>, y: i32, e: i32)
    ensures
        a.push(y).contains(e) <==> (a.contains(e) || e == y),
{
    if a.push(y).contains(e) {
        let i = choose|i: int| 0 <= i < a.push(y).len() && a.push(y)[i] == e;
        if i < a.len() {
            assert(a[i] == e);
        }
    }
    if a.contains(e) {
        let i = choose|i: int| 0 <= i < a.len() && a[i] == e;
        assert(a.push(y)[i] == e);
    }
    if e == y {
        assert(a.push(y)[a.len() as int] == e);
    }
}

proof fn lemma_count_eq_one(pool: Seq<i32>, x: i32)
    requires
        pool.no_duplicates(),
    ensures
        count_eq(pool, x) == if pool.contains(x) {
            1nat
        } else {
            0nat
        },
    decreases pool.len(),
{
    if pool.len() == 0 {
        assert(!pool.contains(x));
    } else {
        let p = pool.drop_last();
        lemma_count_eq_one(p, x);
        lemma_contains_split(pool, x);
        if pool.last() == x && p.contains(x) {
            let i = choose|i: int| 0 <= i < p.len() && p[i] == x;
            assert(pool[i] == pool[pool.len() - 1]);
        }
    }
}

proof fn lemma_count_contained_push(a: Seq<i32>, y: i32, pool: Seq<i32>)
    requires
        !a.contains(y),
    ensures
        count_contained(a.push(y), pool) == count_contained(a, pool) + count_eq(pool, y),
    decreases pool.len(),
{
    if pool.len() > 0 {
        lemma_count_contained_push(a, y, pool.drop_last());
        lemma_push_contains(a, y, pool.last());
    }
}

proof fn lemma_count_contained_empty(pool: Seq<i32>)
    ensures
        count_contained(Seq::<i32>::empty(), pool) == 0,
    decreases pool.len(),
{
    if pool.len() > 0 {
        lemma_count_contained_empty(pool.drop_last());
        assert(!Seq::<i32>::empty().contains(pool.last()));
    }
}

proof fn lemma_count_contained_full(a: Seq<i32>, pool: Seq<i32>)
    requires
        a.no_duplicates(),
        pool.no_duplicates(),
        forall|i: int| 0 <= i < a.len() ==> pool.contains(#[trigger] a[i]),
    ensures
        count_contained(a, pool) == a.len(),
    decreases a.len(),
{
    if a.len() == 0 {
        assert(a =~= Seq::<i32>::empty());
        lemma_count_contained_empty(pool);
    } else {
        let a0 = a.drop_last();
        let y = a.last();
        if a0.contains(y) {
            let i = choose|i: int| 0 <= i < a0.len() && a0[i] == y;
            assert(a[i] == a[a.len() - 1]);
        }
        lemma_count_contained_full(a0, pool);
        lemma_count_contained_push(a0, y, pool);
        lemma_count_eq_one(pool, y);
        assert(pool.contains(a[a.len() - 1]));
        assert(a =~= a0.push(y));
    }
}

proof fn lemma_extensions_len(a: Seq<i32>, pool: Seq<i32>)
    ensures
        extensions_of(a, pool).len() + count_contained(a, pool) == pool.len(),
    decreases pool.len(),
{
    if pool.len() > 0 {
        lemma_extensions_len(a, pool.drop_last());
    }
}

proof fn lemma_extensions_shape(a: Seq<i32>, pool: Seq<i32>)
    ensures
        forall|t: int|
            #![trigger extensions_of(a, pool)[t]]
            0 <= t < extensions_of(a, pool).len() ==> {
                let x = extensions_of(a, pool)[t];
                &&& x.len() == a.len() + 1
                &&& x.drop_last() == a
                &&& pool.contains(x.last())
                &&& !a.contains(x.last())
            },
    decreases pool.len(),
{
    if pool.len() > 0 {
        let p = pool.drop_last();
        lemma_extensions_shape(a, p);
        assert forall|e: i32| p.contains(e) implies pool.contains(e) by {
            let i = choose|i: int| 0 <= i < p.len() && p[i] == e;
            assert(pool[i] == e);
        }
        assert(pool[pool.len() - 1] == pool.last());
        let whole = extensions_of(a, pool);
        let rec = extensions_of(a, p);
        assert forall|t: int| 0 <= t < whole.len() implies {
            let x = #[trigger] whole[t];
            &&& x.len() == a.len() + 1
            &&& x.drop_last() == a
            &&& pool.contains(x.last())
            &&& !a.contains(x.last())
        } by {
            if t < rec.len() {
                assert(whole[t] == rec[t]);
            } else {
                let x = a.push(pool.last());
                assert(whole[t] == x);
                assert(x.drop_last() =~= a);
                assert(x.last() == pool.last());
            }
        }
    }
}

proof fn lemma_extend_all_shape(arrs: Seq<Seq<i32>>, pool: Seq<i32>)
    ensures
        forall|t: int|
            #![trigger extend_all(arrs, pool)[t]]
            0 <= t < extend_all(arrs, pool).len() ==> {
                let x = extend_all(arrs, pool)[t];
                &&& x.len() >= 1
                &&& arrs.contains(x.drop_last())
                &&& pool.contains(x.last())
                &&& !x.drop_last().contains(x.last())
            },
    decreases arrs.len(),
{
    if arrs.len() > 0 {
        let front = arrs.drop_last();
        lemma_extend_all_shape(front, pool);
        lemma_extensions_shape(arrs.last(), pool);
        assert forall|d: Seq<i32>| front.contains(d) implies arrs.contains(d) by {
            let i = choose|i: int| 0 <= i < front.len() && front[i] == d;
            assert(arrs[i] == d);
        }
        assert(arrs[arrs.len() - 1] == arrs.last());
        assert forall|t: int|
            0 <= t < extend_all(arrs, pool).len() implies {
            let x = #[trigger] extend_all(arrs, pool)[t];
            &&& x.len() >= 1
            &&& arrs.contains(x.drop_last())
            &&& pool.contains(x.last())
            &&& !x.drop_last().contains(x.last())
        } by {
            let rec = extend_all(front, pool);
            if t < rec.len() {
                assert(extend_all(arrs, pool)[t] == rec[t]);
            } else {
                assert(extend_all(arrs, pool)[t] == extensions_of(arrs.last(), pool)[t - rec.len()]);
                assert(extensions_of(arrs.last(), pool)[t - rec.len()].drop_last() == arrs.last());
            }
        }
    }
}

/// Every entry of the `(pool, k)` universe is a duplicate-free arrangement of
/// `k` pool values.
pub proof fn lemma_arrangements_valid(pool: Seq<i32>, k: nat)
    ensures
        forall|t: int|
            #![trigger arrangements_of(pool, k)[t]]
            0 <= t < arrangements_of(pool, k).len() ==> is_arrangement(
                arrangements_of(pool, k)[t],
                pool,
                k,
            ),
    decreases k,
{
    if k == 0 {
        assert(arrangements_of(pool, 0)[0] =~= Seq::<i32>::empty());
    } else {
        let prev = arrangements_of(pool, (k - 1) as nat);
        lemma_arrangements_valid(pool, (k - 1) as nat);
        lemma_extend_all_shape(prev, pool);
        assert forall|t: int|
            0 <= t < arrangements_of(pool, k).len() implies is_arrangement(
            #[trigger] arrangements_of(pool, k)[t],
            pool,
            k,
        ) by {
            let x = arrangements_of(pool, k)[t];
            let d = x.drop_last();
            let s = choose|s: int| 0 <= s < prev.len() && prev[s] == d;
            assert(is_arrangement(prev[s], pool, (k - 1) as nat));
            assert forall|i: int, j: int|
                0 <= i < x.len() && 0 <= j < x.len() && i != j implies x[i] != x[j] by {
                if i < x.len() - 1 && j < x.len() - 1 {
                    assert(d[i] == x[i] && d[j] == x[j]);
                } else if j == x.len() - 1 {
                    assert(d[i] == x[i]);
                    if x[i] == x.last() {
                        assert(d.contains(x.last()));
                    }
                } else {
                    assert(d[j] == x[j]);
                    if x[j] == x.last() {
                        assert(d.contains(x.last()));
                    }
                }
            }
            assert forall|i: int| 0 <= i < x.len() implies pool.contains(#[trigger] x[i]) by {
                if i < x.len() - 1 {
                    assert(x[i] == d[i]);
                } else {
                    assert(x[i] == x.last());
                }
            }
        }
    }
}

proof fn lemma_extend_all_len(arrs: Seq<Seq<i32>>, pool: Seq<i32>, j: nat)
    requires
        pool.no_duplicates(),
        j <= pool.len(),
        forall|t: int|
            0 <= t < arrs.len() ==> is_arrangement(#[trigger] arrs[t], pool, j),
    ensures
        extend_all(arrs, pool).len() == arrs.len() * (pool.len() - j),
    decreases arrs.len(),
{
    if arrs.len() == 0 {
    } else {
        let front = arrs.drop_last();
        assert forall|t: int| 0 <= t < front.len() implies is_arrangement(
            #[trigger] front[t],
            pool,
            j,
        ) by {
            assert(front[t] == arrs[t]);
        }
        lemma_extend_all_len(front, pool, j);
        let a = arrs.last();
        assert(arrs[arrs.len() - 1] == a);
        lemma_extensions_len(a, pool);
        lemma_count_contained_full(a, pool);
        assert((arrs.len() - 1) * (pool.len() - j) + (pool.len() - j) == arrs.len() * (pool.len()
            - j)) by (nonlinear_arith);
    }
}

/// The `(pool, k)` universe over a duplicate-free pool holds exactly
/// n·(n−1)·…·(n−k+1) arrangements.
pub proof fn lemma_arrangements_count(pool: Seq<i32>, k: nat)
    requires
        pool.no_duplicates(),
        k <= pool.len(),
    ensures
        arrangements_of(pool, k).len() == falling_factorial(pool.len(), k),
    decreases k,
{
    if k > 0 {
        let prev = arrangements_of(pool, (k - 1) as nat);
        lemma_arrangements_count(pool, (k - 1) as nat);
        lemma_arrangements_valid(pool, (k - 1) as nat);
        lemma_extend_all_len(prev, pool, (k - 1) as nat);
    }
}

proof fn lemma_extensions_distinct(a: Seq<i32>, pool: Seq<i32>)
    requires
        pool.no_duplicates(),
    ensures
        extensions_of(a, pool).no_duplicates(),
    decreases pool.len(),
{
    if pool.len() > 0 {
        let p = pool.drop_last();
        lemma_extensions_distinct(a, p);
        lemma_extensions_shape(a, p);
        if !a.contains(pool.last()) {
            if p.contains(pool.last()) {
                let i = choose|i: int| 0 <= i < p.len() && p[i] == pool.last();
                assert(pool[i] == pool[pool.len() - 1]);
            }
            let whole = extensions_of(a, pool);
            let rec = extensions_of(a, p);
            let x = a.push(pool.last());
            assert forall|i: int, j: int|
                0 <= i < whole.len() && 0 <= j < whole.len() && i != j implies whole[i] != whole[j] by {
                if i < rec.len() && j < rec.len() {
                    assert(whole[i] == rec[i] && whole[j] == rec[j]);
                } else if i < rec.len() {
                    assert(whole[i] == rec[i] && whole[j] == x);
                    if rec[i] == x {
                        assert(p.contains(rec[i].last()));
                        assert(x.last() == pool.last());
                    }
                } else {
                    assert(whole[i] == x && whole[j] == rec[j]);
                    if rec[j] == x {
                        assert(p.contains(rec[j].last()));
                        assert(x.last() == pool.last());
                    }
                }
            }
        }
    }
}

proof fn lemma_extend_all_distinct(arrs: Seq<Seq<i32>>, pool: Seq<i32>)
    requires
        pool.no_duplicates(),
        arrs.no_duplicates(),
    ensures
        extend_all(arrs, pool).no_duplicates(),
    decreases arrs.len(),
{
    if arrs.len() > 0 {
        let front = arrs.drop_last();
        lemma_extend_all_distinct(front, pool);
        lemma_extensions_distinct(arrs.last(), pool);
        lemma_extend_all_shape(front, pool);
        lemma_extensions_shape(arrs.last(), pool);
        let whole = extend_all(arrs, pool);
        let rec = extend_all(front, pool);
        let tail = extensions_of(arrs.last(), pool);
        assert forall|i: int, j: int|
            0 <= i < whole.len() && 0 <= j < whole.len() && i != j implies whole[i] != whole[j] by {
            if i < rec.len() && j < rec.len() {
                assert(whole[i] == rec[i] && whole[j] == rec[j]);
            } else if i >= rec.len() && j >= rec.len() {
                assert(whole[i] == tail[i - rec.len()] && whole[j] == tail[j - rec.len()]);
            } else {
                let (ri, ti) = if i < rec.len() {
                    (i, j - rec.len())
                } else {
                    (j, i - rec.len())
                };
                assert(whole[ri] == rec[ri] || whole[ri] == tail[ti]);
                if rec[ri] == tail[ti] {
                    assert(front.contains(rec[ri].drop_last()));
                    assert(tail[ti].drop_last() == arrs.last());
                    let s = choose|s: int|
                        0 <= s < front.len() && front[s] == rec[ri].drop_last();
                    assert(arrs[s] == arrs[arrs.len() - 1]);
                }
            }
        }
    }
}

proof fn lemma_extensions_complete(a: Seq<i32>, pool: Seq<i32>, x: i32)
    requires
        pool.contains(x),
        !a.contains(x),
    ensures
        extensions_of(a, pool).contains(a.push(x)),
    decreases pool.len(),
{
    let w = choose|w: int| 0 <= w < pool.len() && pool[w] == x;
    assert(pool.len() > 0);
    let p = pool.drop_last();
    let rec = extensions_of(a, p);
    if pool.last() == x {
        assert(extensions_of(a, pool)[rec.len() as int] == a.push(x));
    } else {
        lemma_contains_split(pool, x);
        lemma_extensions_complete(a, p, x);
        let i = choose|i: int| 0 <= i < rec.len() && rec[i] == a.push(x);
        assert(extensions_of(a, pool)[i] == a.push(x));
    }
}

proof fn lemma_extend_all_complete(arrs: Seq<Seq<i32>>, pool: Seq<i32>, d: Seq<i32>, a: Seq<i32>)
    requires
        arrs.contains(d),
        extensions_of(d, pool).contains(a),
    ensures
        extend_all(arrs, pool).contains(a),
    decreases arrs.len(),
{
    let s = choose|s: int| 0 <= s < arrs.len() && arrs[s] == d;
    assert(arrs.len() > 0);
    let front = arrs.drop_last();
    let rec = extend_all(front, pool);
    if arrs.last() == d {
        let j = choose|j: int|
            0 <= j < extensions_of(d, pool).len() && extensions_of(d, pool)[j] == a;
        assert(extend_all(arrs, pool)[rec.len() + j] == a);
    } else {
        assert(front[s] == d);
        lemma_extend_all_complete(front, pool, d, a);
        let j = choose|j: int| 0 <= j < rec.len() && rec[j] == a;
        assert(extend_all(arrs, pool)[j] == a);
    }
}

/// The universe is complete: every duplicate-free `k`-element arrangement of
/// pool values appears in the enumerated list.
pub proof fn lemma_arrangements_complete(pool: Seq<i32>, k: nat)
    ensures
        forall|a: Seq<i32>|
            is_arrangement(a, pool, k) ==> #[trigger] arrangements_of(pool, k).contains(a),
    decreases k,
{
    if k == 0 {
        assert forall|a: Seq<i32>| is_arrangement(a, pool, 0) implies arrangements_of(
            pool,
            0,
        ).contains(a) by {
            assert(a =~= Seq::<i32>::empty());
            assert(arrangements_of(pool, 0)[0] == Seq::<i32>::empty());
        }
    } else {
        lemma_arrangements_complete(pool, (k - 1) as nat);
        assert forall|a: Seq<i32>| is_arrangement(a, pool, k) implies arrangements_of(
            pool,
            k,
        ).contains(a) by {
            let d = a.drop_last();
            let x = a.last();
            assert(pool.contains(a[a.len() - 1]));
            if d.contains(x) {
                let i = choose|i: int| 0 <= i < d.len() && d[i] == x;
                assert(a[i] == a[a.len() - 1]);
            }
            assert(is_arrangement(d, pool, (k - 1) as nat)) by {
                assert forall|i: int| 0 <= i < d.len() implies pool.contains(#[trigger] d[i]) by {
                    assert(d[i] == a[i]);
                }
            }
            assert(arrangements_of(pool, (k - 1) as nat).contains(d));
            lemma_extensions_complete(d, pool, x);
            assert(a =~= d.push(x));
            lemma_extend_all_complete(arrangements_of(pool, (k - 1) as nat), pool, d, a);
        }
    }
}

/// No two entries of the `(pool, k)` universe are the same ordered sequence.
pub proof fn lemma_arrangements_distinct(pool: Seq<i32>, k: nat)
    requires
        pool.no_duplicates(),
    ensures
        arrangements_of(pool, k).no_duplicates(),
    decreases k,
{
    if k > 0 {
        lemma_arrangements_distinct(pool, (k - 1) as nat);
        lemma_extend_all_distinct(arrangements_of(pool, (k - 1) as nat), pool);
    }
}

/// The enumerated universe is exactly as large as the falling factorial says,
/// holds no repeated arrangement, and every entry is a duplicate-free
/// selection of `k` pool values.
pub proof fn lemma_universe_correct(pool: Seq<i32>, k: nat)
    requires
        pool.no_duplicates(),
        1 <= k <= pool.len(),
    ensures
        arrangements_of(pool, k).len() == falling_factorial(pool.len(), k),
        arrangements_of(pool, k).no_duplicates(),
        forall|t: int|
            #![trigger arrangements_of(pool, k)[t]]
            0 <= t < arrangements_of(pool, k).len() ==> is_arrangement(
                arrangements_of(pool, k)[t],
                pool,
                k,
            ),
        forall|a: Seq<i32>|
            is_arrangement(a, pool, k) ==> #[trigger] arrangements_of(pool, k).contains(a),
{
    lemma_arrangements_count(pool, k);
    lemma_arrangements_distinct(pool, k);
    lemma_arrangements_valid(pool, k);
    lemma_arrangements_complete(pool, k);
}

/// The falling factorial is the quotient n!/(n−k)!, stated product-wise.
pub proof fn lemma_falling_factorial_factorial(n: nat, k: nat)
    requires
        k <= n,
    ensures
        falling_factorial(n, k) * factorial((n - k) as nat) == factorial(n),
    decreases k,
{
    if k == 0 {
        assert((n - 0) as nat == n);
        assert(falling_factorial(n, 0) == 1);
        assert(1 * factorial(n) == factorial(n)) by (nonlinear_arith);
    } else {
        lemma_falling_factorial_factorial(n, (k - 1) as nat);
        let m = (n - k) as nat;
        let ffp = falling_factorial(n, (k - 1) as nat);
        assert((n - (k - 1)) as nat == (m + 1) as nat);
        assert(((m + 1) as nat) == m + 1);
        assert(falling_factorial(n, k) == ffp * (m + 1));
        assert(factorial((m + 1) as nat) == (m + 1) * factorial(m));
        assert(ffp * factorial((m + 1) as nat) == factorial(n));
        assert(ffp * ((m + 1) * factorial(m)) == (ffp * (m + 1)) * factorial(m))
            by (nonlinear_arith);
        assert(falling_factorial(n, k) * factorial(m) == (ffp * (m + 1)) * factorial(m));
        assert(falling_factorial(n, k) * factorial(m) == factorial(n));
    }
}

/// Enumeration is a pure function of the pool and the length: any two lists
/// that both satisfy the enumerator's contract for the same inputs are the
/// same ordered list.
pub proof fn lemma_enumeration_deterministic(
    pool: Seq<i32>,
    k: nat,
    r1: Seq<Seq<i32>>,
    r2: Seq<Seq<i32>>,
)
    requires
        r1 == arrangements_of(pool, k),
        r2 == arrangements_of(pool, k),
    ensures
        r1 == r2,
{
}

/// Whether `row` holds `x`.
fn row_contains(row: &Vec<i32>, x: i32) -> (b: bool)
    ensures
        b == row@.contains(x),
{
    let mut i: usize = 0;
    while i < row.len()
        invariant
            i <= row@.len(),
            forall|j: int| 0 <= j < i ==> row@[j] != x,
        decreases row@.len() - i,
    {
        if row[i] == x {
            return true;
        }
        i = i + 1;
    }
    false
}

/// A fresh copy of `row`.
pub(crate) fn copy_row(row: &Vec<i32>) -> (r: Vec<i32>)
    ensures
        r@ == row@,
{
    let mut r: Vec<i32> = Vec::new();
    let mut i: usize = 0;
    while i < row.len()
        invariant
            i <= row@.len(),
            r@ == row@.subrange(0, i as int),
        decreases row@.len() - i,
    {
        let v = row[i];
        r.push(v);
        proof {
            assert(r@ =~= row@.subrange(0, i + 1));
        }
        i = i + 1;
    }
    proof {
        assert(r@ =~= row@);
    }
    r
}

/// One extension round over every arrangement in `arrs`.
fn extend_step(arrs: &Vec<Vec<i32>>, elements: &[i32]) -> (r: Vec<Vec<i32>>)
    ensures
        r.deep_view() == extend_all(arrs.deep_view(), elements@),
{
    let ghost pool: Seq<i32> = elements@;
    let ghost all: Seq<Seq<i32>> = arrs.deep_view();
    let mut r: Vec<Vec<i32>> = Vec::new();
    let mut i: usize = 0;
    while i < arrs.len()
        invariant
            i <= arrs@.len(),
            all == arrs.deep_view(),
            pool == elements@,
            all.len() == arrs@.len(),
            r.deep_view() == extend_all(all.take(i as int), pool),
        decreases arrs@.len() - i,
    {
        let mut j: usize = 0;
        while j < elements.len()
            invariant
                i < arrs@.len(),
                j <= pool.len(),
                all == arrs.deep_view(),
                pool == elements@,
                all.len() == arrs@.len(),
                r.deep_view() == extend_all(all.take(i as int), pool) + extensions_of(
                    all[i as int],
                    pool.take(j as int),
                ),
            decreases pool.len() - j,
        {
            let ghost r_before: Seq<Seq<i32>> = r.deep_view();
            proof {
                assert(arrs@[i as int]@ =~= all[i as int]);
            }
            let e = elements[j];
            if !row_contains(&arrs[i], e) {
                let mut na = copy_row(&arrs[i]);
                proof {
                    assert(na@ =~= all[i as int]);
                }
                na.push(e);
                r.push(na);
                proof {
                    assert(r.deep_view() =~~= r_before.push(all[i as int].push(e)));
                }
            }
            proof {
                let tj = pool.take(j + 1);
                assert(tj.drop_last() =~= pool.take(j as int));
                assert(tj.last() == pool[j as int]);
                assert(extensions_of(all[i as int], tj) == extensions_of(
                    all[i as int],
                    pool.take(j as int),
                ) + if all[i as int].contains(pool[j as int]) {
                    Seq::<Seq<i32>>::empty()
                } else {
                    seq![all[i as int].push(pool[j as int])]
                });
                assert(r.deep_view() =~~= extend_all(all.take(i as int), pool) + extensions_of(
                    all[i as int],
                    tj,
                ));
            }
            j = j + 1;
        }
        proof {
            assert(pool.take(pool.len() as int) =~= pool);
            let ti = all.take(i + 1);
            assert(ti.drop_last() =~= all.take(i as int));
            assert(ti.last() == all[i as int]);
            assert(r.deep_view() =~~= extend_all(all.take(i + 1), pool));
        }
        i = i + 1;
    }
    proof {
        assert(all.take(all.len() as int) =~= all);
    }
    r
}

/// Enumerates the full universe of ordered, duplicate-free `k`-element
/// arrangements over `elements`, in the fixed construction order. A length
/// outside `1..=elements.len()` is rejected as an invalid argument.
pub fn get_all_possible_arrangements_of_size_k(k: usize, elements: &[i32]) -> (result: Result<
    Vec<Vec<i32>>,
    GenError,
>)
    ensures
        (result is Err) <==> (k == 0 || k > elements@.len()),
        result matches Err(e) ==> e == GenError::InvalidArgument,
        result matches Ok(arrs) ==> arrs.deep_view() == arrangements_of(elements@, k as nat),
{
    if k == 0 || k > elements.len() {
        return Err(GenError::InvalidArgument);
    }
    let mut arrs: Vec<Vec<i32>> = Vec::new();
    arrs.push(Vec::new());
    proof {
        assert(arrs.deep_view() =~~= seq![Seq::<i32>::empty()]);
    }
    let mut step: usize = 0;
    while step < k
        invariant
            step <= k,
            arrs.deep_view() == arrangements_of(elements@, step as nat),
        decreases k - step,
    {
        let next = extend_step(&arrs, elements);
        arrs = next;
        step = step + 1;
    }
    Ok(arrs)
}

} // verus!
