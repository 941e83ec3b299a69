//! Position-wise similarity between two columns of numbers.

use vstd::prelude::*;

verus! {

/// Number of positions `i < n` at which `a` and `b` hold equal values.
pub open spec fn matching_cells_up_to(a: Seq<i32>, b: Seq<i32>, n: nat) -> nat
    recommends
        n <= a.len(),
        n <= b.len(),
    decreases n,
{
    if n == 0 {
        0
    } else {
        matching_cells_up_to(a, b, (n - 1) as nat) + if a[n - 1] == b[n - 1] {
            1nat
        } else {
            0nat
        }
    }
}

/// Number of positions at which `a` and `b` hold equal values, up to the
/// shorter of the two lengths.
pub open spec fn matching_cells(a: Seq<i32>, b: Seq<i32>) -> nat {
    matching_cells_up_to(a, b, if a.len() <= b.len() { a.len() } else { b.len() })
}

/// The similarity count never exceeds the prefix length it inspects.
pub proof fn lemma_matching_cells_up_to_bound(a: Seq<i32>, b: Seq<i32>, n: nat)
    ensures
        matching_cells_up_to(a, b, n) <= n,
    decreases n,
{
    if n > 0 {
        lemma_matching_cells_up_to_bound(a, b, (n - 1) as nat);
    }
}

/// Similarity is symmetric in its two arguments.
pub proof fn lemma_matching_cells_up_to_sym(a: Seq<i32>, b: Seq<i32>, n: nat)
    ensures
        matching_cells_up_to(a, b, n) == matching_cells_up_to(b, a, n),
    decreases n,
{
    if n > 0 {
        lemma_matching_cells_up_to_sym(a, b, (n - 1) as nat);
    }
}

/// Two equal sequences match at every position.
pub proof fn lemma_matching_cells_up_to_self(a: Seq<i32>, n: nat)
    requires
        n <= a.len(),
    ensures
        matching_cells_up_to(a, a, n) == n,
    decreases n,
{
    if n > 0 {
        lemma_matching_cells_up_to_self(a, (n - 1) as nat);
    }
}

/// The similarity count is at most either length.
pub proof fn lemma_matching_cells_bound(a: Seq<i32>, b: Seq<i32>)
    ensures
        matching_cells(a, b) <= a.len(),
        matching_cells(a, b) <= b.len(),
{
    lemma_matching_cells_up_to_bound(
        a,
        b,
        if a.len() <= b.len() {
            a.len()
        } else {
            b.len()
        },
    );
}

/// Similarity does not depend on the order of its arguments.
pub proof fn lemma_matching_cells_sym(a: Seq<i32>, b: Seq<i32>)
    ensures
        matching_cells(a, b) == matching_cells(b, a),
{
    lemma_matching_cells_up_to_sym(
        a,
        b,
        if a.len() <= b.len() {
            a.len()
        } else {
            b.len()
        },
    );
}

/// A sequence matches itself everywhere.
pub proof fn lemma_matching_cells_self(a: Seq<i32>)
    ensures
        matching_cells(a, a) == a.len(),
{
    lemma_matching_cells_up_to_self(a, a.len());
}

/// Counts the positions at which the two columns hold equal values, as the
/// diversity sampler's measure of how alike two columns are.
pub fn count_matching_cells(column: &[i32], existing_column: &[i32]) -> (r: usize)
    ensures
        r == matching_cells(column@, existing_column@),
{
    let n = if column.len() <= existing_column.len() {
        column.len()
    } else {
        existing_column.len()
    };
    let mut count: usize = 0;
    let mut i: usize = 0;
    while i < n
        invariant
            i <= n,
            n <= column@.len(),
            n <= existing_column@.len(),
            count == matching_cells_up_to(column@, existing_column@, i as nat),
            count <= i,
        decreases n - i,
    {
        if column[i] == existing_column[i] {
            count = count + 1;
        }
        i = i + 1;
    }
    count
}

} // verus!
