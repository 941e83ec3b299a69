//! The whole pipeline: five fixed pools, one enumerated universe and one
//! seeded sampling run per column, then assembly into sheets.
//!
//! Diversity is enforced independently per column; the combination of five
//! individually diverse columns is never checked as a whole, an accepted
//! limitation of the design.

use vstd::prelude::*;
use vstd::pervasive::unreached;
use crate::arrangements::{
    arrangements_of, falling_factorial, get_all_possible_arrangements_of_size_k, is_arrangement,
    lemma_universe_correct,
};
use crate::grid::{assemble_grids, Grid};
use crate::rng::{state_of_seed, XorShiftRng};
use crate::sampler::{
    iterate_model, lemma_iterate_deterministic, model_complete, model_of, ColumnSampler, RunState,
};

verus! {

/// Each of the five pools holds fifteen consecutive values.
pub const POOL_SIZE: usize = 15;

/// One column holds five numbers: the arrangement length.
pub const COLUMN_HEIGHT: usize = 5;

/// The caller-enforced ceiling on how many sheets one run may request.
pub const MAX_SHEET_COUNT: usize = 10_000;

/// The pool of column `c`: the fifteen values `15·c + 1 ..= 15·c + 15`, so
/// the five pools partition 1..=75 into contiguous blocks.
pub open spec fn pool_of_column(c: int) -> Seq<i32> {
    Seq::new(15, |i: int| (15 * c + 1 + i) as i32)
}

/// Pools hold pairwise distinct values.
proof fn lemma_pool_distinct(c: int)
    requires
        0 <= c < 5,
    ensures
        pool_of_column(c).no_duplicates(),
        pool_of_column(c).len() == 15,
{
}

/// A nonempty universe: over a large enough pool the arrangement count is
/// at least one.
proof fn lemma_falling_factorial_pos(n: nat, k: nat)
    requires
        k <= n,
    ensures
        falling_factorial(n, k) >= 1,
    decreases k,
{
    if k > 0 {
        lemma_falling_factorial_pos(n, (k - 1) as nat);
        let prev = falling_factorial(n, (k - 1) as nat);
        let m = (n - k + 1) as nat;
        assert(prev * m >= 1) by (nonlinear_arith)
            requires
                prev >= 1,
                m >= 1,
        ;
    }
}

/// The state one column's sampling run starts from: the full enumerated
/// universe over that column's pool, a fresh bag in identity order, an empty
/// acceptance history, tolerance zero, and the given generator state.
pub open spec fn column_start(c: int, count: int, rng: u64) -> RunState {
    let uni = arrangements_of(pool_of_column(c), 5);
    RunState {
        universe: uni,
        items: Seq::new(uni.len(), |i: int| i as usize),
        remaining: uni.len() as int,
        accepted: Seq::empty(),
        tolerance: 0,
        failed: 0,
        target: count,
        hist: Seq::empty(),
        rng,
    }
}

/// The generator state a column's run starts from: the seed for the first
/// column, and the state the previous column's run left behind after that.
pub open spec fn column_start_rng(finals: Seq<RunState>, c: int, seed: u64) -> u64 {
    if c == 0 {
        state_of_seed(seed)
    } else {
        finals[c - 1].rng
    }
}

/// Whether `finals` records the five finished column runs of one generation
/// with the given sheet count and seed: each entry is a completed iteration
/// of the pure step function from its column's start state, with the
/// generator state threaded from one column to the next.
pub open spec fn are_column_runs(finals: Seq<RunState>, count: int, seed: u64) -> bool {
    &&& finals.len() == 5
    &&& forall|c: int|
        #![trigger finals[c]]
        0 <= c < 5 ==> {
            &&& exists|n: nat|
                finals[c] == #[trigger] iterate_model(
                    column_start(c, count, column_start_rng(finals, c, seed)),
                    n,
                )
            &&& model_complete(finals[c])
        }
}

/// Whether `grids` shows exactly the sheets the five finished column runs
/// stand for: sheet `i`, column `x`, row `y` holds the `y`-th value of the
/// arrangement accepted `i`-th in column `x`'s run.
pub open spec fn grids_show_runs(grids: Seq<Grid>, finals: Seq<RunState>, count: int) -> bool {
    &&& grids.len() == count
    &&& forall|i: int, x: int, y: int|
        0 <= i < count && 0 <= x < 5 && 0 <= y < 5 && !(x == 2 && y == 2)
            ==> #[trigger] grids[i].cell(x, y)
            == finals[x].universe[finals[x].accepted[i] as int][y]
}

/// Generation is a function of the sheet count and the seed alone: two grid
/// sequences that both carry complete column runs for the same inputs agree
/// cell for cell.
pub proof fn lemma_generation_deterministic(
    g1: Seq<Grid>,
    f1: Seq<RunState>,
    g2: Seq<Grid>,
    f2: Seq<RunState>,
    count: int,
    seed: u64,
)
    requires
        are_column_runs(f1, count, seed),
        grids_show_runs(g1, f1, count),
        are_column_runs(f2, count, seed),
        grids_show_runs(g2, f2, count),
    ensures
        g1.len() == g2.len(),
        forall|i: int, x: int, y: int|
            0 <= i < g1.len() && 0 <= x < 5 && 0 <= y < 5 && !(x == 2 && y == 2)
                ==> #[trigger] g1[i].cell(x, y) == #[trigger] g2[i].cell(x, y),
{
    lemma_runs_equal_upto(f1, f2, count, seed, 4);
}

proof fn lemma_runs_equal_upto(f1: Seq<RunState>, f2: Seq<RunState>, count: int, seed: u64, c: int)
    requires
        are_column_runs(f1, count, seed),
        are_column_runs(f2, count, seed),
        0 <= c < 5,
    ensures
        forall|d: int| 0 <= d <= c ==> #[trigger] f1[d] == f2[d],
    decreases c,
{
    if c > 0 {
        lemma_runs_equal_upto(f1, f2, count, seed, c - 1);
    }
    assert(column_start_rng(f1, c, seed) == column_start_rng(f2, c, seed));
    let start = column_start(c, count, column_start_rng(f1, c, seed));
    let n1 = choose|n: nat|
        f1[c] == #[trigger] iterate_model(
            column_start(c, count, column_start_rng(f1, c, seed)),
            n,
        );
    let n2 = choose|n: nat|
        f2[c] == #[trigger] iterate_model(
            column_start(c, count, column_start_rng(f2, c, seed)),
            n,
        );
    lemma_iterate_deterministic(start, n1, n2);
}

/// Builds the pool of column `c` as a vector.
pub fn make_pool(c: usize) -> (p: Vec<i32>)
    requires
        c < 5,
    ensures
        p@ == pool_of_column(c as int),
{
    let mut p: Vec<i32> = Vec::new();
    let mut i: usize = 0;
    while i < POOL_SIZE
        invariant
            c < 5,
            i <= 15,
            p@.len() == i,
            forall|j: int| 0 <= j < i ==> p@[j] == pool_of_column(c as int)[j],
        decreases 15 - i,
    {
        let base: usize = 15 * c + 1 + i;
        p.push(base as i32);
        i = i + 1;
    }
    proof {
        assert(p@ =~= pool_of_column(c as int));
    }
    p
}

/// Generates `sheet_count` bingo grids from the given seed: per column, the
/// full universe of five-element arrangements over that column's pool is
/// enumerated and sampled for diversity, and the five column sequences are
/// merged into grids. Every returned grid is a well-formed sheet whose free
/// centre cell carries the marker and whose other cells carry values from
/// the pool of their column.
pub fn create_random_number_grids(sheet_count: usize, seed: u64) -> (grids: Vec<Grid>)
    requires
        sheet_count <= MAX_SHEET_COUNT,
    ensures
        grids@.len() == sheet_count,
        forall|i: int| 0 <= i < grids@.len() ==> (#[trigger] grids@[i]).wf(),
        forall|i: int, x: int, y: int|
            0 <= i < grids@.len() && 0 <= x < 5 && 0 <= y < 5 && !(x == 2 && y == 2)
                ==> pool_of_column(x).contains(#[trigger] grids@[i].cell(x, y)),
        exists|finals: Seq<RunState>|
            #[trigger] are_column_runs(finals, sheet_count as int, seed) && grids_show_runs(
                grids@,
                finals,
                sheet_count as int,
            ),
{
    let mut rng = XorShiftRng::new_from_seed(seed);
    let mut columns: Vec<Vec<Vec<i32>>> = Vec::new();
    let ghost mut finals: Seq<RunState> = Seq::empty();
    let mut c: usize = 0;
    while c < 5
        invariant
            sheet_count <= MAX_SHEET_COUNT,
            c <= 5,
            columns@.len() == c,
            forall|cc: int| 0 <= cc < c ==> (#[trigger] columns@[cc]@).len() == sheet_count,
            forall|cc: int, i: int|
                0 <= cc < c && 0 <= i < sheet_count ==> (#[trigger] columns@[cc]@[i]@).len() == 5,
            forall|cc: int, i: int, y: int|
                0 <= cc < c && 0 <= i < sheet_count && 0 <= y < 5 ==> pool_of_column(cc).contains(
                    #[trigger] columns@[cc]@[i]@[y],
                ),
            finals.len() == c,
            forall|cc: int|
                #![trigger finals[cc]]
                0 <= cc < c ==> {
                    &&& exists|n: nat|
                        finals[cc] == #[trigger] iterate_model(
                            column_start(cc, sheet_count as int, column_start_rng(
                                finals,
                                cc,
                                seed,
                            )),
                            n,
                        )
                    &&& model_complete(finals[cc])
                    &&& finals[cc].target == sheet_count
                },
            rng.state == column_start_rng(finals, c as int, seed),
            forall|cc: int, i: int, y: int|
                0 <= cc < c && 0 <= i < sheet_count && 0 <= y < 5
                    ==> #[trigger] columns@[cc]@[i]@[y] == finals[cc].universe[finals[cc].accepted[i] as int][y],
        decreases 5 - c,
    {
        let pool = make_pool(c);
        proof {
            lemma_pool_distinct(c as int);
            lemma_universe_correct(pool_of_column(c as int), 5);
            lemma_falling_factorial_pos(15, 5);
        }
        let universe = match get_all_possible_arrangements_of_size_k(
            COLUMN_HEIGHT,
            pool.as_slice(),
        ) {
            Ok(u) => u,
            Err(_) => unreached(),
        };
        let ghost uni_spec: Seq<Seq<i32>> = arrangements_of(pool_of_column(c as int), 5);
        proof {
            assert(universe.deep_view() == uni_spec);
            assert(universe@.len() == uni_spec.len());
            assert forall|i: int| 0 <= i < universe@.len() implies (#[trigger] universe@[i]@)
                == uni_spec[i] by {
                assert(universe.deep_view()[i] == universe@[i].deep_view());
                assert(universe@[i].deep_view() =~= universe@[i]@);
            }
            assert(universe@[0]@.len() == 5);
        }
        let mut sampler = ColumnSampler::new(universe, sheet_count);
        let ghost m_start = model_of(sampler, rng);
        proof {
            let cs = column_start(c as int, sheet_count as int, rng.state);
            assert(m_start.universe =~= cs.universe);
            assert(m_start.items =~= cs.items);
            assert(m_start.accepted =~= cs.accepted);
            assert(m_start.hist =~= cs.hist);
            assert(m_start == cs);
        }
        sampler.run(&mut rng);
        let ghost f_c = model_of(sampler, rng);
        let col = sampler.accepted_arrangements();
        proof {
            assert forall|i: int| 0 <= i < col@.len() implies (#[trigger] col@[i]@)
                == sampler.accepted_arr(i) by {
                assert(col.deep_view()[i] == col@[i].deep_view());
                assert(col@[i].deep_view() =~= col@[i]@);
                assert(sampler.accepted_arrs()[i] == sampler.accepted_arr(i));
            }
            assert forall|i: int, y: int|
                0 <= i < col@.len() && 0 <= y < 5 implies pool_of_column(c as int).contains(
                #[trigger] col@[i]@[y],
            ) by {
                let t = sampler.accepted@[i] as int;
                assert(sampler.accepted_arr(i) == sampler.universe@[t]@);
                assert(sampler.universe@[t]@ == uni_spec[t]);
                assert(is_arrangement(uni_spec[t], pool_of_column(c as int), 5));
            }
            assert forall|i: int| 0 <= i < col@.len() implies (#[trigger] col@[i]@).len() == 5 by {
                let t = sampler.accepted@[i] as int;
                assert(sampler.universe@[t]@ == uni_spec[t]);
                assert(is_arrangement(uni_spec[t], pool_of_column(c as int), 5));
            }
        }
        columns.push(col);
        proof {
            let finals2 = finals.push(f_c);
            assert(column_start_rng(finals2, c as int, seed) == column_start_rng(
                finals,
                c as int,
                seed,
            ));
            assert(model_complete(f_c));
            assert forall|cc: int| 0 <= cc < c implies {
                &&& exists|n: nat|
                    finals2[cc] == #[trigger] iterate_model(
                        column_start(cc, sheet_count as int, column_start_rng(finals2, cc, seed)),
                        n,
                    )
                &&& model_complete(finals2[cc])
                &&& finals2[cc].target == sheet_count
            } by {
                assert(finals2[cc] == finals[cc]);
                assert(column_start_rng(finals2, cc, seed) == column_start_rng(finals, cc, seed));
                let n = choose|n: nat|
                    finals[cc] == #[trigger] iterate_model(
                        column_start(cc, sheet_count as int, column_start_rng(finals, cc, seed)),
                        n,
                    );
                assert(finals2[cc] == iterate_model(
                    column_start(cc, sheet_count as int, column_start_rng(finals2, cc, seed)),
                    n,
                ));
            }
            assert forall|i: int, y: int|
                0 <= i < sheet_count && 0 <= y < 5 implies #[trigger] col@[i]@[y]
                    == f_c.universe[f_c.accepted[i] as int][y] by {
                let t = sampler.accepted@[i] as int;
                assert(f_c.accepted[i] == sampler.accepted@[i]);
                assert(f_c.universe[t] == sampler.universe@[t]@);
                assert(col@[i]@ == sampler.accepted_arr(i));
            }
            let n_c = choose|n: nat| f_c == iterate_model(m_start, n);
            assert(finals2[c as int] == iterate_model(
                column_start(c as int, sheet_count as int, column_start_rng(
                    finals2,
                    c as int,
                    seed,
                )),
                n_c,
            ));
            finals = finals2;
        }
        c = c + 1;
    }
    let grids = match assemble_grids(&columns) {
        Ok(g) => g,
        Err(_) => unreached(),
    };
    proof {
        assert forall|i: int, x: int, y: int|
            0 <= i < grids@.len() && 0 <= x < 5 && 0 <= y < 5 && !(x == 2 && y == 2)
                implies pool_of_column(x).contains(#[trigger] grids@[i].cell(x, y)) by {
            let deep = columns.deep_view();
            assert(grids@[i].cell(x, y) == deep[x][i][y]);
            assert(deep[x] == columns@[x].deep_view());
            assert(deep[x][i] == columns@[x]@[i].deep_view());
            assert(columns@[x]@[i].deep_view() =~= columns@[x]@[i]@);
            assert(pool_of_column(x).contains(columns@[x]@[i]@[y]));
        }
        assert(are_column_runs(finals, sheet_count as int, seed));
        assert forall|i: int, x: int, y: int|
            0 <= i < grids@.len() && 0 <= x < 5 && 0 <= y < 5 && !(x == 2 && y == 2)
                implies #[trigger] grids@[i].cell(x, y)
                == finals[x].universe[finals[x].accepted[i] as int][y] by {
            let deep = columns.deep_view();
            assert(grids@[i].cell(x, y) == deep[x][i][y]);
            assert(deep[x] == columns@[x].deep_view());
            assert(deep[x][i] == columns@[x]@[i].deep_view());
            assert(columns@[x]@[i].deep_view() =~= columns@[x]@[i]@);
            assert(columns@[x]@[i]@[y] == finals[x].universe[finals[x].accepted[i] as int][y]);
        }
        assert(grids_show_runs(grids@, finals, sheet_count as int));
    }
    grids
}

} // verus!
