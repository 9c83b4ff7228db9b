//! Minimum-cost assignment (Hungarian algorithm, O(n^3)) used to pair
//! same-name nodes across two designs by geometry.
//!
//! On cost entries in `[0, COST_INF]` the potentials stay within
//! `[-COST_INF, COST_INF]`, no arithmetic overflows, and the result is a
//! permutation of least total cost. Outside that range the arithmetic wraps,
//! as a release build does, and the result is only an assignment of columns
//! in range.

use vstd::prelude::*;

verus! {

/// Cost of pairing two nodes that cannot be paired.
pub const COST_INF: i64 = 2305843009213693951;

/// Square of `d`, saturated at `i64::MAX` (`i64::saturating_pow(d, 2)`).
pub open spec fn sat_square(d: int) -> int {
    if d * d > i64::MAX {
        i64::MAX as int
    } else {
        d * d
    }
}

pub fn saturating_square(d: i64) -> (r: i64)
    ensures
        r == sat_square(d as int),
{
    let w = d as i128;
    assert(w * w >= 0) by (nonlinear_arith);
    assert(w * w <= 0x4000_0000_0000_0000_0000_0000_0000_0000) by (nonlinear_arith)
        requires
            -0x8000_0000_0000_0000 <= w <= 0x7fff_ffff_ffff_ffff,
    ;
    let sq = w * w;
    if sq > i64::MAX as i128 {
        i64::MAX
    } else {
        sq as i64
    }
}

/// A square matrix of size `n`.
pub open spec fn is_square(cost: Seq<Vec<i64>>, n: int) -> bool {
    cost.len() == n && forall|i: int| 0 <= i < n ==> (#[trigger] cost[i])@.len() == n
}

fn filled(n: usize, x: i64) -> (r: Vec<i64>)
    ensures
        r@.len() == n,
        forall|k: int| 0 <= k < n ==> r@[k] == x,
{
    let mut r: Vec<i64> = Vec::new();
    while r.len() < n
        invariant
            r@.len() <= n,
            forall|k: int| 0 <= k < r@.len() ==> r@[k] == x,
        decreases n - r@.len(),
    {
        r.push(x);
    }
    r
}

fn filled_idx(n: usize) -> (r: Vec<usize>)
    ensures
        r@.len() == n,
        forall|k: int| 0 <= k < n ==> r@[k] == 0,
{
    let mut r: Vec<usize> = Vec::new();
    while r.len() < n
        invariant
            r@.len() <= n,
            forall|k: int| 0 <= k < r@.len() ==> r@[k] == 0,
        decreases n - r@.len(),
    {
        r.push(0);
    }
    r
}

fn filled_bool(n: usize) -> (r: Vec<bool>)
    ensures
        r@.len() == n,
        forall|k: int| 0 <= k < n ==> !r@[k],
{
    let mut r: Vec<bool> = Vec::new();
    while r.len() < n
        invariant
            r@.len() <= n,
            forall|k: int| 0 <= k < r@.len() ==> !r@[k],
        decreases n - r@.len(),
    {
        r.push(false);
    }
    r
}

/* ------------------------------ assignments -------------------------------- */

/// Some row of `a` takes column `j`.
pub open spec fn reaches(a: Seq<usize>, n: int, j: int) -> bool {
    exists|r: int| 0 <= r < n && a[r] == j
}

/// `a` assigns each of `n` rows its own column: a bijection of `0..n`.
pub open spec fn is_permutation(a: Seq<usize>, n: int) -> bool {
    &&& a.len() == n
    &&& forall|r: int| 0 <= r < n ==> #[trigger] a[r] < n
    &&& forall|r1: int, r2: int| 0 <= r1 < n && 0 <= r2 < n && r1 != r2 ==> #[trigger] a[r1] != #[trigger] a[r2]
    &&& forall|j: int| 0 <= j < n ==> #[trigger] reaches(a, n, j)
}

/// Some `j` in `0..n` has `f(j) == k`.
spec fn hits(f: spec_fn(int) -> int, n: int, k: int) -> bool {
    exists|j: int| 0 <= j < n && #[trigger] f(j) == k
}

/// `f(0) + ... + f(n - 1)`.
pub open spec fn sum_to(n: int, f: spec_fn(int) -> int) -> int
    decreases n,
{
    if n <= 0 {
        0
    } else {
        sum_to(n - 1, f) + f(n - 1)
    }
}

/// Total cost of an assignment: row `r` takes column `a[r]`.
pub open spec fn assignment_cost(cost: Seq<Vec<i64>>, a: Seq<usize>) -> int {
    sum_to(a.len() as int, |r: int| cost[r]@[a[r] as int] as int)
}

/// Matrices the algorithm computes with exactly: square, with entries in
/// `[0, COST_INF]`.
pub open spec fn bounded_costs(cost: Seq<Vec<i64>>) -> bool {
    &&& is_square(cost, cost.len() as int)
    &&& forall|r: int, j: int|
        0 <= r < cost.len() && 0 <= j < cost.len() ==> 0 <= #[trigger] cost[r]@[j] <= COST_INF
}

proof fn lemma_sum_le(n: int, f: spec_fn(int) -> int, g: spec_fn(int) -> int)
    requires
        forall|k: int| 0 <= k < n ==> #[trigger] f(k) <= g(k),
    ensures
        sum_to(n, f) <= sum_to(n, g),
    decreases n,
{
    if n > 0 {
        lemma_sum_le(n - 1, f, g);
    }
}

proof fn lemma_sum_split(n: int, f: spec_fn(int) -> int, g: spec_fn(int) -> int, h: spec_fn(int) -> int)
    requires
        forall|k: int| 0 <= k < n ==> #[trigger] h(k) == f(k) + g(k),
    ensures
        sum_to(n, h) == sum_to(n, f) + sum_to(n, g),
    decreases n,
{
    if n > 0 {
        lemma_sum_split(n - 1, f, g, h);
    }
}

proof fn lemma_sum_ext(n: int, f: spec_fn(int) -> int, g: spec_fn(int) -> int)
    requires
        forall|k: int| 0 <= k < n ==> #[trigger] f(k) == g(k),
    ensures
        sum_to(n, f) == sum_to(n, g),
    decreases n,
{
    if n > 0 {
        lemma_sum_ext(n - 1, f, g);
    }
}

/// Taking out term `k`: the other terms, renumbered, plus `f(k)`.
proof fn lemma_sum_remove(n: int, f: spec_fn(int) -> int, k: int)
    requires
        0 <= k < n,
    ensures
        sum_to(n, f) == sum_to(n - 1, |r: int| f(if r < k { r } else { r + 1 })) + f(k),
    decreases n,
{
    let g = |r: int| f(if r < k { r } else { r + 1 });
    if k == n - 1 {
        lemma_sum_ext(n - 1, f, g);
    } else {
        lemma_sum_remove(n - 1, f, k);
        assert(g(n - 2) == f(n - 1));
        let g1 = |r: int| f(if r < k { r } else { r + 1 });
        assert(sum_to(n - 1, g) == sum_to(n - 2, g) + g(n - 2));
        lemma_sum_ext(n - 2, g, g1);
    }
}

/// Summing over a permutation of the indices gives the same total.
proof fn lemma_sum_permutation(a: Seq<usize>, n: int, g: spec_fn(int) -> int)
    requires
        is_permutation(a, n),
    ensures
        sum_to(n, |r: int| g(a[r] as int)) == sum_to(n, g),
    decreases n,
{
    if n > 0 {
        let m = n - 1;
        assert(reaches(a, n, m));
        let k = choose|r: int| 0 <= r < n && a[r] == m;
        let b = a.remove(k);
        assert forall|r: int| 0 <= r < m implies b[r] < m by {
            let s = if r < k { r } else { r + 1 };
            assert(b[r] == a[s]);
            assert(a[s] != a[k]);
        }
        assert forall|j: int| 0 <= j < m implies #[trigger] reaches(b, m, j) by {
            assert(reaches(a, n, j));
            let s = choose|r: int| 0 <= r < n && a[r] == j;
            assert(s != k);
            if s < k {
                assert(b[s] == j);
            } else {
                assert(b[s - 1] == j);
            }
        }
        assert forall|r1: int, r2: int| 0 <= r1 < m && 0 <= r2 < m && r1 != r2 implies #[trigger] b[r1] != #[trigger] b[r2] by {
            let s1 = if r1 < k { r1 } else { r1 + 1 };
            let s2 = if r2 < k { r2 } else { r2 + 1 };
            assert(b[r1] == a[s1] && b[r2] == a[s2]);
        }
        lemma_sum_permutation(b, m, g);
        let fa = |r: int| g(a[r] as int);
        let fb = |r: int| g(b[r] as int);
        lemma_sum_remove(n, fa, k);
        lemma_sum_ext(m, |r: int| fa(if r < k { r } else { r + 1 }), fb);
    }
}

/// No injection maps `n` values into fewer than `n`.
proof fn lemma_pigeonhole(f: spec_fn(int) -> int, n: int, m: int)
    requires
        0 <= m,
        0 <= n,
        forall|j: int| 0 <= j < n ==> 0 <= #[trigger] f(j) < m,
        forall|a: int, b: int| 0 <= a < n && 0 <= b < n && a != b ==> #[trigger] f(a) != #[trigger] f(b),
    ensures
        n <= m,
{
    let x = vstd::set_lib::set_int_range(0, n);
    let y = vstd::set_lib::set_int_range(0, m);
    vstd::set_lib::lemma_int_range(0, n);
    vstd::set_lib::lemma_int_range(0, m);
    assert(vstd::relations::injective_on(f, x)) by {
        assert forall|a: int, b: int| x.contains(a) && x.contains(b) && #[trigger] f(a) == #[trigger] f(b) implies a == b by {}
    }
    vstd::set_lib::lemma_map_size(x, x.map(f), f);
    assert(x.map(f).subset_of(y));
    vstd::set_lib::lemma_len_subset(x.map(f), y);
}

/// An injection of `0..n` into itself reaches every value.
proof fn lemma_injection_onto(f: spec_fn(int) -> int, n: int)
    requires
        0 <= n,
        forall|j: int| 0 <= j < n ==> 0 <= #[trigger] f(j) < n,
        forall|a: int, b: int| 0 <= a < n && 0 <= b < n && a != b ==> #[trigger] f(a) != #[trigger] f(b),
    ensures
        forall|k: int| 0 <= k < n ==> #[trigger] hits(f, n, k),
{
    let x = vstd::set_lib::set_int_range(0, n);
    vstd::set_lib::lemma_int_range(0, n);
    assert(vstd::relations::injective_on(f, x)) by {
        assert forall|a: int, b: int| x.contains(a) && x.contains(b) && #[trigger] f(a) == #[trigger] f(b) implies a == b by {}
    }
    vstd::set_lib::lemma_map_size(x, x.map(f), f);
    assert(x.map(f).subset_of(x));
    vstd::set_lib::lemma_subset_equality(x.map(f), x);
    assert forall|k: int| 0 <= k < n implies #[trigger] hits(f, n, k) by {
        assert(x.contains(k));
        assert(x.map(f).contains(k));
    }
}

/* --------------------------- the algorithm's state -------------------------- */

// Inside the algorithm rows and columns are counted from 1; column 0 holds
// the row being added.

/// Entry of row `r`, column `j`, both counted from 1.
spec fn c1(cost: Seq<Vec<i64>>, r: int, j: int) -> int {
    cost[r - 1]@[j - 1] as int
}

/// Reduced cost of row `r`, column `j` under potentials `u`, `v`.
spec fn red(cost: Seq<Vec<i64>>, u: Seq<i64>, v: Seq<i64>, r: int, j: int) -> int {
    c1(cost, r, j) - u[r] - v[j]
}

/// Rows `1..i` are matched, each to its own column `col[r]`, and no other
/// row is.
spec fn matching_ok(n: int, i: int, p: Seq<usize>, col: Seq<int>) -> bool {
    &&& forall|j: int| 1 <= j <= n ==> #[trigger] p[j] < i
    &&& forall|a: int, b: int| 1 <= a <= n && 1 <= b <= n && a != b && p[a] != 0 ==> #[trigger] p[a] != #[trigger] p[b]
    &&& forall|r: int| 1 <= r < i ==> 1 <= #[trigger] col[r] <= n && p[col[r]] == r
}

/// The potentials are feasible, tight on matched pairs, zero on free
/// columns, and within `[0, COST_INF]` (rows) and `[-COST_INF, 0]`
/// (columns).
spec fn potentials_ok(cost: Seq<Vec<i64>>, n: int, u: Seq<i64>, v: Seq<i64>, p: Seq<usize>) -> bool {
    &&& forall|r: int, j: int| 1 <= r <= n && 1 <= j <= n ==> u[r] + v[j] <= #[trigger] c1(cost, r, j)
    &&& forall|j: int| 1 <= j <= n && #[trigger] p[j] != 0 ==> u[p[j] as int] + v[j] == c1(cost, p[j] as int, j)
    &&& forall|j: int| 1 <= j <= n && #[trigger] p[j] == 0 ==> v[j] == 0
    &&& forall|r: int| 1 <= r <= n ==> 0 <= #[trigger] u[r] <= COST_INF
    &&& forall|j: int| 1 <= j <= n ==> -COST_INF <= #[trigger] v[j] <= 0
}

/// Row `r` is the row of a used column.
spec fn tree_row(p: Seq<usize>, used: Seq<bool>, n: int, r: int) -> bool {
    exists|t: int| 0 <= t <= n && #[trigger] used[t] && p[t] as int == r
}

/// The used columns form a tree rooted at column 0: each other used column
/// is matched and reached along a tight pair from an earlier used column.
spec fn tree_ok(
    cost: Seq<Vec<i64>>,
    n: int,
    u: Seq<i64>,
    v: Seq<i64>,
    p: Seq<usize>,
    used: Seq<bool>,
    way: Seq<usize>,
    rank: Seq<int>,
    nused: int,
) -> bool {
    &&& used[0]
    &&& rank[0] == 0
    &&& forall|j: int| 0 <= j <= n && #[trigger] used[j] ==> 0 <= rank[j] < nused
    &&& forall|j: int|
        1 <= j <= n && #[trigger] used[j] ==> {
            &&& p[j] != 0
            &&& way[j] <= n
            &&& used[way[j] as int]
            &&& rank[way[j] as int] < rank[j]
            &&& u[p[way[j] as int] as int] + v[j] == c1(cost, p[way[j] as int] as int, j)
        }
}

/// Each unused column's `minv` is its least reduced cost from the row of a
/// used column, that of column `way`.
spec fn frontier_ok(
    cost: Seq<Vec<i64>>,
    n: int,
    u: Seq<i64>,
    v: Seq<i64>,
    p: Seq<usize>,
    used: Seq<bool>,
    way: Seq<usize>,
    minv: Seq<i64>,
) -> bool {
    forall|j: int|
        1 <= j <= n && !(#[trigger] used[j]) ==> {
            &&& way[j] <= n
            &&& used[way[j] as int]
            &&& minv[j] == red(cost, u, v, p[way[j] as int] as int, j)
            &&& forall|t: int| 0 <= t <= n && #[trigger] used[t] ==> minv[j] <= red(cost, u, v, p[t] as int, j)
        }
}

/// While rows `1..i` are matched (`i <= n`), some column is free.
proof fn lemma_free_column(n: int, i: int, p: Seq<usize>, col: Seq<int>) -> (jf: int)
    requires
        1 <= i <= n,
        p.len() == n + 1,
        matching_ok(n, i, p, col),
    ensures
        1 <= jf <= n,
        p[jf] == 0,
{
    if forall|j: int| 1 <= j <= n ==> #[trigger] p[j] != 0 {
        let f = |k: int| p[k + 1] as int - 1;
        assert forall|k: int| 0 <= k < n implies 0 <= #[trigger] f(k) < i - 1 by {
            assert(p[k + 1] != 0);
            assert(p[k + 1] < i);
        }
        assert forall|a: int, b: int| 0 <= a < n && 0 <= b < n && a != b implies #[trigger] f(a) != #[trigger] f(b) by {
            assert(p[a + 1] != 0);
            assert(p[a + 1] != p[b + 1]);
        }
        lemma_pigeonhole(f, n, i - 1);
        assert(false);
    }
    choose|j: int| 1 <= j <= n && p[j] == 0
}

/// After shifting the potentials by the least reduced cost `delta` of an
/// unused column `j1` (rows of used columns up, used columns down, unused
/// `minv` down), the potentials stay feasible, tight and in range, the
/// tree and frontier stay valid, and `j1` is now reached along a tight
/// pair.
proof fn lemma_after_shift(
    cost: Seq<Vec<i64>>,
    n: int,
    i: int,
    p: Seq<usize>,
    col: Seq<int>,
    used: Seq<bool>,
    way: Seq<usize>,
    rank: Seq<int>,
    nused: int,
    u0: Seq<i64>,
    v0: Seq<i64>,
    minv0: Seq<i64>,
    u: Seq<i64>,
    v: Seq<i64>,
    minv: Seq<i64>,
    delta: int,
    j1: int,
)
    requires
        bounded_costs(cost),
        n == cost.len(),
        1 <= i <= n,
        p.len() == n + 1,
        p[0] == i,
        matching_ok(n, i, p, col),
        potentials_ok(cost, n, u0, v0, p),
        tree_ok(cost, n, u0, v0, p, used, way, rank, nused),
        frontier_ok(cost, n, u0, v0, p, used, way, minv0),
        1 <= j1 <= n,
        !used[j1],
        delta == minv0[j1],
        forall|k: int| 1 <= k <= n && !(#[trigger] used[k]) ==> delta <= minv0[k],
        forall|r: int| 1 <= r <= n ==> #[trigger] u[r] == u0[r] + (if tree_row(p, used, n, r) { delta } else { 0 }),
        forall|j: int| 1 <= j <= n ==> #[trigger] v[j] == v0[j] - (if used[j] { delta } else { 0 }),
        forall|j: int| 1 <= j <= n && !used[j] ==> #[trigger] minv[j] == minv0[j] - delta,
    ensures
        potentials_ok(cost, n, u, v, p),
        tree_ok(cost, n, u, v, p, used, way, rank, nused),
        frontier_ok(cost, n, u, v, p, used, way, minv),
        minv[j1] == 0,
        delta >= 0,
{
    let w1 = way[j1] as int;
    assert(used[w1]);
    let r1 = p[w1] as int;
    assert(1 <= r1 <= n) by {
        if w1 != 0 {
            assert(p[w1] != 0);
        }
    }
    assert(c1(cost, r1, j1) >= u0[r1] + v0[j1]);
    assert(delta >= 0);
    // rows of used columns
    assert forall|t: int| 0 <= t <= n && #[trigger] used[t] implies 1 <= p[t] <= n && tree_row(p, used, n, p[t] as int) by {
        if t != 0 {
            assert(p[t] != 0);
        }
    }
    // a matched unused column's row is not in the tree
    assert forall|j: int| 1 <= j <= n && !used[j] && #[trigger] p[j] != 0 implies !tree_row(p, used, n, p[j] as int) by {
        if tree_row(p, used, n, p[j] as int) {
            let t = choose|t: int| 0 <= t <= n && #[trigger] used[t] && p[t] as int == p[j] as int;
            if t == 0 {
                assert(p[j] < i);
            } else {
                assert(p[t] != p[j]);
            }
        }
    }
    // feasibility
    assert forall|r: int, j: int| 1 <= r <= n && 1 <= j <= n implies u[r] + v[j] <= #[trigger] c1(cost, r, j) by {
        assert(u0[r] + v0[j] <= c1(cost, r, j));
        if tree_row(p, used, n, r) && !used[j] {
            let t = choose|t: int| 0 <= t <= n && #[trigger] used[t] && p[t] as int == r;
            assert(minv0[j] <= red(cost, u0, v0, p[t] as int, j));
        }
    }
    // tight matched pairs
    assert forall|j: int| 1 <= j <= n && #[trigger] p[j] != 0 implies u[p[j] as int] + v[j] == c1(cost, p[j] as int, j) by {
        assert(u0[p[j] as int] + v0[j] == c1(cost, p[j] as int, j));
        assert(1 <= p[j] <= n) by {
            assert(p[j] < i);
        }
        if used[j] {
            assert(tree_row(p, used, n, p[j] as int));
        }
    }
    assert forall|j: int| 1 <= j <= n && #[trigger] p[j] == 0 implies v[j] == 0 by {
        assert(!used[j]);
    }
    let jf = lemma_free_column(n, i, p, col);
    assert forall|r: int| 1 <= r <= n implies 0 <= #[trigger] u[r] <= COST_INF by {
        assert(u[r] + v[jf] <= c1(cost, r, jf));
        assert(v[jf] == 0);
        assert(cost[r - 1]@[jf - 1] <= COST_INF);
    }
    assert forall|j: int| 1 <= j <= n implies -COST_INF <= #[trigger] v[j] <= 0 by {
        if used[j] {
            assert(p[j] != 0);
            assert(1 <= p[j] <= n) by {
                assert(p[j] < i);
            }
            assert(u[p[j] as int] + v[j] == c1(cost, p[j] as int, j));
            assert(u[p[j] as int] <= COST_INF);
            assert(cost[p[j] - 1]@[j - 1] >= 0);
        }
    }
    // the tree's tight pairs
    assert forall|j: int| 1 <= j <= n && #[trigger] used[j] implies u[p[way[j] as int] as int] + v[j] == c1(
        cost,
        p[way[j] as int] as int,
        j,
    ) by {
        let w = way[j] as int;
        assert(used[w]);
        assert(tree_row(p, used, n, p[w] as int));
        assert(1 <= p[w] <= n);
    }
    // the frontier
    assert forall|j: int| 1 <= j <= n && !(#[trigger] used[j]) implies {
        &&& way[j] <= n
        &&& used[way[j] as int]
        &&& minv[j] == red(cost, u, v, p[way[j] as int] as int, j)
        &&& forall|t: int| 0 <= t <= n && #[trigger] used[t] ==> minv[j] <= red(cost, u, v, p[t] as int, j)
    } by {
        let w = way[j] as int;
        assert(used[w]);
        assert(tree_row(p, used, n, p[w] as int));
        assert(1 <= p[w] <= n);
        assert forall|t: int| 0 <= t <= n && #[trigger] used[t] implies minv[j] <= red(cost, u, v, p[t] as int, j) by {
            assert(tree_row(p, used, n, p[t] as int));
            assert(1 <= p[t] <= n);
            assert(minv0[j] <= red(cost, u0, v0, p[t] as int, j));
        }
    }
}

/// The reduced cost a scan computes for row `i0`, column `k` (wrapping).
spec fn scan_cur(cost: Seq<Vec<i64>>, u: Seq<i64>, v: Seq<i64>, i0: int, k: int) -> i64 {
    vstd::wrapping::i64_specs::wrapping_sub(
        vstd::wrapping::i64_specs::wrapping_sub(cost[i0 - 1]@[k - 1], u[i0]),
        v[k],
    )
}

/// One scan from row `i0`, the row of the newly used column `j0`: each
/// unused column's `minv` drops to its reduced cost from `i0` when that is
/// lower (and `way` then records `j0`). Returns the least `minv` of an
/// unused column and that column, or `(i64::MAX, 0)` when none is below
/// `i64::MAX`.
fn scan_row(
    cost: &Vec<Vec<i64>>,
    u: &Vec<i64>,
    v: &Vec<i64>,
    used: &Vec<bool>,
    minv: &mut Vec<i64>,
    way: &mut Vec<usize>,
    i0: usize,
    j0: usize,
) -> (res: (i64, usize))
    requires
        is_square(cost@, cost@.len() as int),
        cost@.len() < usize::MAX,
        1 <= i0 <= cost@.len(),
        j0 <= cost@.len(),
        u@.len() == cost@.len() + 1,
        v@.len() == cost@.len() + 1,
        used@.len() == cost@.len() + 1,
        old(minv)@.len() == cost@.len() + 1,
        old(way)@.len() == cost@.len() + 1,
        forall|q: int| 0 <= q <= cost@.len() ==> #[trigger] old(way)@[q] <= cost@.len(),
    ensures
        final(minv)@.len() == cost@.len() + 1,
        final(way)@.len() == cost@.len() + 1,
        forall|q: int| 0 <= q <= cost@.len() ==> #[trigger] final(way)@[q] <= cost@.len(),
        final(minv)@[0] == old(minv)@[0],
        final(way)@[0] == old(way)@[0],
        forall|k: int|
            1 <= k <= cost@.len() && #[trigger] used@[k] ==> final(minv)@[k] == old(minv)@[k] && final(way)@[k]
                == old(way)@[k],
        forall|k: int|
            1 <= k <= cost@.len() && !(#[trigger] used@[k]) ==> if scan_cur(cost@, u@, v@, i0 as int, k) < old(
                minv,
            )@[k] {
                final(minv)@[k] == scan_cur(cost@, u@, v@, i0 as int, k) && final(way)@[k] == j0
            } else {
                final(minv)@[k] == old(minv)@[k] && final(way)@[k] == old(way)@[k]
            },
        res.1 <= cost@.len(),
        res.1 != 0 ==> !used@[res.1 as int] && res.0 == final(minv)@[res.1 as int],
        res.1 == 0 ==> res.0 == i64::MAX,
        forall|k: int| 1 <= k <= cost@.len() && !(#[trigger] used@[k]) ==> res.0 <= final(minv)@[k],
{
    let n = cost.len();
    let mut delta: i64 = i64::MAX;
    let mut j1: usize = 0;
    let mut j: usize = 1;
    while j <= n
        invariant
            n == cost@.len(),
            n < usize::MAX,
            is_square(cost@, n as int),
            1 <= i0 <= n,
            j0 <= n,
            1 <= j <= n + 1,
            u@.len() == n + 1,
            v@.len() == n + 1,
            used@.len() == n + 1,
            minv@.len() == n + 1,
            way@.len() == n + 1,
            minv@[0] == old(minv)@[0],
            way@[0] == old(way)@[0],
            forall|q: int| 0 <= q <= n ==> #[trigger] old(way)@[q] <= n,
            forall|q: int| 0 <= q <= n ==> #[trigger] way@[q] <= n,
            forall|k: int| j <= k <= n ==> minv@[k] == old(minv)@[k] && way@[k] == old(way)@[k],
            forall|k: int|
                1 <= k < j && #[trigger] used@[k] ==> minv@[k] == old(minv)@[k] && way@[k] == old(way)@[k],
            forall|k: int|
                1 <= k < j && !(#[trigger] used@[k]) ==> if scan_cur(cost@, u@, v@, i0 as int, k) < old(
                    minv,
                )@[k] {
                    minv@[k] == scan_cur(cost@, u@, v@, i0 as int, k) && way@[k] == j0
                } else {
                    minv@[k] == old(minv)@[k] && way@[k] == old(way)@[k]
                },
            j1 < j,
            j1 != 0 ==> !used@[j1 as int] && delta == minv@[j1 as int],
            j1 == 0 ==> delta == i64::MAX,
            forall|k: int| 1 <= k < j && !(#[trigger] used@[k]) ==> delta <= minv@[k],
        decreases n + 1 - j,
    {
        if !used[j] {
            let row = &cost[i0 - 1];
            let cur = row[j - 1].wrapping_sub(u[i0]).wrapping_sub(v[j]);
            if cur < minv[j] {
                minv.set(j, cur);
                way.set(j, j0);
            }
            if minv[j] < delta {
                delta = minv[j];
                j1 = j;
            }
        }
        j += 1;
    }
    (delta, j1)
}

/// After a scan from the row of the newly used column `j0`, the frontier
/// is valid for the used columns including `j0` (on the first scan, when
/// every `minv` was `i64::MAX` and only column 0 is used, as well).
proof fn lemma_after_scan(
    cost: Seq<Vec<i64>>,
    n: int,
    i: int,
    u: Seq<i64>,
    v: Seq<i64>,
    p: Seq<usize>,
    used0: Seq<bool>,
    j0: int,
    way0: Seq<usize>,
    minv0: Seq<i64>,
    way: Seq<usize>,
    minv: Seq<i64>,
)
    requires
        bounded_costs(cost),
        n == cost.len(),
        1 <= i <= n,
        p.len() == n + 1,
        used0.len() == n + 1,
        0 <= j0 <= n,
        !used0[j0],
        1 <= p[j0] <= n,
        potentials_ok(cost, n, u, v, p),
        forall|t: int| 0 <= t <= n && #[trigger] used0[t] ==> 1 <= p[t] <= n,
        (forall|t: int| 0 <= t <= n ==> !(#[trigger] used0[t])) ==> forall|k: int| 1 <= k <= n ==> #[trigger] minv0[k] == i64::MAX,
        (exists|t: int| 0 <= t <= n && #[trigger] used0[t]) ==> frontier_ok(cost, n, u, v, p, used0, way0, minv0),
        forall|k: int|
            1 <= k <= n && !(#[trigger] used0.update(j0, true)[k]) ==> if scan_cur(cost, u, v, p[j0] as int, k) < minv0[k] {
                minv[k] == scan_cur(cost, u, v, p[j0] as int, k) && way[k] == j0
            } else {
                minv[k] == minv0[k] && way[k] == way0[k]
            },
    ensures
        frontier_ok(cost, n, u, v, p, used0.update(j0, true), way, minv),
        forall|k: int| 1 <= k <= n && !(#[trigger] used0.update(j0, true)[k]) ==> 0 <= minv[k] < i64::MAX,
{
    let used = used0.update(j0, true);
    let i0 = p[j0] as int;
    assert forall|k: int| 1 <= k <= n && !(#[trigger] used[k]) implies {
        &&& way[k] <= n
        &&& used[way[k] as int]
        &&& minv[k] == red(cost, u, v, p[way[k] as int] as int, k)
        &&& forall|t: int| 0 <= t <= n && #[trigger] used[t] ==> minv[k] <= red(cost, u, v, p[t] as int, k)
    } && 0 <= minv[k] < i64::MAX by {
        assert(k != j0);
        assert(!used0[k]);
        assert(u[i0] + v[k] <= c1(cost, i0, k));
        assert(0 <= cost[i0 - 1]@[k - 1] <= COST_INF);
        assert(scan_cur(cost, u, v, i0, k) == red(cost, u, v, i0, k));
        if exists|t: int| 0 <= t <= n && #[trigger] used0[t] {
            assert(frontier_ok(cost, n, u, v, p, used0, way0, minv0));
            let w = way0[k] as int;
            assert(used0[w]);
            assert(u[p[w] as int] + v[k] <= c1(cost, p[w] as int, k));
            assert forall|t: int| 0 <= t <= n && #[trigger] used[t] implies minv[k] <= red(cost, u, v, p[t] as int, k) by {
                if t != j0 {
                    assert(used0[t]);
                }
            }
        } else {
            assert(minv0[k] == i64::MAX);
            assert forall|t: int| 0 <= t <= n && #[trigger] used[t] implies minv[k] <= red(cost, u, v, p[t] as int, k) by {
                assert(t == j0);
            }
        }
    }
}

/// Row `r` is the row of a used column below `t`.
spec fn tree_row_below(p: Seq<usize>, used: Seq<bool>, t: int, r: int) -> bool {
    exists|x: int| 0 <= x < t && #[trigger] used[x] && p[x] as int == r
}

/// Used columns have pairwise different rows.
spec fn used_rows_distinct(p: Seq<usize>, used: Seq<bool>, n: int) -> bool {
    forall|a: int, b: int|
        0 <= a <= n && 0 <= b <= n && a != b && #[trigger] used[a] && #[trigger] used[b] ==> p[a] != p[b]
}

/// Shifts the potentials by `delta`: up for the rows of used columns, down
/// for used columns; the `minv` of unused columns goes down (all wrapping).
fn shift_potentials(u: &mut Vec<i64>, v: &mut Vec<i64>, minv: &mut Vec<i64>, used: &Vec<bool>, p: &Vec<usize>, delta: i64, n: usize)
    requires
        n < usize::MAX,
        old(u)@.len() == n + 1,
        old(v)@.len() == n + 1,
        old(minv)@.len() == n + 1,
        used@.len() == n + 1,
        p@.len() == n + 1,
        forall|q: int| 0 <= q <= n ==> #[trigger] p@[q] <= n,
    ensures
        final(u)@.len() == n + 1,
        final(v)@.len() == n + 1,
        final(minv)@.len() == n + 1,
        forall|t: int|
            0 <= t <= n && #[trigger] used@[t] ==> final(v)@[t] == vstd::wrapping::i64_specs::wrapping_sub(old(v)@[t], delta)
                && final(minv)@[t] == old(minv)@[t],
        forall|t: int|
            0 <= t <= n && !(#[trigger] used@[t]) ==> final(v)@[t] == old(v)@[t] && final(minv)@[t]
                == vstd::wrapping::i64_specs::wrapping_sub(old(minv)@[t], delta),
        used_rows_distinct(p@, used@, n as int) ==> forall|r: int|
            0 <= r <= n ==> #[trigger] final(u)@[r] == if tree_row(p@, used@, n as int, r) {
                vstd::wrapping::i64_specs::wrapping_add(old(u)@[r], delta)
            } else {
                old(u)@[r]
            },
{
    let ghost u0 = u@;
    let mut t: usize = 0;
    while t <= n
        invariant
            n < usize::MAX,
            t <= n + 1,
            u@.len() == n + 1,
            v@.len() == n + 1,
            minv@.len() == n + 1,
            used@.len() == n + 1,
            p@.len() == n + 1,
            u0.len() == n + 1,
            forall|q: int| 0 <= q <= n ==> #[trigger] p@[q] <= n,
            forall|x: int|
                0 <= x < t && #[trigger] used@[x] ==> v@[x] == vstd::wrapping::i64_specs::wrapping_sub(old(v)@[x], delta)
                    && minv@[x] == old(minv)@[x],
            forall|x: int|
                0 <= x < t && !(#[trigger] used@[x]) ==> v@[x] == old(v)@[x] && minv@[x]
                    == vstd::wrapping::i64_specs::wrapping_sub(old(minv)@[x], delta),
            forall|x: int| t <= x <= n ==> v@[x] == old(v)@[x] && minv@[x] == old(minv)@[x],
            used_rows_distinct(p@, used@, n as int) ==> forall|r: int|
                0 <= r <= n ==> #[trigger] u@[r] == if tree_row_below(p@, used@, t as int, r) {
                    vstd::wrapping::i64_specs::wrapping_add(u0[r], delta)
                } else {
                    u0[r]
                },
        decreases n + 1 - t,
    {
        let ghost ub = u@;
        if used[t] {
            let pi = p[t];
            let nu = u[pi].wrapping_add(delta);
            u.set(pi, nu);
            let nv = v[t].wrapping_sub(delta);
            v.set(t, nv);
            proof {
                if used_rows_distinct(p@, used@, n as int) {
                    assert(!tree_row_below(p@, used@, t as int, pi as int)) by {
                        if tree_row_below(p@, used@, t as int, pi as int) {
                            let x = choose|x: int| 0 <= x < t && #[trigger] used@[x] && p@[x] as int == pi as int;
                            assert(p@[x] != p@[t as int]);
                        }
                    }
                    assert forall|r: int| 0 <= r <= n implies #[trigger] u@[r] == if tree_row_below(p@, used@, t + 1, r) {
                        vstd::wrapping::i64_specs::wrapping_add(u0[r], delta)
                    } else {
                        u0[r]
                    } by {
                        if r == pi {
                            assert(tree_row_below(p@, used@, t + 1, r));
                        } else {
                            assert(tree_row_below(p@, used@, t + 1, r) == tree_row_below(p@, used@, t as int, r)) by {
                                if tree_row_below(p@, used@, t + 1, r) {
                                    let x = choose|x: int| 0 <= x < t + 1 && #[trigger] used@[x] && p@[x] as int == r;
                                    assert(x != t);
                                }
                            }
                        }
                    }
                }
            }
        } else {
            let nm = minv[t].wrapping_sub(delta);
            minv.set(t, nm);
            proof {
                if used_rows_distinct(p@, used@, n as int) {
                    assert forall|r: int| 0 <= r <= n implies #[trigger] u@[r] == if tree_row_below(p@, used@, t + 1, r) {
                        vstd::wrapping::i64_specs::wrapping_add(u0[r], delta)
                    } else {
                        u0[r]
                    } by {
                        assert(tree_row_below(p@, used@, t + 1, r) == tree_row_below(p@, used@, t as int, r)) by {
                            if tree_row_below(p@, used@, t + 1, r) {
                                let x = choose|x: int| 0 <= x < t + 1 && #[trigger] used@[x] && p@[x] as int == r;
                                assert(x != t);
                            }
                        }
                    }
                }
            }
        }
        t += 1;
    }
    proof {
        if used_rows_distinct(p@, used@, n as int) {
            assert forall|r: int| 0 <= r <= n implies tree_row_below(p@, used@, n + 1, r) == tree_row(p@, used@, n as int, r) by {
                if tree_row(p@, used@, n as int, r) {
                    let x = choose|x: int| 0 <= x <= n && #[trigger] used@[x] && p@[x] as int == r;
                    assert(0 <= x < n + 1);
                }
            }
        }
    }
}

/// What flipping the path needs: the tree of the phase adding row `i`,
/// ending at the free column `jf` reached along a tight pair.
spec fn flip_ready(
    cost: Seq<Vec<i64>>,
    n: int,
    i: int,
    u: Seq<i64>,
    v: Seq<i64>,
    p: Seq<usize>,
    col: Seq<int>,
    used: Seq<bool>,
    way: Seq<usize>,
    rank: Seq<int>,
    nused: int,
    jf: int,
) -> bool {
    &&& bounded_costs(cost)
    &&& n == cost.len()
    &&& 1 <= i <= n
    &&& col.len() == n + 1
    &&& p[0] == i
    &&& matching_ok(n, i, p, col)
    &&& potentials_ok(cost, n, u, v, p)
    &&& tree_ok(cost, n, u, v, p, used, way, rank, nused)
    &&& nused <= n + 1
    &&& 1 <= jf <= n
    &&& !used[jf]
    &&& p[jf] == 0
    &&& way[jf] <= n
    &&& used[way[jf] as int]
    &&& u[p[way[jf] as int] as int] + v[jf] == c1(cost, p[way[jf] as int] as int, jf)
}

/// Flips the alternating path that ends at the free column `jf`: each
/// column on the path back to column 0 takes the row of the column it was
/// reached from (`way`), so the row of column 0 becomes matched.
fn flip_path(
    p: &mut Vec<usize>,
    way: &Vec<usize>,
    jf: usize,
    n: usize,
    Ghost(cost): Ghost<Seq<Vec<i64>>>,
    Ghost(i): Ghost<int>,
    Ghost(u): Ghost<Seq<i64>>,
    Ghost(v): Ghost<Seq<i64>>,
    Ghost(col0): Ghost<Seq<int>>,
    Ghost(used): Ghost<Seq<bool>>,
    Ghost(rank): Ghost<Seq<int>>,
    Ghost(nused): Ghost<int>,
    Ghost(ok): Ghost<bool>,
) -> (col: Ghost<Seq<int>>)
    requires
        n < usize::MAX,
        old(p)@.len() == n + 1,
        way@.len() == n + 1,
        jf <= n,
        forall|q: int| 0 <= q <= n ==> #[trigger] old(p)@[q] <= n,
        forall|q: int| 0 <= q <= n ==> #[trigger] way@[q] <= n,
        ok ==> flip_ready(cost, n as int, i, u, v, old(p)@, col0, used, way@, rank, nused, jf as int),
    ensures
        final(p)@.len() == n + 1,
        forall|q: int| 0 <= q <= n ==> #[trigger] final(p)@[q] <= n,
        ok ==> col@.len() == n + 1 && matching_ok(n as int, i + 1, final(p)@, col@) && potentials_ok(
            cost,
            n as int,
            u,
            v,
            final(p)@,
        ),
{
    let ghost p0 = p@;
    let ghost mut col = col0;
    let mut j0: usize = jf;
    let mut steps: usize = 0;
    while j0 != 0 && steps <= n
        invariant
            n < usize::MAX,
            p@.len() == n + 1,
            way@.len() == n + 1,
            j0 <= n,
            forall|q: int| 0 <= q <= n ==> #[trigger] p@[q] <= n,
            forall|q: int| 0 <= q <= n ==> #[trigger] way@[q] <= n,
            ok ==> flip_ready(cost, n as int, i, u, v, p0, col0, used, way@, rank, nused, jf as int),
            ok ==> col.len() == n + 1,
            ok ==> p@[0] == i,
            ok && steps == 0 ==> j0 == jf && p@ == p0 && col == col0,
            ok && steps >= 1 && j0 != 0 ==> used[j0 as int] && 1 <= rank[j0 as int] && steps + rank[j0 as int] <= nused,
            ok && steps >= 1 ==> forall|x: int|
                1 <= x <= n && #[trigger] p@[x] != p0[x] ==> x == jf || (used[x] && (j0 == 0 || rank[x] > rank[j0 as int])),
            ok ==> forall|a: int, b: int|
                1 <= a <= n && 1 <= b <= n && a != b && p@[a] != 0 && #[trigger] p@[a] == #[trigger] p@[b] ==> a == j0 || b
                    == j0,
            ok ==> forall|x: int| 1 <= x <= n ==> #[trigger] p@[x] < i + 1,
            ok && j0 != 0 ==> forall|x: int| 1 <= x <= n ==> #[trigger] p@[x] < i,
            ok ==> forall|x: int|
                1 <= x <= n && #[trigger] p@[x] != 0 ==> u[p@[x] as int] + v[x] == c1(cost, p@[x] as int, x),
            ok ==> forall|x: int| 1 <= x <= n && #[trigger] p@[x] == 0 ==> v[x] == 0,
            ok ==> forall|r: int| 1 <= r < i ==> 1 <= #[trigger] col[r] <= n && p@[col[r]] == r,
            ok && steps >= 1 && j0 != 0 ==> col[p@[j0 as int] as int] != j0,
            ok && steps >= 1 && j0 != 0 ==> 1 <= p@[j0 as int] < i,
            ok && steps >= 1 && j0 == 0 ==> 1 <= col[i] <= n && p@[col[i]] == i,
        decreases n + 1 - steps,
    {
        let ghost pb = p@;
        let j1 = way[j0];
        let pj = p[j1];
        proof {
            if ok {
                assert(used[j1 as int]);
                if steps >= 1 {
                    assert(rank[j1 as int] < rank[j0 as int]);
                } else {
                    assert(p@ == p0);
                }
                // the column reached from has not been flipped yet
                if j1 != 0 {
                    assert(p@[j1 as int] == p0[j1 as int]) by {
                        if p@[j1 as int] != p0[j1 as int] {
                            assert(steps >= 1);
                        }
                    }
                    assert(p0[j1 as int] != 0);
                    assert(1 <= pj < i);
                } else {
                    assert(pj == i);
                }
                // the tight pair from the row of `j1` to `j0`
                assert(u[pj as int] + v[j0 as int] == c1(cost, pj as int, j0 as int)) by {
                    if steps == 0 {
                    } else {
                        assert(p0[j0 as int] != 0);
                    }
                }
            }
        }
        p.set(j0, pj);
        proof {
            if ok {
                let jo = j0 as int;
                let jn = j1 as int;
                col = col.update(pj as int, jo);
                // only the new current column can repeat a row
                assert forall|a: int, b: int|
                    1 <= a <= n && 1 <= b <= n && a != b && p@[a] != 0 && #[trigger] p@[a] == #[trigger] p@[b] implies a == jn
                        || b == jn by {
                    if a != jo && b != jo {
                        assert(pb[a] == pb[b]);
                    } else if a == jo {
                        if b != jn {
                            assert(pb[b] == pj);
                            if jn == 0 {
                                assert(pb[b] < i);
                            } else {
                                assert(pb[jn] == pj);
                            }
                        }
                    } else {
                        if a != jn {
                            assert(pb[a] == pj);
                            if jn == 0 {
                                assert(pb[a] < i);
                            } else {
                                assert(pb[jn] == pj);
                            }
                        }
                    }
                }
                assert forall|r: int| 1 <= r < i implies 1 <= #[trigger] col[r] <= n && p@[col[r]] == r by {
                    if r != pj {
                        let c0 = col0[r];
                        assert(col[r] != jo) by {
                            if steps == 0 {
                                assert(pb[jf as int] == 0);
                            }
                        }
                    }
                }
                if jn != 0 {
                    assert(col[p@[jn] as int] != jn);
                }
                assert forall|x: int| 1 <= x <= n && #[trigger] p@[x] != p0[x] implies x == jf || (used[x] && (jn == 0 || rank[x] > rank[jn])) by {
                    if x != jo {
                        if steps == 0 {
                            assert(pb[x] == p0[x]);
                        }
                    } else if jo != jf as int {
                        assert(used[jo]);
                    }
                }
            }
        }
        j0 = j1;
        steps += 1;
    }
    proof {
        if ok {
            assert(j0 == 0);
            assert forall|a: int, b: int| 1 <= a <= n && 1 <= b <= n && a != b && p@[a] != 0 implies #[trigger] p@[a] != #[trigger] p@[b] by {}
            assert forall|r: int| 1 <= r < i + 1 implies 1 <= #[trigger] col[r] <= n && p@[col[r]] == r by {}
            assert forall|r: int, j: int| 1 <= r <= n && 1 <= j <= n implies u[r] + v[j] <= #[trigger] c1(cost, r, j) by {
                assert(potentials_ok(cost, n as int, u, v, p0));
            }
        }
    }
    Ghost(col)
}

/// With every row matched (`matching_ok` for all `n` rows) under feasible,
/// tight potentials, the assignment read off the matching (row `r` takes
/// `col[r + 1] - 1`) is a permutation of least total cost.
proof fn lemma_optimal(
    cost: Seq<Vec<i64>>,
    n: int,
    u: Seq<i64>,
    v: Seq<i64>,
    p: Seq<usize>,
    col: Seq<int>,
    assign: Seq<usize>,
)
    requires
        bounded_costs(cost),
        n == cost.len(),
        p.len() == n + 1,
        matching_ok(n, n + 1, p, col),
        potentials_ok(cost, n, u, v, p),
        assign.len() == n,
        forall|r: int| 1 <= r <= n ==> #[trigger] assign[r - 1] == col[r] - 1,
    ensures
        is_permutation(assign, n),
        forall|a: Seq<usize>| is_permutation(a, n) ==> assignment_cost(cost, assign) <= #[trigger] assignment_cost(cost, a),
{
    let f = |k: int| col[k + 1] - 1;
    assert forall|k: int| 0 <= k < n implies 0 <= #[trigger] f(k) < n by {
        assert(1 <= col[k + 1] <= n);
    }
    assert forall|x: int, y: int| 0 <= x < n && 0 <= y < n && x != y implies #[trigger] f(x) != #[trigger] f(y) by {
        assert(p[col[x + 1]] == x + 1);
        assert(p[col[y + 1]] == y + 1);
    }
    lemma_injection_onto(f, n);
    assert forall|r: int| 0 <= r < n implies #[trigger] assign[r] < n by {
        assert(assign[(r + 1) - 1] == col[r + 1] - 1);
    }
    assert forall|r1: int, r2: int| 0 <= r1 < n && 0 <= r2 < n && r1 != r2 implies #[trigger] assign[r1] != #[trigger] assign[r2] by {
        assert(assign[(r1 + 1) - 1] == col[r1 + 1] - 1);
        assert(assign[(r2 + 1) - 1] == col[r2 + 1] - 1);
    }
    assert forall|j: int| 0 <= j < n implies #[trigger] reaches(assign, n, j) by {
        assert(hits(f, n, j));
        let k = choose|k: int| 0 <= k < n && #[trigger] f(k) == j;
        assert(assign[(k + 1) - 1] == col[k + 1] - 1);
    }
    let gu = |r: int| u[r + 1] as int;
    let gv = |j: int| v[j + 1] as int;
    let total = sum_to(n, gu) + sum_to(n, gv);
    // the matching's cost is the potentials' total
    let fm = |r: int| cost[r]@[assign[r] as int] as int;
    let hm = |r: int| gv(assign[r] as int);
    assert forall|r: int| 0 <= r < n implies #[trigger] fm(r) == gu(r) + hm(r) by {
        assert(assign[(r + 1) - 1] == col[r + 1] - 1);
        let j = col[r + 1];
        assert(p[j] == r + 1);
        assert(u[p[j] as int] + v[j] == c1(cost, p[j] as int, j));
    }
    lemma_sum_split(n, gu, hm, fm);
    lemma_sum_permutation(assign, n, gv);
    assert(assignment_cost(cost, assign) == total);
    assert forall|a: Seq<usize>| is_permutation(a, n) implies assignment_cost(cost, assign) <= #[trigger] assignment_cost(cost, a) by {
        let fa = |r: int| cost[r]@[a[r] as int] as int;
        let ha = |r: int| gv(a[r] as int);
        let la = |r: int| gu(r) + ha(r);
        assert forall|r: int| 0 <= r < n implies #[trigger] la(r) <= fa(r) by {
            assert(a[r] < n);
            assert(u[r + 1] + v[a[r] + 1] <= c1(cost, r + 1, a[r] + 1));
        }
        lemma_sum_le(n, la, fa);
        lemma_sum_split(n, gu, ha, la);
        lemma_sum_permutation(a, n, gv);
    }
}

/// Hungarian algorithm (minimum-cost perfect matching) on an `n x n`
/// matrix: for each row, the column assigned to it. On matrices with
/// entries in `[0, COST_INF]`, where the algorithm computes exactly, the
/// result is a permutation of least total cost.
#[verifier::spinoff_prover]
#[verifier::rlimit(60)]
pub fn hungarian_min(cost: &Vec<Vec<i64>>) -> (r: Vec<usize>)
    requires
        is_square(cost@, cost@.len() as int),
        cost@.len() < usize::MAX,
    ensures
        r@.len() == cost@.len(),
        forall|k: int| 0 <= k < r@.len() ==> r@[k] < cost@.len(),
        bounded_costs(cost@) ==> is_permutation(r@, cost@.len() as int),
        bounded_costs(cost@) ==> forall|a: Seq<usize>|
            is_permutation(a, cost@.len() as int) ==> assignment_cost(cost@, r@) <= #[trigger] assignment_cost(cost@, a),
{
    let n = cost.len();
    let ghost ok = bounded_costs(cost@);
    let mut u = filled(n + 1, 0);
    let mut v = filled(n + 1, 0);
    let mut p = filled_idx(n + 1);
    let mut way = filled_idx(n + 1);
    let ghost mut col: Seq<int> = Seq::new((n + 1) as nat, |k: int| 0int);
    let mut i: usize = 1;
    proof {
        if ok {
            assert forall|r: int, j: int| 1 <= r <= n && 1 <= j <= n implies u@[r] + v@[j] <= #[trigger] c1(cost@, r, j) by {
                assert(0 <= cost@[r - 1]@[j - 1]);
            }
        }
    }
    while i <= n
        invariant
            n == cost@.len(),
            is_square(cost@, n as int),
            1 <= i <= n + 1,
            u@.len() == n + 1,
            v@.len() == n + 1,
            p@.len() == n + 1,
            way@.len() == n + 1,
            forall|j: int| 0 <= j <= n ==> #[trigger] p@[j] <= n,
            forall|j: int| 0 <= j <= n ==> #[trigger] way@[j] <= n,
            n < usize::MAX,
            col.len() == n + 1,
            ok == bounded_costs(cost@),
            ok ==> matching_ok(n as int, i as int, p@, col),
            ok ==> potentials_ok(cost@, n as int, u@, v@, p@),
        decreases n + 1 - i,
    {
        p.set(0, i);
        let mut j0: usize = 0;
        let mut minv = filled(n + 1, i64::MAX);
        let mut used = filled_bool(n + 1);
        let ghost mut nused: int = 0;
        let ghost mut rank: Seq<int> = Seq::new((n + 1) as nat, |k: int| 0int);
        proof {
            used@.lemma_all_neg_filter_empty(|b: bool| b);
            if ok {
                assert forall|j: int| 1 <= j <= n implies #[trigger] p@[j] < i by {}
            }
        }
        loop
            invariant_except_break
                p@[j0 as int] != 0,
                !used@[j0 as int],
                nused == used@.filter(|b: bool| b).len(),
                0 <= nused <= n,
                ok && nused > 0 ==> minv@[j0 as int] == 0 && frontier_ok(cost@, n as int, u@, v@, p@, used@, way@, minv@),
                ok && nused == 0 ==> j0 == 0 && (forall|t: int| 0 <= t <= n ==> !(#[trigger] used@[t])) && forall|k: int|
                    1 <= k <= n ==> #[trigger] minv@[k] == i64::MAX,
            invariant
                n == cost@.len(),
                n < usize::MAX,
                is_square(cost@, n as int),
                1 <= i <= n,
                u@.len() == n + 1,
                v@.len() == n + 1,
                p@.len() == n + 1,
                way@.len() == n + 1,
                minv@.len() == n + 1,
                used@.len() == n + 1,
                rank.len() == n + 1,
                j0 <= n,
                forall|j: int| 0 <= j <= n ==> #[trigger] p@[j] <= n,
                forall|j: int| 0 <= j <= n ==> #[trigger] way@[j] <= n,
                p@[0] == i,
                col.len() == n + 1,
                ok == bounded_costs(cost@),
                ok ==> matching_ok(n as int, i as int, p@, col),
                ok ==> potentials_ok(cost@, n as int, u@, v@, p@),
                ok && nused > 0 ==> tree_ok(cost@, n as int, u@, v@, p@, used@, way@, rank, nused),
            ensures
                n == cost@.len(),
                u@.len() == n + 1,
                v@.len() == n + 1,
                p@.len() == n + 1,
                way@.len() == n + 1,
                used@.len() == n + 1,
                rank.len() == n + 1,
                j0 <= n,
                forall|j: int| 0 <= j <= n ==> #[trigger] p@[j] <= n,
                forall|j: int| 0 <= j <= n ==> #[trigger] way@[j] <= n,
                ok ==> flip_ready(cost@, n as int, i as int, u@, v@, p@, col, used@, way@, rank, nused, j0 as int),
            decreases n + 1 - nused,
        {
            proof {
                assert(used@.update(j0 as int, true).filter(|b: bool| b).len() == nused + 1) by {
                    lemma_count_set(used@, j0 as int);
                }
            }
            let ghost used0 = used@;
            let ghost minv0 = minv@;
            let ghost way0 = way@;
            let ghost rank0 = rank;
            let ghost nused0 = nused;
            used.set(j0, true);
            proof {
                rank = rank.update(j0 as int, nused);
                nused = nused + 1;
            }
            let i0 = p[j0];
            proof {
                if ok {
                    assert(1 <= i0 <= n) by {
                        if j0 != 0 {
                            assert(p@[j0 as int] < i);
                        }
                    }
                }
            }
            let (delta, j1a) = scan_row(cost, &u, &v, &used, &mut minv, &mut way, i0, j0);
            let mut j1 = j1a;
            proof {
                if ok {
                    assert(used@ == used0.update(j0 as int, true));
                    assert forall|t: int| 0 <= t <= n && #[trigger] used0[t] implies 1 <= p@[t] <= n by {
                        if t != 0 {
                            assert(p@[t] != 0);
                            assert(p@[t] < i);
                        }
                    }
                    if exists|t: int| 0 <= t <= n && #[trigger] used0[t] {
                        let t = choose|t: int| 0 <= t <= n && #[trigger] used0[t];
                        assert(nused0 > 0) by {
                            if nused0 == 0 {
                                assert(!used0[t]);
                            }
                        }
                    }
                    lemma_after_scan(cost@, n as int, i as int, u@, v@, p@, used0, j0 as int, way0, minv0, way@, minv@);
                    // the tree now includes `j0`
                    assert forall|j: int| 0 <= j <= n && #[trigger] used@[j] implies 0 <= rank[j] < nused by {
                        if j != j0 {
                            assert(used0[j]);
                        }
                    }
                    assert forall|j: int| 1 <= j <= n && #[trigger] used@[j] implies {
                        &&& p@[j] != 0
                        &&& way@[j] <= n
                        &&& used@[way@[j] as int]
                        &&& rank[way@[j] as int] < rank[j]
                        &&& u@[p@[way@[j] as int] as int] + v@[j] == c1(cost@, p@[way@[j] as int] as int, j)
                    } by {
                        assert(way@[j] == way0[j]);
                        if j == j0 {
                            assert(nused0 > 0);
                            assert(!used0[j]);
                            assert(used0[way0[j] as int]);
                        } else {
                            assert(used0[j]);
                            assert(nused0 > 0) by {
                                if nused0 == 0 {
                                    assert(!used0[j]);
                                }
                            }
                        }
                    }
                    if j0 != 0 {
                        assert(nused0 > 0);
                        assert(used0[0]);
                    }
                    assert(tree_ok(cost@, n as int, u@, v@, p@, used@, way@, rank, nused));
                    // some column is still free, and so unused
                    let jf = lemma_free_column(n as int, i as int, p@, col);
                    assert(!used@[jf]);
                    assert(minv@[jf] < i64::MAX);
                    assert(j1 != 0);
                }
            }
            if j1 == 0 {
                // No column improved on the initial bound: take the first free
                // column reached from the current one, if any is left.
                let mut k: usize = 1;
                while k <= n && used[k]
                    invariant
                        n < usize::MAX,
                        1 <= k <= n + 1,
                        used@.len() == n + 1,
                    decreases n + 1 - k,
                {
                    k += 1;
                }
                if k <= n {
                    j1 = k;
                    way.set(k, j0);
                }
            }
            let ghost u0 = u@;
            let ghost v0 = v@;
            let ghost minv1 = minv@;
            proof {
                if ok {
                    let w = way@[j1 as int] as int;
                    assert(minv@[j1 as int] == red(cost@, u@, v@, p@[w] as int, j1 as int));
                    assert(1 <= p@[w] <= n) by {
                        if w != 0 {
                            assert(p@[w] != 0);
                            assert(p@[w] < i);
                        }
                    }
                    assert(0 <= cost@[p@[w] - 1]@[j1 - 1] <= COST_INF);
                    assert(0 <= delta <= 2 * COST_INF);
                    assert(used_rows_distinct(p@, used@, n as int)) by {
                        assert forall|a: int, b: int|
                            0 <= a <= n && 0 <= b <= n && a != b && #[trigger] used@[a] && #[trigger] used@[b] implies p@[a] != p@[b] by {
                            if a != 0 && b != 0 {
                                assert(p@[a] != 0);
                            } else if a == 0 {
                                assert(p@[b] < i);
                            } else {
                                assert(p@[a] < i);
                            }
                        }
                    }
                }
            }
            shift_potentials(&mut u, &mut v, &mut minv, &used, &p, delta, n);
            proof {
                if ok {
                    assert forall|r: int| 1 <= r <= n implies #[trigger] u@[r] == u0[r] + (if tree_row(p@, used@, n as int, r) {
                        delta as int
                    } else {
                        0
                    }) by {
                        assert(0 <= u0[r] <= COST_INF);
                    }
                    assert forall|j: int| 1 <= j <= n implies #[trigger] v@[j] == v0[j] - (if used@[j] {
                        delta as int
                    } else {
                        0
                    }) by {
                        assert(-COST_INF <= v0[j] <= 0);
                    }
                    assert forall|j: int| 1 <= j <= n && !used@[j] implies #[trigger] minv@[j] == minv1[j] - delta by {
                        assert(0 <= minv1[j] < i64::MAX);
                    }
                    lemma_after_shift(
                        cost@,
                        n as int,
                        i as int,
                        p@,
                        col,
                        used@,
                        way@,
                        rank,
                        nused,
                        u0,
                        v0,
                        minv1,
                        u@,
                        v@,
                        minv@,
                        delta as int,
                        j1 as int,
                    );
                }
            }
            if j1 == 0 {
                // every column is in use: nothing left to augment
                break;
            }
            proof {
                lemma_count_set(used@, j1 as int);
            }
            j0 = j1;
            if p[j0] == 0 {
                proof {
                    if ok {
                        let w = way@[j0 as int] as int;
                        assert(minv@[j0 as int] == red(cost@, u@, v@, p@[w] as int, j0 as int));
                    }
                }
                break;
            }
        }
        let Ghost(col2) = flip_path(
            &mut p,
            &way,
            j0,
            n,
            Ghost(cost@),
            Ghost(i as int),
            Ghost(u@),
            Ghost(v@),
            Ghost(col),
            Ghost(used@),
            Ghost(rank),
            Ghost(nused),
            Ghost(ok),
        );
        proof {
            if ok {
                col = col2;
            }
        }
        i += 1;
    }
    let mut assign = filled_idx(n);
    let mut j: usize = 1;
    while j <= n
        invariant
            n < usize::MAX,
            n == cost@.len(),
            1 <= j <= n + 1,
            p@.len() == n + 1,
            assign@.len() == n,
            col.len() == n + 1,
            forall|q: int| 0 <= q <= n ==> #[trigger] p@[q] <= n,
            forall|k: int| 0 <= k < n ==> #[trigger] assign@[k] < n,
            ok ==> matching_ok(n as int, n + 1, p@, col),
            ok ==> forall|r: int| 1 <= r <= n && #[trigger] col[r] < j ==> assign@[r - 1] == col[r] - 1,
        decreases n + 1 - j,
    {
        if p[j] != 0 {
            let ghost before = assign@;
            assign.set(p[j] - 1, j - 1);
            proof {
                if ok {
                    let rj = p@[j as int] as int;
                    assert(col[rj] == j) by {
                        assert(1 <= rj <= n);
                        assert(p@[col[rj]] == rj);
                        if col[rj] != j {
                            assert(p@[col[rj]] != p@[j as int]);
                        }
                    }
                    assert forall|r: int| 1 <= r <= n && #[trigger] col[r] < j + 1 implies assign@[r - 1] == col[r] - 1 by {
                        if r != rj {
                            assert(col[r] != j) by {
                                if col[r] == j {
                                    assert(p@[col[r]] == r);
                                }
                            }
                        }
                    }
                }
            }
        } else {
            proof {
                if ok {
                    assert forall|r: int| 1 <= r <= n && #[trigger] col[r] < j + 1 implies assign@[r - 1] == col[r] - 1 by {
                        assert(col[r] != j) by {
                            if col[r] == j {
                                assert(p@[col[r]] == r);
                            }
                        }
                    }
                }
            }
        }
        j += 1;
    }
    proof {
        if ok {
            assert forall|r: int| 1 <= r <= n implies #[trigger] assign@[r - 1] == col[r] - 1 by {
                assert(col[r] < n + 1);
            }
            lemma_optimal(cost@, n as int, u@, v@, p@, col, assign@);
        }
    }
    assign
}

proof fn lemma_count_set(s: Seq<bool>, k: int)
    requires
        0 <= k < s.len(),
        !s[k],
    ensures
        s.update(k, true).filter(|b: bool| b).len() == s.filter(|b: bool| b).len() + 1,
        s.filter(|b: bool| b).len() < s.len(),
    decreases s.len(),
{
    let f = |b: bool| b;
    let t = s.update(k, true);
    if k == s.len() - 1 {
        assert(t.drop_last() =~= s.drop_last());
        assert(s.filter(f) == s.drop_last().filter(f)) by {
            assert(s =~= s.drop_last().push(s.last()));
            s.drop_last().lemma_filter_push(s.last(), f);
        }
        assert(t.filter(f) == t.drop_last().filter(f).push(true)) by {
            assert(t =~= t.drop_last().push(t.last()));
            t.drop_last().lemma_filter_push(t.last(), f);
        }
        s.drop_last().lemma_filter_len(f);
    } else {
        lemma_count_set(s.drop_last(), k);
        assert(t.drop_last() =~= s.drop_last().update(k, true));
        assert(s =~= s.drop_last().push(s.last()));
        assert(t =~= t.drop_last().push(t.last()));
        s.drop_last().lemma_filter_push(s.last(), f);
        t.drop_last().lemma_filter_push(t.last(), f);
    }
}

} // verus!
