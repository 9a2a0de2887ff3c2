//! Exact integer linear algebra: row spaces, solvability, and tests that
//! certify either answer with a witness.
//!
//! A row `v` lies in the row space of `rows` when some rational combination
//! of the rows equals `v`; with integers that is `Σ cᵢ·rowsᵢ = d·v` for some
//! `d ≠ 0`. A system `rows·x = b` is solvable over the rationals when
//! `rows·x = den·b` for an integer vector `x` and some `den > 0`.

use vstd::prelude::*;

verus! {

/// The integers of a machine vector.
pub open spec fn ints(v: Seq<i128>) -> Seq<int> {
    v.map_values(|x: i128| x as int)
}

/// The integers of a machine matrix.
pub open spec fn int_rows(m: Seq<Vec<i128>>) -> Seq<Seq<int>> {
    m.map_values(|r: Vec<i128>| ints(r@))
}

/// `Σ_{j<n} u[j]·v[j]`.
pub open spec fn dot(u: Seq<int>, v: Seq<int>, n: int) -> int
    decreases n,
{
    if n <= 0 {
        0
    } else {
        dot(u, v, n - 1) + u[n - 1] * v[n - 1]
    }
}

/// Column `j` of the combination `Σ_{i<m} c[i]·rows[i]`.
pub open spec fn combo(rows: Seq<Seq<int>>, c: Seq<int>, j: int, m: int) -> int
    decreases m,
{
    if m <= 0 {
        0
    } else {
        combo(rows, c, j, m - 1) + c[m - 1] * rows[m - 1][j]
    }
}

/// `Σ_{j<n} combo(rows, c, j, m)·y[j]`.
pub open spec fn combo_dot(rows: Seq<Seq<int>>, c: Seq<int>, y: Seq<int>, n: int, m: int) -> int
    decreases n,
{
    if n <= 0 {
        0
    } else {
        combo_dot(rows, c, y, n - 1, m) + combo(rows, c, n - 1, m) * y[n - 1]
    }
}

/// `Σ_{i<m} c[i]·dot(rows[i], y, n)`.
pub open spec fn weighted_dots(rows: Seq<Seq<int>>, c: Seq<int>, y: Seq<int>, n: int, m: int) -> int
    decreases m,
{
    if m <= 0 {
        0
    } else {
        weighted_dots(rows, c, y, n, m - 1) + c[m - 1] * dot(rows[m - 1], y, n)
    }
}

/// `v` (over its first `n` columns) lies in the rational row space of `rows`.
pub open spec fn in_span(rows: Seq<Seq<int>>, v: Seq<int>, n: int) -> bool {
    exists|c: Seq<int>, d: int|
        #![trigger in_span_witness(rows, v, n, c, d)]
        in_span_witness(rows, v, n, c, d)
}

/// `Σ c[i]·rows[i] = d·v` on the first `n` columns, with `d ≠ 0`.
pub open spec fn in_span_witness(rows: Seq<Seq<int>>, v: Seq<int>, n: int, c: Seq<int>, d: int) -> bool {
    &&& d != 0
    &&& c.len() == rows.len()
    &&& forall|j: int| 0 <= j < n ==> #[trigger] combo(rows, c, j, rows.len() as int) == d * v[j]
}

/// `rows·x = b` has a rational solution.
pub open spec fn solvable(rows: Seq<Seq<int>>, b: Seq<int>, n: int) -> bool {
    exists|x: Seq<int>, den: int|
        #![trigger solution_witness(rows, b, n, x, den)]
        solution_witness(rows, b, n, x, den)
}

/// `rows·x = den·b` with `den > 0`: the rational solution `x / den`.
pub open spec fn solution_witness(rows: Seq<Seq<int>>, b: Seq<int>, n: int, x: Seq<int>, den: int) -> bool {
    &&& den > 0
    &&& x.len() == n
    &&& forall|i: int| 0 <= i < rows.len() ==> #[trigger] dot(rows[i], x, n) == den * b[i]
}

// ---------------------------------------------------------------------------
// Lemmas
// ---------------------------------------------------------------------------

proof fn lemma_weighted_dots_empty(rows: Seq<Seq<int>>, c: Seq<int>, y: Seq<int>, n: int, m: int)
    requires
        n <= 0,
    ensures
        weighted_dots(rows, c, y, n, m) == 0,
    decreases m,
{
    if m > 0 {
        lemma_weighted_dots_empty(rows, c, y, n, m - 1);
        assert(c[m - 1] * dot(rows[m - 1], y, n) == 0);
    }
}

proof fn lemma_weighted_dots_step(rows: Seq<Seq<int>>, c: Seq<int>, y: Seq<int>, n: int, m: int)
    requires
        n >= 1,
    ensures
        weighted_dots(rows, c, y, n, m) == weighted_dots(rows, c, y, n - 1, m) + y[n - 1] * combo(rows, c, n - 1, m),
    decreases m,
{
    if m > 0 {
        lemma_weighted_dots_step(rows, c, y, n, m - 1);
        let ci = c[m - 1];
        let a = dot(rows[m - 1], y, n - 1);
        let r = rows[m - 1][n - 1];
        let yy = y[n - 1];
        let k = combo(rows, c, n - 1, m - 1);
        assert(dot(rows[m - 1], y, n) == a + r * yy);
        assert(ci * (a + r * yy) == ci * a + yy * (ci * r)) by (nonlinear_arith);
        assert(yy * k + yy * (ci * r) == yy * (k + ci * r)) by (nonlinear_arith);
    }
}

/// Reordering a double sum: `(Σ cᵢ·rowsᵢ)·y = Σ cᵢ·(rowsᵢ·y)`.
pub proof fn lemma_combo_dot_swap(rows: Seq<Seq<int>>, c: Seq<int>, y: Seq<int>, n: int, m: int)
    ensures
        combo_dot(rows, c, y, n, m) == weighted_dots(rows, c, y, n, m),
    decreases n,
{
    if n <= 0 {
        lemma_weighted_dots_empty(rows, c, y, n, m);
    } else {
        lemma_combo_dot_swap(rows, c, y, n - 1, m);
        lemma_weighted_dots_step(rows, c, y, n, m);
        let k = combo(rows, c, n - 1, m);
        let yy = y[n - 1];
        assert(k * yy == yy * k) by (nonlinear_arith);
    }
}

pub(crate) proof fn lemma_weighted_dots_of_zero_rows(rows: Seq<Seq<int>>, c: Seq<int>, y: Seq<int>, n: int, m: int)
    requires
        m <= rows.len(),
        forall|i: int| 0 <= i < m ==> #[trigger] dot(rows[i], y, n) == 0,
    ensures
        weighted_dots(rows, c, y, n, m) == 0,
    decreases m,
{
    if m > 0 {
        lemma_weighted_dots_of_zero_rows(rows, c, y, n, m - 1);
        assert(dot(rows[m - 1], y, n) == 0);
        assert(c[m - 1] * 0 == 0);
    }
}

pub(crate) proof fn lemma_combo_dot_scaled(rows: Seq<Seq<int>>, c: Seq<int>, y: Seq<int>, v: Seq<int>, d: int, n: int, m: int)
    requires
        forall|j: int| 0 <= j < n ==> #[trigger] combo(rows, c, j, m) == d * v[j],
    ensures
        combo_dot(rows, c, y, n, m) == d * dot(v, y, n),
    decreases n,
{
    if n > 0 {
        lemma_combo_dot_scaled(rows, c, y, v, d, n - 1, m);
        assert(combo(rows, c, n - 1, m) == d * v[n - 1]);
        let w = dot(v, y, n - 1);
        let vv = v[n - 1];
        let yy = y[n - 1];
        assert(d * w + (d * vv) * yy == d * (w + vv * yy)) by (nonlinear_arith);
    }
}

/// A vector orthogonal to every row but not to `v` shows that `v` is outside the row space.
pub proof fn lemma_null_vector_excludes(rows: Seq<Seq<int>>, v: Seq<int>, y: Seq<int>, n: int)
    requires
        forall|i: int| 0 <= i < rows.len() ==> #[trigger] dot(rows[i], y, n) == 0,
        dot(v, y, n) != 0,
    ensures
        !in_span(rows, v, n),
{
    if in_span(rows, v, n) {
        let (c, d) = choose|c: Seq<int>, d: int| in_span_witness(rows, v, n, c, d);
        let m = rows.len() as int;
        lemma_combo_dot_swap(rows, c, y, n, m);
        lemma_weighted_dots_of_zero_rows(rows, c, y, n, m);
        lemma_combo_dot_scaled(rows, c, y, v, d, n, m);
        let t = dot(v, y, n);
        assert(d * t != 0) by (nonlinear_arith)
            requires
                d != 0,
                t != 0,
        ;
    }
}

/// `x` to the power `k`.
pub open spec fn power(x: int, k: nat) -> int
    decreases k,
{
    if k == 0 {
        1
    } else {
        x * power(x, (k - 1) as nat)
    }
}

pub proof fn lemma_power_grows(x: int, k1: nat, k2: nat)
    requires
        1 <= x,
        k1 <= k2,
    ensures
        1 <= power(x, k1) <= power(x, k2),
    decreases k2,
{
    if k2 > 0 {
        if k1 == k2 {
            lemma_power_grows(x, (k1 - 1) as nat, (k1 - 1) as nat);
        } else {
            lemma_power_grows(x, k1, (k2 - 1) as nat);
        }
        let q = power(x, (k2 - 1) as nat);
        assert(q <= x * q) by (nonlinear_arith)
            requires
                1 <= x,
                1 <= q,
        ;
    }
}

pub proof fn lemma_power_base_grows(x: int, y: int, k: nat)
    requires
        1 <= x <= y,
    ensures
        power(x, k) <= power(y, k),
    decreases k,
{
    if k > 0 {
        lemma_power_base_grows(x, y, (k - 1) as nat);
        lemma_power_grows(x, 0, (k - 1) as nat);
        let a = power(x, (k - 1) as nat);
        let b = power(y, (k - 1) as nat);
        assert(x * a <= y * b) by (nonlinear_arith)
            requires
                1 <= x <= y,
                1 <= a <= b,
        ;
    }
}

/// `|x| ≤ a` and `|y| ≤ b` give `|x·y| ≤ a·b`.
pub proof fn lemma_mul_within(x: int, y: int, a: int, b: int)
    requires
        -a <= x <= a,
        -b <= y <= b,
    ensures
        -(a * b) <= x * y <= a * b,
{
    assert(-(a * b) <= x * y <= a * b) by (nonlinear_arith)
        requires
            -a <= x <= a,
            -b <= y <= b,
    ;
}

/// Partial sums of `dot(u, y, ·)` with entries within `a` and `b` stay within `k·a·b`.
pub proof fn lemma_dot_within(u: Seq<int>, y: Seq<int>, n: int, a: int, b: int, k: int)
    requires
        0 <= k <= n,
        0 <= a,
        0 <= b,
        forall|j: int| 0 <= j < n ==> -a <= #[trigger] u[j] <= a,
        forall|j: int| 0 <= j < n ==> -b <= #[trigger] y[j] <= b,
    ensures
        -(k * (a * b)) <= dot(u, y, k) <= k * (a * b),
    decreases k,
{
    if k > 0 {
        lemma_dot_within(u, y, n, a, b, k - 1);
        lemma_mul_within(u[k - 1], y[k - 1], a, b);
        assert((k - 1) * (a * b) + a * b == k * (a * b)) by (nonlinear_arith);
    }
}

/// Partial sums of `combo(rows, c, j, ·)` with entries within `a` and `b` stay within `k·a·b`.
pub proof fn lemma_combo_within(rows: Seq<Seq<int>>, c: Seq<int>, j: int, m: int, a: int, b: int, k: int)
    requires
        0 <= k <= m,
        0 <= a,
        0 <= b,
        forall|i: int| 0 <= i < m ==> -a <= #[trigger] c[i] <= a,
        forall|i: int| 0 <= i < m ==> -b <= #[trigger] rows[i][j] <= b,
    ensures
        -(k * (a * b)) <= combo(rows, c, j, k) <= k * (a * b),
    decreases k,
{
    if k > 0 {
        lemma_combo_within(rows, c, j, m, a, b, k - 1);
        lemma_mul_within(c[k - 1], rows[k - 1][j], a, b);
        assert((k - 1) * (a * b) + a * b == k * (a * b)) by (nonlinear_arith);
    }
}

/// A column holding row `t` of an identity matrix picks coefficient `t`.
pub proof fn lemma_combo_identity_column(rows: Seq<Seq<int>>, c: Seq<int>, col: int, t: int, k: int)
    requires
        0 <= k,
        forall|i: int| 0 <= i < k ==> #[trigger] rows[i][col] == if i == t { 1int } else { 0int },
    ensures
        combo(rows, c, col, k) == if 0 <= t < k { c[t] } else { 0 },
    decreases k,
{
    if k > 0 {
        lemma_combo_identity_column(rows, c, col, t, k - 1);
        let r = rows[k - 1][col];
        let x = c[k - 1];
        assert(x * r == if k - 1 == t { x } else { 0 }) by (nonlinear_arith)
            requires
                r == if k - 1 == t { 1int } else { 0int },
        ;
    }
}

/// `combo` reads only column `j` of the rows and the first `k` coefficients.
pub proof fn lemma_combo_agrees(rows1: Seq<Seq<int>>, rows2: Seq<Seq<int>>, c1: Seq<int>, c2: Seq<int>, j1: int, j2: int, k: int)
    requires
        0 <= k,
        forall|i: int| 0 <= i < k ==> #[trigger] rows1[i][j1] == rows2[i][j2],
        forall|i: int| 0 <= i < k ==> #[trigger] c1[i] == c2[i],
    ensures
        combo(rows1, c1, j1, k) == combo(rows2, c2, j2, k),
    decreases k,
{
    if k > 0 {
        lemma_combo_agrees(rows1, rows2, c1, c2, j1, j2, k - 1);
        assert(rows1[k - 1][j1] == rows2[k - 1][j2]);
        assert(c1[k - 1] == c2[k - 1]);
    }
}

/// `u = d·v + Σ cᵢ·rowsᵢ` on the first `n` columns gives
/// `u·y = d·(v·y) + (Σ cᵢ·rowsᵢ)·y`.
pub proof fn lemma_dot_split(u: Seq<int>, v: Seq<int>, rows: Seq<Seq<int>>, c: Seq<int>, d: int, y: Seq<int>, n: int, m: int)
    requires
        0 <= n,
        forall|j: int| 0 <= j < n ==> #[trigger] u[j] == d * v[j] + combo(rows, c, j, m),
    ensures
        dot(u, y, n) == d * dot(v, y, n) + combo_dot(rows, c, y, n, m),
    decreases n,
{
    if n > 0 {
        lemma_dot_split(u, v, rows, c, d, y, n - 1, m);
        let a = dot(v, y, n - 1);
        let w = combo_dot(rows, c, y, n - 1, m);
        let vv = v[n - 1];
        let cc = combo(rows, c, n - 1, m);
        let yy = y[n - 1];
        assert(u[n - 1] == d * vv + cc);
        assert((d * a + w) + (d * vv + cc) * yy == d * (a + vv * yy) + (w + cc * yy)) by (nonlinear_arith);
    }
}

/// A dot product whose terms vanish outside positions `a` and `b`.
pub proof fn lemma_dot_support(u: Seq<int>, y: Seq<int>, n: int, a: int, b: int, k: int)
    requires
        0 <= k <= n,
        forall|j: int| 0 <= j < n && j != a && j != b ==> #[trigger] (u[j] * y[j]) == 0,
    ensures
        dot(u, y, k) == (if 0 <= a < k { u[a] * y[a] } else { 0 }) + (if 0 <= b < k && b != a { u[b] * y[b] } else { 0 }),
    decreases k,
{
    if k > 0 {
        lemma_dot_support(u, y, n, a, b, k - 1);
        let x = k - 1;
        if x != a && x != b {
            assert(u[x] * y[x] == 0);
        }
    }
}

// ---------------------------------------------------------------------------
// Exact arithmetic with overflow detection
// ---------------------------------------------------------------------------

/// Whether `x` fits in an `i128`.
pub open spec fn in_i128(x: int) -> bool {
    i128::MIN <= x <= i128::MAX
}

/// Every product and running sum of `dot(u, v, n)` fits in an `i128`.
pub open spec fn dot_fits(u: Seq<int>, v: Seq<int>, n: int) -> bool {
    forall|j: int| 0 <= j < n ==> in_i128(#[trigger] (u[j] * v[j])) && in_i128(dot(u, v, j + 1))
}

/// Every product and running sum of column `j` of `Σ c[i]·rows[i]` fits in an `i128`.
pub open spec fn combo_fits(rows: Seq<Seq<int>>, c: Seq<int>, j: int, m: int) -> bool {
    forall|i: int| 0 <= i < m ==> in_i128(#[trigger] (c[i] * rows[i][j])) && in_i128(combo(rows, c, j, i + 1))
}

/// Every product and difference of `s·a − t·b` fits in an `i128`.
pub open spec fn scale_sub_fits(a: Seq<i128>, s: int, b: Seq<i128>, t: int) -> bool {
    forall|j: int| 0 <= j < a.len() ==> in_i128(#[trigger] (s * a[j])) && in_i128(t * b[j]) && in_i128(s * a[j] - t * b[j])
}

/// `Σ_{j<n} u[j]·v[j]`, or `None` when an intermediate value leaves `i128`.
pub fn dot_exec(u: &Vec<i128>, v: &Vec<i128>, n: usize) -> (r: Option<i128>)
    requires
        n <= u.len(),
        n <= v.len(),
    ensures
        r is Some <==> dot_fits(ints(u@), ints(v@), n as int),
        r matches Some(x) ==> x == dot(ints(u@), ints(v@), n as int),
{
    let ghost iu = ints(u@);
    let ghost iv = ints(v@);
    let mut total: i128 = 0;
    let mut j: usize = 0;
    while j < n
        invariant
            j <= n,
            n <= u.len(),
            n <= v.len(),
            iu == ints(u@),
            iv == ints(v@),
            total == dot(iu, iv, j as int),
            dot_fits(iu, iv, j as int),
        decreases n - j,
    {
        assert(iu[j as int] == u[j as int] && iv[j as int] == v[j as int]);
        let product = match u[j].checked_mul(v[j]) {
            Some(p) => p,
            None => {
                assert(!in_i128(iu[j as int] * iv[j as int]));
                return None;
            },
        };
        total = match total.checked_add(product) {
            Some(t) => t,
            None => {
                assert(!in_i128(dot(iu, iv, j as int + 1)));
                return None;
            },
        };
        j = j + 1;
    }
    Some(total)
}

/// Column `j` of `Σ c[i]·rows[i]`, or `None` on overflow.
pub fn combo_exec(rows: &Vec<Vec<i128>>, c: &Vec<i128>, j: usize) -> (r: Option<i128>)
    requires
        c.len() == rows.len(),
        forall|i: int| 0 <= i < rows.len() ==> j < (#[trigger] rows[i]).len(),
    ensures
        r is Some <==> combo_fits(int_rows(rows@), ints(c@), j as int, rows.len() as int),
        r matches Some(x) ==> x == combo(int_rows(rows@), ints(c@), j as int, rows.len() as int),
{
    let ghost ir = int_rows(rows@);
    let ghost ic = ints(c@);
    let mut total: i128 = 0;
    let mut i: usize = 0;
    while i < rows.len()
        invariant
            i <= rows.len(),
            c.len() == rows.len(),
            ir == int_rows(rows@),
            ic == ints(c@),
            forall|k: int| 0 <= k < rows.len() ==> j < (#[trigger] rows[k]).len(),
            total == combo(ir, ic, j as int, i as int),
            combo_fits(ir, ic, j as int, i as int),
        decreases rows.len() - i,
    {
        assert(ir[i as int][j as int] == rows[i as int][j as int] as int);
        assert(ic[i as int] == c[i as int]);
        let product = match c[i].checked_mul(rows[i][j]) {
            Some(p) => p,
            None => {
                assert(!in_i128(ic[i as int] * ir[i as int][j as int]));
                return None;
            },
        };
        total = match total.checked_add(product) {
            Some(t) => t,
            None => {
                assert(!in_i128(combo(ir, ic, j as int, i as int + 1)));
                return None;
            },
        };
        i = i + 1;
    }
    Some(total)
}

/// Whether `Σ c[i]·rows[i] = d·v` on the first `n` columns with `d ≠ 0`,
/// where every column's sum and `d·v[j]` fit in an `i128`.
pub open spec fn in_span_checked(rows: Seq<Vec<i128>>, c: Seq<i128>, d: int, v: Seq<i128>, n: int) -> bool {
    &&& d != 0
    &&& c.len() == rows.len()
    &&& forall|j: int| 0 <= j < n ==> #[trigger] column_checked(rows, c, d, v, j)
}

/// Column `j` of `Σ c[i]·rows[i]` equals `d·v[j]`, every value fitting in an `i128`.
pub open spec fn column_checked(rows: Seq<Vec<i128>>, c: Seq<i128>, d: int, v: Seq<i128>, j: int) -> bool {
    combo_fits(int_rows(rows), ints(c), j, rows.len() as int) && in_i128(d * v[j]) && combo(
        int_rows(rows),
        ints(c),
        j,
        rows.len() as int,
    ) == d * v[j]
}

/// Row `i` times `x` equals `den·b[i]`, every value fitting in an `i128`.
pub open spec fn row_checked(rows: Seq<Vec<i128>>, x: Seq<i128>, den: int, b: Seq<i128>, n: int, i: int) -> bool {
    dot_fits(ints(rows[i]@), ints(x), n) && in_i128(den * b[i]) && dot(ints(rows[i]@), ints(x), n) == den * b[i]
}

/// Checks `Σ c[i]·rows[i] = d·v` on the first `n` columns with `d ≠ 0`.
pub fn check_in_span(rows: &Vec<Vec<i128>>, c: &Vec<i128>, d: i128, v: &Vec<i128>, n: usize) -> (r: bool)
    requires
        n <= v.len(),
        forall|i: int| 0 <= i < rows.len() ==> n <= (#[trigger] rows[i]).len(),
    ensures
        r == in_span_checked(rows@, c@, d as int, v@, n as int),
        r ==> in_span(int_rows(rows@), ints(v@), n as int),
{
    if d == 0 || c.len() != rows.len() {
        return false;
    }
    let mut j: usize = 0;
    while j < n
        invariant
            j <= n,
            n <= v.len(),
            d != 0,
            c.len() == rows.len(),
            forall|i: int| 0 <= i < rows.len() ==> n <= (#[trigger] rows[i]).len(),
            forall|k: int| 0 <= k < j ==> #[trigger] column_checked(rows@, c@, d as int, v@, k),
        decreases n - j,
    {
        let ghost vj = v@[j as int];
        let total = match combo_exec(rows, c, j) {
            Some(t) => t,
            None => {
                assert(!combo_fits(int_rows(rows@), ints(c@), j as int, rows.len() as int));
                assert(!column_checked(rows@, c@, d as int, v@, j as int));
                return false;
            },
        };
        let scaled = match d.checked_mul(v[j]) {
            Some(s) => s,
            None => {
                assert(!in_i128(d * v@[j as int]));
                assert(!column_checked(rows@, c@, d as int, v@, j as int));
                return false;
            },
        };
        if total != scaled {
            assert(combo(int_rows(rows@), ints(c@), j as int, rows.len() as int) != d * vj);
            assert(!column_checked(rows@, c@, d as int, v@, j as int));
            return false;
        }
        assert(column_checked(rows@, c@, d as int, v@, j as int));
        j = j + 1;
    }
    proof {
        let ir = int_rows(rows@);
        assert(ir.len() == rows.len());
        assert forall|k: int| 0 <= k < n implies #[trigger] combo(ir, ints(c@), k, rows.len() as int) == d * ints(v@)[k] by {
            assert(ints(v@)[k] == v@[k]);
            assert(column_checked(rows@, c@, d as int, v@, k));
        }
        assert(in_span_witness(ir, ints(v@), n as int, ints(c@), d as int));
    }
    true
}

/// Whether `y` is orthogonal to every row and not to `v` on the first `n`
/// columns, every product and sum fitting in an `i128`.
pub open spec fn not_in_span_checked(rows: Seq<Vec<i128>>, y: Seq<i128>, v: Seq<i128>, n: int) -> bool {
    &&& forall|i: int|
        #![trigger rows[i]]
        0 <= i < rows.len() ==> dot_fits(ints(rows[i]@), ints(y), n) && dot(ints(rows[i]@), ints(y), n) == 0
    &&& dot_fits(ints(v), ints(y), n)
    &&& dot(ints(v), ints(y), n) != 0
}

/// Checks that `y` is orthogonal to every row and not to `v`.
pub fn check_not_in_span(rows: &Vec<Vec<i128>>, y: &Vec<i128>, v: &Vec<i128>, n: usize) -> (r: bool)
    requires
        n <= v.len(),
        n <= y.len(),
        forall|i: int| 0 <= i < rows.len() ==> n <= (#[trigger] rows[i]).len(),
    ensures
        r == not_in_span_checked(rows@, y@, v@, n as int),
        r ==> !in_span(int_rows(rows@), ints(v@), n as int),
{
    let ghost ir = int_rows(rows@);
    let mut i: usize = 0;
    while i < rows.len()
        invariant
            i <= rows.len(),
            n <= y.len(),
            ir == int_rows(rows@),
            forall|k: int| 0 <= k < rows.len() ==> n <= (#[trigger] rows[k]).len(),
            forall|k: int|
                #![trigger rows@[k]]
                0 <= k < i ==> dot_fits(ints(rows@[k]@), ints(y@), n as int) && dot(ints(rows@[k]@), ints(y@), n as int)
                    == 0,
        decreases rows.len() - i,
    {
        match dot_exec(&rows[i], y, n) {
            Some(0) => {},
            _ => {
                return false;
            },
        }
        i = i + 1;
    }
    match dot_exec(v, y, n) {
        Some(t) => {
            if t == 0 {
                return false;
            }
        },
        None => {
            return false;
        },
    }
    proof {
        assert forall|k: int| 0 <= k < ir.len() implies #[trigger] dot(ir[k], ints(y@), n as int) == 0 by {
            assert(ir[k] == ints(rows@[k]@));
            assert(dot_fits(ints(rows@[k]@), ints(y@), n as int));
        }
        lemma_null_vector_excludes(ir, ints(v@), ints(y@), n as int);
    }
    true
}

/// Whether `rows·x = den·b` with `den > 0`, every product and sum fitting in
/// an `i128`.
pub open spec fn solution_checked(rows: Seq<Vec<i128>>, x: Seq<i128>, den: int, b: Seq<i128>, n: int) -> bool {
    &&& den > 0
    &&& forall|i: int| 0 <= i < rows.len() ==> #[trigger] row_checked(rows, x, den, b, n, i)
}

/// Checks `rows·x = den·b` with `den > 0`.
pub fn check_solution(rows: &Vec<Vec<i128>>, x: &Vec<i128>, den: i128, b: &Vec<i128>, n: usize) -> (r: bool)
    requires
        x.len() == n,
        b.len() == rows.len(),
        forall|i: int| 0 <= i < rows.len() ==> n <= (#[trigger] rows[i]).len(),
    ensures
        r == solution_checked(rows@, x@, den as int, b@, n as int),
        r ==> solution_witness(int_rows(rows@), ints(b@), n as int, ints(x@), den as int),
        r ==> solvable(int_rows(rows@), ints(b@), n as int),
{
    if den <= 0 {
        return false;
    }
    let ghost ir = int_rows(rows@);
    let mut i: usize = 0;
    while i < rows.len()
        invariant
            i <= rows.len(),
            x.len() == n,
            b.len() == rows.len(),
            den > 0,
            ir == int_rows(rows@),
            forall|k: int| 0 <= k < rows.len() ==> n <= (#[trigger] rows[k]).len(),
            forall|k: int| 0 <= k < i ==> #[trigger] row_checked(rows@, x@, den as int, b@, n as int, k),
        decreases rows.len() - i,
    {
        let ghost ri = rows@[i as int];
        let total = match dot_exec(&rows[i], x, n) {
            Some(t) => t,
            None => {
                assert(!dot_fits(ints(ri@), ints(x@), n as int));
                assert(!row_checked(rows@, x@, den as int, b@, n as int, i as int));
                return false;
            },
        };
        let scaled = match den.checked_mul(b[i]) {
            Some(s) => s,
            None => {
                assert(!in_i128(den * b@[i as int]));
                assert(!row_checked(rows@, x@, den as int, b@, n as int, i as int));
                return false;
            },
        };
        if total != scaled {
            assert(dot(ints(ri@), ints(x@), n as int) != den * b@[i as int]);
            assert(!row_checked(rows@, x@, den as int, b@, n as int, i as int));
            return false;
        }
        assert(row_checked(rows@, x@, den as int, b@, n as int, i as int));
        i = i + 1;
    }
    proof {
        assert forall|k: int| 0 <= k < ir.len() implies #[trigger] dot(ir[k], ints(x@), n as int) == den * ints(b@)[k] by {
            assert(ir[k] == ints(rows@[k]@));
            assert(row_checked(rows@, x@, den as int, b@, n as int, k));
            assert(ints(b@)[k] == b@[k]);
        }
        assert(solution_witness(ir, ints(b@), n as int, ints(x@), den as int));
    }
    true
}

// ---------------------------------------------------------------------------
// Elimination
// ---------------------------------------------------------------------------

/// `s·a − t·b` entry by entry, or `None` on overflow.
pub fn scale_sub(a: &Vec<i128>, s: i128, b: &Vec<i128>, t: i128) -> (r: Option<Vec<i128>>)
    requires
        a.len() == b.len(),
    ensures
        r is Some <==> scale_sub_fits(a@, s as int, b@, t as int),
        r matches Some(v) ==> v.len() == a.len() && forall|j: int| 0 <= j < a.len() ==> #[trigger] v[j] == s * a[j] - t * b[j],
{
    let mut out: Vec<i128> = Vec::new();
    let mut j: usize = 0;
    while j < a.len()
        invariant
            j <= a.len(),
            a.len() == b.len(),
            out.len() == j,
            forall|k: int| 0 <= k < j ==> #[trigger] out[k] == s * a[k] - t * b[k],
            forall|k: int| 0 <= k < j ==> in_i128(#[trigger] (s * a@[k])) && in_i128(t * b@[k]) && in_i128(s * a@[k] - t * b@[k]),
        decreases a.len() - j,
    {
        let left = match s.checked_mul(a[j]) {
            Some(x) => x,
            None => {
                assert(!in_i128(s * a@[j as int]));
                return None;
            },
        };
        let right = match t.checked_mul(b[j]) {
            Some(x) => x,
            None => {
                assert(!in_i128(t * b@[j as int]));
                return None;
            },
        };
        let entry = match left.checked_sub(right) {
            Some(x) => x,
            None => {
                assert(!in_i128(s * a@[j as int] - t * b@[j as int]));
                return None;
            },
        };
        out.push(entry);
        j = j + 1;
    }
    Some(out)
}

/// All rows have width `w`.
pub open spec fn rectangular(m: Seq<Vec<i128>>, w: int) -> bool {
    forall|i: int| 0 <= i < m.len() ==> (#[trigger] m[i]).len() == w
}

/// Every entry of `m` has magnitude at most `b`.
pub open spec fn entries_within(m: Seq<Vec<i128>>, b: int) -> bool {
    forall|i: int, j: int| 0 <= i < m.len() && 0 <= j < m[i]@.len() ==> -b <= #[trigger] m[i]@[j] <= b
}

/// A bound on every entry after `k` pivot rounds of [`reduce`] on entries of
/// magnitude at most `b`: a round replaces a row by `p·row − f·pivot_row`, so a
/// bound `g` becomes `2·g²`.
pub open spec fn growth(b: int, k: nat) -> int
    decreases k,
{
    if k == 0 {
        b
    } else {
        let g = growth(b, (k - 1) as nat);
        2 * g * g
    }
}

/// The number of pivot rounds [`reduce`] can make: one per column, at most one per row.
pub open spec fn max_rounds(m: Seq<Vec<i128>>, cols: int) -> nat {
    if cols <= m.len() {
        cols as nat
    } else {
        m.len()
    }
}

/// The entries of `m` are small enough that no round of [`reduce`] on the
/// first `cols` columns can leave `i128`.
pub open spec fn reduce_fits(m: Seq<Vec<i128>>, cols: int) -> bool {
    exists|b: int|
        #![trigger entries_within(m, b)]
        1 <= b && entries_within(m, b) && growth(b, max_rounds(m, cols)) <= i128::MAX
}

proof fn lemma_growth_step(b: int, k: nat)
    requires
        1 <= b,
    ensures
        1 <= growth(b, k) <= growth(b, k + 1),
    decreases k,
{
    if k > 0 {
        lemma_growth_step(b, (k - 1) as nat);
    }
    let g = growth(b, k);
    assert(growth(b, k + 1) == 2 * g * g);
    assert(1 <= g ==> g <= 2 * g * g) by (nonlinear_arith);
}

pub proof fn lemma_growth_mono(b: int, k1: nat, k2: nat)
    requires
        1 <= b,
        k1 <= k2,
    ensures
        1 <= growth(b, k1) <= growth(b, k2),
    decreases k2 - k1,
{
    lemma_growth_step(b, k1);
    if k1 < k2 {
        lemma_growth_mono(b, k1 + 1, k2);
    }
}

/// `|x| ≤ g`, `|y| ≤ g`, `|u| ≤ g`, `|v| ≤ g` give `|x·y − u·v| ≤ 2·g²`, each
/// product within `g²`.
proof fn lemma_scale_sub_bound(x: int, y: int, u: int, v: int, g: int)
    requires
        -g <= x <= g,
        -g <= y <= g,
        -g <= u <= g,
        -g <= v <= g,
    ensures
        g * g <= 2 * g * g,
        -(g * g) <= x * y <= g * g,
        -(g * g) <= u * v <= g * g,
        -(2 * g * g) <= x * y - u * v <= 2 * g * g,
{
    assert(-(g * g) <= x * y <= g * g) by (nonlinear_arith)
        requires
            -g <= x <= g,
            -g <= y <= g,
    ;
    assert(-(g * g) <= u * v <= g * g) by (nonlinear_arith)
        requires
            -g <= u <= g,
            -g <= v <= g,
    ;
    assert(2 * g * g == g * g + g * g) by (nonlinear_arith);
    assert(0 <= g * g) by (nonlinear_arith);
}

/// The pivots are `(k, cₖ)` for each `k < p.len()`, with columns strictly
/// increasing and below `col`.
pub open spec fn pivot_list(p: Seq<(usize, usize)>, col: int) -> bool {
    &&& forall|k: int| 0 <= k < p.len() ==> (#[trigger] p[k]).0 == k && p[k].1 < col
    &&& forall|k1: int, k2: int| 0 <= k1 < k2 < p.len() ==> (#[trigger] p[k1]).1 < (#[trigger] p[k2]).1
}

/// Each pivot's column is zero in every row but the pivot's own, where it is not.
pub open spec fn pivots_cleared(m: Seq<Vec<i128>>, p: Seq<(usize, usize)>) -> bool {
    forall|k: int, a: int| 0 <= k < p.len() && 0 <= a < m.len() ==> (#[trigger] m[a]@[p[k].1 as int] == 0 <==> a != k)
}

/// Rows from `rank` on are zero in the first `col` columns.
pub open spec fn below_rank_zero(m: Seq<Vec<i128>>, rank: int, col: int) -> bool {
    forall|a: int, c: int| rank <= a < m.len() && 0 <= c < col ==> #[trigger] m[a]@[c] == 0
}

/// Every row of `now` is the combination of the rows of `orig` with the
/// matching coefficients of `c`.
pub open spec fn rows_combine(orig: Seq<Vec<i128>>, now: Seq<Vec<i128>>, c: Seq<Seq<int>>) -> bool {
    &&& c.len() == now.len()
    &&& forall|i: int, j: int|
        0 <= i < now.len() && 0 <= j < now[i]@.len() ==> #[trigger] now[i]@[j] == combo(int_rows(orig), c[i], j, orig.len() as int)
}

/// The unit coefficients picking row `i`.
pub open spec fn unit(n: int, i: int) -> Seq<int> {
    Seq::new(n as nat, |k: int| if k == i { 1int } else { 0int })
}

/// `s·c1 − t·c2`, coefficient by coefficient.
pub open spec fn scale_sub_coeffs(s: int, c1: Seq<int>, t: int, c2: Seq<int>) -> Seq<int> {
    Seq::new(c1.len(), |k: int| s * c1[k] - t * c2[k])
}

proof fn lemma_combo_unit(rows: Seq<Seq<int>>, n: int, i: int, j: int, k: int)
    requires
        0 <= k <= n,
    ensures
        combo(rows, unit(n, i), j, k) == if 0 <= i < k { rows[i][j] } else { 0 },
    decreases k,
{
    if k > 0 {
        lemma_combo_unit(rows, n, i, j, k - 1);
        let u = unit(n, i);
        assert(u[k - 1] == if k - 1 == i { 1int } else { 0int });
        assert(u[k - 1] * rows[k - 1][j] == if k - 1 == i { rows[k - 1][j] } else { 0 }) by (nonlinear_arith)
            requires
                u[k - 1] == if k - 1 == i { 1int } else { 0int },
        ;
    }
}

pub(crate) proof fn lemma_combo_scale_sub(rows: Seq<Seq<int>>, s: int, c1: Seq<int>, t: int, c2: Seq<int>, j: int, k: int)
    requires
        0 <= k <= c1.len(),
    ensures
        combo(rows, scale_sub_coeffs(s, c1, t, c2), j, k) == s * combo(rows, c1, j, k) - t * combo(rows, c2, j, k),
    decreases k,
{
    if k > 0 {
        lemma_combo_scale_sub(rows, s, c1, t, c2, j, k - 1);
        let a = combo(rows, c1, j, k - 1);
        let b = combo(rows, c2, j, k - 1);
        let x = c1[k - 1];
        let y = c2[k - 1];
        let r = rows[k - 1][j];
        assert(scale_sub_coeffs(s, c1, t, c2)[k - 1] == s * x - t * y);
        assert((s * x - t * y) * r == s * (x * r) - t * (y * r)) by (nonlinear_arith);
        assert(s * (a + x * r) == s * a + s * (x * r)) by (nonlinear_arith);
        assert(t * (b + y * r) == t * b + t * (y * r)) by (nonlinear_arith);
    }
}

/// Each row `k` of `orig`, scaled by `sc[k] ≠ 0`, is the combination of the
/// rows of `now` with coefficients `d[k]`, on the first `w` columns.
pub open spec fn rows_recover(orig: Seq<Vec<i128>>, now: Seq<Vec<i128>>, d: Seq<Seq<int>>, sc: Seq<int>, w: int) -> bool {
    &&& d.len() == orig.len()
    &&& sc.len() == orig.len()
    &&& forall|k: int| 0 <= k < orig.len() ==> #[trigger] in_span_witness(int_rows(now), ints(orig[k]@), w, d[k], sc[k])
}

/// The coefficients `d` over rows `x` after row `i` became `p·rowᵢ − f·rowᵣ`,
/// so that the same combination comes out `p` times over.
pub open spec fn after_elimination(d: Seq<int>, i: int, r: int, p: int, f: int) -> Seq<int> {
    Seq::new(
        d.len(),
        |x: int|
            if x == i {
                d[i]
            } else if x == r {
                p * d[r] + f * d[i]
            } else {
                p * d[x]
            },
    )
}

/// The coefficients `d` with positions `a` and `b` exchanged.
pub open spec fn swapped(d: Seq<int>, a: int, b: int) -> Seq<int> {
    d.update(a, d[b]).update(b, d[a])
}

proof fn lemma_combo_after_elimination(
    rows: Seq<Seq<int>>,
    rows2: Seq<Seq<int>>,
    d: Seq<int>,
    i: int,
    r: int,
    p: int,
    f: int,
    j: int,
    k: int,
)
    requires
        0 <= k <= rows.len(),
        d.len() == rows.len(),
        0 <= i < rows.len(),
        0 <= r < rows.len(),
        i != r,
        forall|x: int| 0 <= x < rows.len() && x != i ==> #[trigger] rows2[x][j] == rows[x][j],
        rows2[i][j] == p * rows[i][j] - f * rows[r][j],
    ensures
        combo(rows2, after_elimination(d, i, r, p, f), j, k) == p * combo(rows, d, j, k) + (if i < k {
            -(f * d[i] * rows[r][j])
        } else {
            0
        }) + (if r < k {
            f * d[i] * rows[r][j]
        } else {
            0
        }),
    decreases k,
{
    if k > 0 {
        lemma_combo_after_elimination(rows, rows2, d, i, r, p, f, j, k - 1);
        let x = k - 1;
        let e = after_elimination(d, i, r, p, f);
        let di = d[i];
        let dr = d[r];
        let dx = d[x];
        let ri = rows[i][j];
        let rr = rows[r][j];
        let rx = rows[x][j];
        if x == i {
            assert(e[x] * rows2[x][j] == p * (dx * rx) - f * di * rr) by (nonlinear_arith)
                requires
                    e[x] == di,
                    dx == di,
                    rx == ri,
                    rows2[x][j] == p * ri - f * rr,
            ;
        } else if x == r {
            assert(e[x] * rows2[x][j] == p * (dx * rx) + f * di * rr) by (nonlinear_arith)
                requires
                    e[x] == p * dr + f * di,
                    dx == dr,
                    rx == rr,
                    rows2[x][j] == rx,
            ;
        } else {
            assert(e[x] * rows2[x][j] == p * (dx * rx)) by (nonlinear_arith)
                requires
                    e[x] == p * dx,
                    rows2[x][j] == rx,
            ;
        }
        let c0 = combo(rows, d, j, k - 1);
        assert(p * c0 + p * (dx * rx) == p * (c0 + dx * rx)) by (nonlinear_arith);
    }
}

proof fn lemma_combo_swapped(rows: Seq<Seq<int>>, rows2: Seq<Seq<int>>, d: Seq<int>, a: int, b: int, j: int, k: int)
    requires
        0 <= k <= rows.len(),
        d.len() == rows.len(),
        0 <= a < rows.len(),
        0 <= b < rows.len(),
        a != b,
        forall|x: int| 0 <= x < rows.len() && x != a && x != b ==> #[trigger] rows2[x][j] == rows[x][j],
        rows2[a][j] == rows[b][j],
        rows2[b][j] == rows[a][j],
    ensures
        combo(rows2, swapped(d, a, b), j, k) == combo(rows, d, j, k) + (if a < k {
            d[b] * rows[b][j] - d[a] * rows[a][j]
        } else {
            0
        }) + (if b < k {
            d[a] * rows[a][j] - d[b] * rows[b][j]
        } else {
            0
        }),
    decreases k,
{
    if k > 0 {
        lemma_combo_swapped(rows, rows2, d, a, b, j, k - 1);
        let x = k - 1;
        assert(swapped(d, a, b)[x] == if x == a { d[b] } else if x == b { d[a] } else { d[x] });
    }
}

proof fn lemma_scaled_zero(p: int, x: int)
    requires
        p != 0,
    ensures
        p * x == 0 <==> x == 0,
{
    if x != 0 {
        assert(p * x != 0) by (nonlinear_arith)
            requires
                p != 0,
                x != 0,
        ;
    }
}

/// Gauss–Jordan elimination on the first `cols` columns without division:
/// each pivot row keeps its pivot, every other row is cleared in the pivot's
/// column. Returns the (row, column) pivots in order, or `None` when an entry
/// would leave `i128`, which small enough entries rule out. The rows keep
/// their row space: each result row combines the input rows, and each input
/// row is a rational combination of the result rows.
pub fn reduce(m: &mut Vec<Vec<i128>>, cols: usize, w: usize) -> (r: Option<Vec<(usize, usize)>>)
    requires
        cols <= w,
        rectangular(old(m)@, w as int),
    ensures
        final(m).len() == old(m).len(),
        rectangular(final(m)@, w as int),
        r matches Some(p) ==> forall|k: int| 0 <= k < p.len() ==> (#[trigger] p[k]).0 < final(m).len() && p[k].1 < cols,
        r matches Some(p) ==> pivot_list(p@, cols as int) && pivots_cleared(final(m)@, p@) && below_rank_zero(
            final(m)@,
            p.len() as int,
            cols as int,
        ),
        reduce_fits(old(m)@, cols as int) ==> r is Some,
        exists|c: Seq<Seq<int>>| #[trigger] rows_combine(old(m)@, final(m)@, c),
        forall|k: int| 0 <= k < old(m).len() ==> in_span(int_rows(final(m)@), ints((#[trigger] old(m)@[k])@), w as int),
{
    let ghost b = choose|b: int| 1 <= b && entries_within(old(m)@, b) && growth(b, max_rounds(old(m)@, cols as int)) <= i128::MAX;
    reduce_within(m, cols, w, Ghost(b))
}

/// [`reduce`] with the entry bound `b0` it is run under.
pub(crate) fn reduce_within(m: &mut Vec<Vec<i128>>, cols: usize, w: usize, Ghost(b0): Ghost<int>) -> (r: Option<Vec<(usize, usize)>>)
    requires
        cols <= w,
        rectangular(old(m)@, w as int),
    ensures
        final(m).len() == old(m).len(),
        rectangular(final(m)@, w as int),
        r matches Some(p) ==> forall|k: int| 0 <= k < p.len() ==> (#[trigger] p[k]).0 < final(m).len() && p[k].1 < cols,
        r matches Some(p) ==> pivot_list(p@, cols as int) && pivots_cleared(final(m)@, p@) && below_rank_zero(
            final(m)@,
            p.len() as int,
            cols as int,
        ),
        1 <= b0 && entries_within(old(m)@, b0) && growth(b0, max_rounds(old(m)@, cols as int)) <= i128::MAX ==> r is Some
            && entries_within(final(m)@, growth(b0, max_rounds(old(m)@, cols as int))),
        exists|c: Seq<Seq<int>>| #[trigger] rows_combine(old(m)@, final(m)@, c),
        forall|k: int| 0 <= k < old(m).len() ==> in_span(int_rows(final(m)@), ints((#[trigger] old(m)@[k])@), w as int),
{
    let mut pivots: Vec<(usize, usize)> = Vec::new();
    let mut rank: usize = 0;
    let mut col: usize = 0;
    let ghost len = m.len();
    let ghost rounds = max_rounds(old(m)@, cols as int);
    let ghost fits = 1 <= b0 && entries_within(old(m)@, b0) && growth(b0, rounds) <= i128::MAX;

    let ghost orig = int_rows(old(m)@);
    let ghost mut coeffs: Seq<Seq<int>> = Seq::new(len as nat, |i: int| unit(len as int, i));
    let ghost mut back: Seq<Seq<int>> = Seq::new(len as nat, |i: int| unit(len as int, i));
    let ghost mut scales: Seq<int> = Seq::new(len as nat, |i: int| 1int);
    proof {
        assert forall|i: int, j: int| 0 <= i < m@.len() && 0 <= j < m@[i]@.len() implies #[trigger] m@[i]@[j] == combo(
            orig,
            coeffs[i],
            j,
            len as int,
        ) by {
            lemma_combo_unit(orig, len as int, i, j, len as int);
            assert(orig[i] == ints(m@[i]@));
        }
        assert forall|k: int| 0 <= k < len implies #[trigger] in_span_witness(int_rows(m@), ints(old(m)@[k]@), w as int, back[k], scales[k]) by {
            assert forall|j: int| 0 <= j < w implies #[trigger] combo(int_rows(m@), back[k], j, int_rows(m@).len() as int) == scales[k] * ints(old(m)@[k]@)[j] by {
                lemma_combo_unit(orig, len as int, k, j, len as int);
            }
        }
    }
    while col < cols
        invariant
            col <= cols,
            cols <= w,
            m.len() == len,
            len == old(m).len(),
            rank <= len,
            rank <= col,
            rectangular(m@, w as int),
            forall|k: int| 0 <= k < pivots.len() ==> (#[trigger] pivots[k]).0 < len && pivots[k].1 < cols,
            fits == (1 <= b0 && entries_within(old(m)@, b0) && growth(b0, rounds) <= i128::MAX),
            rounds == max_rounds(old(m)@, cols as int),
            fits ==> 1 <= b0 && growth(b0, rounds) <= i128::MAX,
            fits ==> entries_within(m@, growth(b0, rank as nat)),
            pivots.len() == rank,
            pivot_list(pivots@, col as int),
            pivots_cleared(m@, pivots@),
            below_rank_zero(m@, rank as int, col as int),
            orig == int_rows(old(m)@),
            rows_combine(old(m)@, m@, coeffs),
            forall|i: int| 0 <= i < len ==> (#[trigger] coeffs[i]).len() == len,
            rows_recover(old(m)@, m@, back, scales, w as int),
        decreases cols - col,
    {
        let mut p: usize = rank;
        while p < m.len() && m[p][col] == 0
            invariant
                rank <= p <= m.len(),
                forall|q: int| rank <= q < p ==> #[trigger] m@[q]@[col as int] == 0,
                m.len() == len,
                len == old(m).len(),
                col < cols,
                cols <= w,
                rectangular(m@, w as int),
            decreases m.len() - p,
        {
            p = p + 1;
        }
        if p < m.len() {
            let ghost g = growth(b0, rank as nat);
            let ghost g2 = growth(b0, (rank + 1) as nat);
            proof {
                if fits {
                    lemma_growth_mono(b0, rank as nat, (rank + 1) as nat);
                    lemma_growth_mono(b0, (rank + 1) as nat, rounds);
                }
            }
            let ghost before = m@;
            let row_p = m[p].clone();
            let row_rank = m[rank].clone();
            m.set(rank, row_p);
            m.set(p, row_rank);
            proof {
                if p != rank {
                    let bb = back;
                    back = Seq::new(len as nat, |k: int| swapped(bb[k], rank as int, p as int));
                    assert forall|k: int| 0 <= k < len implies #[trigger] in_span_witness(int_rows(m@), ints(old(m)@[k]@), w as int, back[k], scales[k]) by {
                        assert(in_span_witness(int_rows(before), ints(old(m)@[k]@), w as int, bb[k], scales[k]));
                        assert forall|j: int| 0 <= j < w implies #[trigger] combo(int_rows(m@), back[k], j, int_rows(m@).len() as int) == scales[k] * ints(old(m)@[k]@)[j] by {
                            assert(int_rows(m@)[rank as int] == int_rows(before)[p as int]);
                            assert(int_rows(m@)[p as int] == int_rows(before)[rank as int]);
                            assert forall|x: int| 0 <= x < len && x != rank && x != p implies #[trigger] int_rows(m@)[x][j] == int_rows(before)[x][j] by {
                                assert(m@[x] == before[x]);
                            }
                            assert(combo(int_rows(before), bb[k], j, int_rows(before).len() as int) == scales[k] * ints(old(m)@[k]@)[j]);
                            lemma_combo_swapped(int_rows(before), int_rows(m@), bb[k], rank as int, p as int, j, len as int);
                        }
                    }
                } else {
                    assert forall|x: int| 0 <= x < len implies #[trigger] int_rows(m@)[x] == int_rows(before)[x] by {
                        if x == rank {
                            assert(m@[x]@ == before[x]@);
                        } else {
                            assert(m@[x] == before[x]);
                        }
                    }
                    assert(int_rows(m@) =~= int_rows(before));
                }
                let cb = coeffs;
                coeffs = coeffs.update(rank as int, cb[p as int]).update(p as int, cb[rank as int]);
                assert forall|a: int, j: int| 0 <= a < m@.len() && 0 <= j < m@[a]@.len() implies #[trigger] m@[a]@[j] == combo(
                    orig,
                    coeffs[a],
                    j,
                    len as int,
                ) by {
                    if a == rank {
                        assert(m@[a]@ == before[p as int]@);
                    } else if a == p {
                        assert(m@[a]@ == before[rank as int]@);
                    } else {
                        assert(m@[a] == before[a]);
                    }
                }
            }
            proof {
                assert forall|k: int, a: int| 0 <= k < pivots@.len() && 0 <= a < m@.len() implies (#[trigger] m@[a]@[pivots@[k].1 as int]
                    == 0 <==> a != k) by {
                    if a == rank {
                        assert(m@[a]@ == before[p as int]@);
                    } else if a == p {
                        assert(m@[a]@ == before[rank as int]@);
                    } else {
                        assert(m@[a] == before[a]);
                    }
                }
                assert forall|a: int, c: int| rank <= a < m@.len() && 0 <= c < col implies #[trigger] m@[a]@[c] == 0 by {
                    if a == rank {
                        assert(m@[a]@ == before[p as int]@);
                    } else if a == p {
                        assert(m@[a]@ == before[rank as int]@);
                    } else {
                        assert(m@[a] == before[a]);
                    }
                }
            }
            proof {
                if fits {
                    assert forall|a: int, j: int| 0 <= a < m@.len() && 0 <= j < m@[a]@.len() implies -g <= #[trigger] m@[a]@[j] <= g by {
                        if a == rank {
                            assert(m@[a]@[j] == before[p as int]@[j]);
                        } else if a == p {
                            assert(m@[a]@[j] == before[rank as int]@[j]);
                        } else {
                            assert(m@[a] == before[a]);
                        }
                    }
                }
            }
            let pivot_row = m[rank].clone();
            let pivot_value = pivot_row[col];
            let ghost start = m@;
            let mut i: usize = 0;
            while i < m.len()
                invariant
                    i <= m.len(),
                    pivot_value != 0,
                    pivot_row@ == start[rank as int]@,
                    m@[rank as int] == start[rank as int],
                    forall|a: int| i <= a < m@.len() ==> #[trigger] m@[a] == start[a],
                    forall|c: int| 0 <= c < col ==> #[trigger] pivot_row@[c] == 0,
                    forall|a: int| 0 <= a < i && a != rank ==> #[trigger] m@[a]@[col as int] == 0,
                    pivots.len() == rank,
                    pivot_list(pivots@, col as int),
                    pivots_cleared(m@, pivots@),
                    below_rank_zero(m@, rank as int, col as int),
                    orig == int_rows(old(m)@),
                    rows_combine(old(m)@, m@, coeffs),
                    forall|a: int| 0 <= a < len ==> (#[trigger] coeffs[a]).len() == len,
                    forall|j: int| 0 <= j < w ==> #[trigger] pivot_row@[j] == combo(orig, coeffs[rank as int], j, len as int),
                    rows_recover(old(m)@, m@, back, scales, w as int),
                    m.len() == len,
                    len == old(m).len(),
                    rank < len,
                    rank <= col,
                    col < cols,
                    cols <= w,
                    pivot_row.len() == w,
                    pivot_value == pivot_row@[col as int],
                    rectangular(m@, w as int),
                    fits == (1 <= b0 && entries_within(old(m)@, b0) && growth(b0, rounds) <= i128::MAX),
                    rounds == max_rounds(old(m)@, cols as int),
                    fits ==> 1 <= g <= g2 <= i128::MAX,
                    g2 == 2 * g * g,
                    fits ==> forall|j: int| 0 <= j < w ==> -g <= #[trigger] pivot_row@[j] <= g,
                    fits ==> forall|a: int, j: int| i <= a < m@.len() && 0 <= j < m@[a]@.len() ==> -g <= #[trigger] m@[a]@[j] <= g,
                    fits ==> forall|a: int, j: int| 0 <= a < i && 0 <= j < m@[a]@.len() ==> -g2 <= #[trigger] m@[a]@[j] <= g2,
                decreases m.len() - i,
            {
                if i != rank && m[i][col] != 0 {
                    let factor = m[i][col];
                    let ghost row_i = m@[i as int];
                    proof {
                        if fits {
                            assert forall|j: int| 0 <= j < row_i@.len() implies in_i128(#[trigger] (pivot_value * row_i@[j]))
                                && in_i128(factor * pivot_row@[j]) && in_i128(pivot_value * row_i@[j] - factor * pivot_row@[j]) by {
                                assert(-g <= row_i@[j] <= g);
                                assert(-g <= pivot_row@[j] <= g);
                                assert(-g <= factor <= g);
                                assert(-g <= pivot_value <= g);
                                lemma_scale_sub_bound(pivot_value as int, row_i@[j] as int, factor as int, pivot_row@[j] as int, g);
                            }
                        }
                    }
                    match scale_sub(&m[i], pivot_value, &pivot_row, factor) {
                        Some(row) => {
                            let ghost mid = m@;
                            m.set(i, row);
                            proof {
                                let bb = back;
                                let sb = scales;
                                let pv = pivot_value as int;
                                let fv = factor as int;
                                back = Seq::new(len as nat, |k: int| after_elimination(bb[k], i as int, rank as int, pv, fv));
                                scales = Seq::new(len as nat, |k: int| pv * sb[k]);
                                assert forall|k: int| 0 <= k < len implies #[trigger] in_span_witness(int_rows(m@), ints(old(m)@[k]@), w as int, back[k], scales[k]) by {
                                    assert(in_span_witness(int_rows(mid), ints(old(m)@[k]@), w as int, bb[k], sb[k]));
                                    lemma_scaled_zero(pv, sb[k]);
                                    assert forall|j: int| 0 <= j < w implies #[trigger] combo(int_rows(m@), back[k], j, int_rows(m@).len() as int) == scales[k] * ints(old(m)@[k]@)[j] by {
                                        assert forall|x: int| 0 <= x < len && x != i implies #[trigger] int_rows(m@)[x][j] == int_rows(mid)[x][j] by {
                                            assert(m@[x] == mid[x]);
                                        }
                                        assert(int_rows(m@)[i as int][j] == pv * int_rows(mid)[i as int][j] - fv * int_rows(mid)[rank as int][j]);
                                        lemma_combo_after_elimination(int_rows(mid), int_rows(m@), bb[k], i as int, rank as int, pv, fv, j, len as int);
                                        let c0 = combo(int_rows(mid), bb[k], j, len as int);
                                        let v = ints(old(m)@[k]@)[j];
                                        let sk = sb[k];
                                        assert(c0 == sk * v);
                                        assert(pv * c0 == (pv * sk) * v) by (nonlinear_arith)
                                            requires
                                                c0 == sk * v,
                                        ;
                                    }
                                }
                                let ci = coeffs[i as int];
                                let cr = coeffs[rank as int];
                                coeffs = coeffs.update(i as int, scale_sub_coeffs(pivot_value as int, ci, factor as int, cr));
                                assert forall|a: int, j: int| 0 <= a < m@.len() && 0 <= j < m@[a]@.len() implies #[trigger] m@[a]@[j]
                                    == combo(orig, coeffs[a], j, len as int) by {
                                    if a == i {
                                        assert(mid[a]@[j] == combo(orig, ci, j, len as int));
                                        lemma_combo_scale_sub(orig, pivot_value as int, ci, factor as int, cr, j, len as int);
                                    } else {
                                        assert(m@[a] == mid[a]);
                                    }
                                }
                            }
                            proof {
                                assert(row@[col as int] == 0) by {
                                    assert(pivot_value * factor == factor * pivot_value) by (nonlinear_arith);
                                }
                                assert forall|k: int, a: int| 0 <= k < pivots@.len() && 0 <= a < m@.len() implies (
                                #[trigger] m@[a]@[pivots@[k].1 as int] == 0 <==> a != k) by {
                                    if a == i {
                                        let c = pivots@[k].1 as int;
                                        assert(pivot_row@[c] == 0);
                                        assert(mid[a]@[c] == 0 <==> a != k);
                                        lemma_scaled_zero(pivot_value as int, row_i@[c] as int);
                                    } else {
                                        assert(m@[a] == mid[a]);
                                    }
                                }
                                assert forall|a: int, c: int| rank <= a < m@.len() && 0 <= c < col implies #[trigger] m@[a]@[c] == 0 by {
                                    if a == i {
                                        assert(pivot_row@[c] == 0);
                                        assert(mid[a]@[c] == 0);
                                    } else {
                                        assert(m@[a] == mid[a]);
                                    }
                                }
                                assert forall|a: int| 0 <= a < i + 1 && a != rank implies #[trigger] m@[a]@[col as int] == 0 by {
                                    if a < i {
                                        assert(m@[a] == mid[a]);
                                    }
                                }
                            }
                            proof {
                                if fits {
                                    assert forall|j: int| 0 <= j < row@.len() implies -g2 <= #[trigger] row@[j] <= g2 by {
                                        assert(-g <= row_i@[j] <= g);
                                        assert(-g <= pivot_row@[j] <= g);
                                        lemma_scale_sub_bound(pivot_value as int, row_i@[j] as int, factor as int, pivot_row@[j] as int, g);
                                    }
                                    assert forall|a: int, j: int| i + 1 <= a < m@.len() && 0 <= j < m@[a]@.len() implies -g <= #[trigger] m@[a]@[j] <= g by {
                                        assert(m@[a] == mid[a]);
                                    }
                                    assert forall|a: int, j: int| 0 <= a < i + 1 && 0 <= j < m@[a]@.len() implies -g2 <= #[trigger] m@[a]@[j] <= g2 by {
                                        if a < i {
                                            assert(m@[a] == mid[a]);
                                        }
                                    }
                                }
                            }
                        },
                        None => {
                            proof {
                                if fits {
                                    assert(scale_sub_fits(row_i@, pivot_value as int, pivot_row@, factor as int));
                                }
                                assert forall|k: int| 0 <= k < old(m).len() implies in_span(int_rows(m@), ints((#[trigger] old(m)@[k])@), w as int) by {
                                    assert(in_span_witness(int_rows(m@), ints(old(m)@[k]@), w as int, back[k], scales[k]));
                                }
                            }
                            return None;
                        },
                    }
                } else {
                    proof {
                        if fits {
                            assert forall|a: int, j: int| 0 <= a < i + 1 && 0 <= j < m@[a]@.len() implies -g2 <= #[trigger] m@[a]@[j] <= g2 by {
                                if a == i {
                                    assert(-g <= m@[a]@[j] <= g);
                                }
                            }
                        }
                    }
                }
                i = i + 1;
            }
            let ghost old_pivots = pivots@;
            pivots.push((rank, col));
            proof {
                assert(m@[rank as int]@[col as int] == pivot_value);
                assert forall|k: int, a: int| 0 <= k < pivots@.len() && 0 <= a < m@.len() implies (#[trigger] m@[a]@[pivots@[k].1 as int]
                    == 0 <==> a != k) by {
                    if k < rank {
                        assert(pivots@[k] == old_pivots[k]);
                    }
                }
                assert forall|a: int, c: int| rank + 1 <= a < m@.len() && 0 <= c < col + 1 implies #[trigger] m@[a]@[c] == 0 by {
                    if c == col {
                        assert(a != rank);
                    }
                }
                assert forall|k1: int, k2: int| 0 <= k1 < k2 < pivots@.len() implies (#[trigger] pivots@[k1]).1 < (
                #[trigger] pivots@[k2]).1 by {
                    if k2 < rank {
                        assert(pivots@[k1] == old_pivots[k1]);
                        assert(pivots@[k2] == old_pivots[k2]);
                    } else {
                        assert(pivots@[k1] == old_pivots[k1]);
                    }
                }
            }
            rank = rank + 1;
        } else {
            proof {
                assert forall|a: int, c: int| rank <= a < m@.len() && 0 <= c < col + 1 implies #[trigger] m@[a]@[c] == 0 by {
                    if c == col {
                        assert(m@[a]@[col as int] == 0);
                    }
                }
            }
        }
        col = col + 1;
    }
    proof {
        if fits {
            lemma_growth_mono(b0, rank as nat, rounds);
        }
        assert(rows_combine(old(m)@, m@, coeffs));
        assert forall|k: int| 0 <= k < old(m).len() implies in_span(int_rows(m@), ints((#[trigger] old(m)@[k])@), w as int) by {
            assert(in_span_witness(int_rows(m@), ints(old(m)@[k]@), w as int, back[k], scales[k]));
        }
    }
    Some(pivots)
}

} // verus!
