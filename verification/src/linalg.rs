//! The mathematical model of matrices: grids of integers together with a
//! modulus, the specification-level product the executable code is
//! contracted to, and the algebraic laws it obeys.

use vstd::prelude::*;
use crate::arith::{add_val, mul_val};

verus! {

/// The integer values held by a grid of scalars.
pub open spec fn vals(m: Seq<Seq<crate::element::Element>>) -> Seq<Seq<int>> {
    Seq::new(m.len(), |i: int| Seq::new(m[i].len(), |j: int| m[i][j].uint as int))
}

/// The integer values held by one vector of scalars.
pub open spec fn row_vals(v: Seq<crate::element::Element>) -> Seq<int> {
    Seq::new(v.len(), |i: int| v[i].uint as int)
}

/// A grid with `c` outer entries (columns) of `r` inner entries (rows) each.
pub open spec fn is_grid(m: Seq<Seq<int>>, c: nat, r: nat) -> bool {
    m.len() == c && forall|i: int| 0 <= i < c ==> (#[trigger] m[i]).len() == r
}

/// Inner entry `j` of every outer entry: column `j` read as a vector.
pub open spec fn col_of(b: Seq<Seq<int>>, j: int) -> Seq<int> {
    Seq::new(b.len(), |k: int| b[k][j])
}

/// Modular dot product, summed left to right: the value accumulated by
/// the multiplication loop, with every partial sum reduced modulo `q`.
pub open spec fn dot(a: Seq<int>, b: Seq<int>, q: int) -> int
    decreases a.len(),
{
    if a.len() == 0 {
        0
    } else {
        add_val(dot(a.drop_last(), b.drop_last(), q), mul_val(a.last(), b.last(), q), q)
    }
}

/// The plain dot product over the unbounded integers.
pub open spec fn dot_plain(a: Seq<int>, b: Seq<int>) -> int
    decreases a.len(),
{
    if a.len() == 0 {
        0
    } else {
        dot_plain(a.drop_last(), b.drop_last()) + a.last() * b.last()
    }
}

/// The matrix product: entry `(i, j)` is the dot product of outer entry
/// `i` of `a` with column `j` of `b`, modulo `q`.
pub open spec fn mat_mul(a: Seq<Seq<int>>, b: Seq<Seq<int>>, q: int) -> Seq<Seq<int>> {
    Seq::new(a.len(), |i: int| Seq::new(if b.len() == 0 { 0 } else { b[0].len() },
        |j: int| dot(a[i], col_of(b, j), q)))
}

/// Unfolding step for `dot` over growing prefixes, as a multiplication
/// loop accumulates it.
pub proof fn lemma_dot_take_step(a: Seq<int>, b: Seq<int>, q: int, k: int)
    requires
        0 <= k < a.len(),
        k < b.len(),
    ensures
        dot(a.take(k + 1), b.take(k + 1), q)
            == add_val(dot(a.take(k), b.take(k), q), mul_val(a[k], b[k], q), q),
{
    assert(a.take(k + 1).drop_last() =~= a.take(k));
    assert(b.take(k + 1).drop_last() =~= b.take(k));
}

/// A modular dot product is reduced below the modulus.
pub proof fn lemma_dot_bound(a: Seq<int>, b: Seq<int>, q: int)
    requires
        q > 0,
    ensures
        0 <= dot(a, b, q) < q,
    decreases a.len(),
{
    if a.len() == 0 {
    } else {
        lemma_dot_bound(a.drop_last(), b.drop_last(), q);
        vstd::arithmetic::div_mod::lemma_mod_bound(
            dot(a.drop_last(), b.drop_last(), q) + mul_val(a.last(), b.last(), q),
            q,
        );
    }
}

/// The modular dot product is the plain dot product reduced modulo `q`.
pub proof fn lemma_dot_is_mod(a: Seq<int>, b: Seq<int>, q: int)
    requires
        q > 0,
    ensures
        dot(a, b, q) == dot_plain(a, b) % q,
    decreases a.len(),
{
    if a.len() == 0 {
        vstd::arithmetic::div_mod::lemma_small_mod(0, q as nat);
    } else {
        lemma_dot_is_mod(a.drop_last(), b.drop_last(), q);
        vstd::arithmetic::div_mod::lemma_add_mod_noop(
            dot_plain(a.drop_last(), b.drop_last()),
            a.last() * b.last(),
            q,
        );
    }
}

/// The modular dot product of equal-length vectors is symmetric.
pub proof fn lemma_dot_comm(a: Seq<int>, b: Seq<int>, q: int)
    requires
        a.len() == b.len(),
    ensures
        dot(a, b, q) == dot(b, a, q),
    decreases a.len(),
{
    if a.len() > 0 {
        lemma_dot_comm(a.drop_last(), b.drop_last(), q);
        assert(a.last() * b.last() == b.last() * a.last()) by (nonlinear_arith);
    }
}

/// Replacing the left vector by one congruent modulo `q` pointwise
/// leaves the plain dot product congruent modulo `q`.
pub proof fn lemma_dot_plain_mod_left(x: Seq<int>, y: Seq<int>, s: Seq<int>, q: int)
    requires
        q > 0,
        x.len() == y.len(),
        forall|i: int| 0 <= i < x.len() ==> #[trigger] (x[i] % q) == y[i] % q,
    ensures
        dot_plain(x, s) % q == dot_plain(y, s) % q,
    decreases x.len(),
{
    if x.len() == 0 {
    } else {
        lemma_dot_plain_mod_left(x.drop_last(), y.drop_last(), s.drop_last(), q);
        let dx = dot_plain(x.drop_last(), s.drop_last());
        let dy = dot_plain(y.drop_last(), s.drop_last());
        assert(x[x.len() - 1] % q == y[y.len() - 1] % q);
        assert((x.last() * s.last()) % q == (y.last() * s.last()) % q) by {
            vstd::arithmetic::div_mod::lemma_mul_mod_noop_left(x.last(), s.last(), q);
            vstd::arithmetic::div_mod::lemma_mul_mod_noop_left(y.last(), s.last(), q);
        }
        vstd::arithmetic::div_mod::lemma_add_mod_noop(dx, x.last() * s.last(), q);
        vstd::arithmetic::div_mod::lemma_add_mod_noop(dy, y.last() * s.last(), q);
    }
}

/// Replacing the right vector by one congruent modulo `q` pointwise
/// leaves the plain dot product congruent modulo `q`.
pub proof fn lemma_dot_plain_mod_right(x: Seq<int>, u: Seq<int>, v: Seq<int>, q: int)
    requires
        q > 0,
        u.len() == v.len(),
        x.len() == u.len(),
        forall|i: int| 0 <= i < u.len() ==> #[trigger] (u[i] % q) == v[i] % q,
    ensures
        dot_plain(x, u) % q == dot_plain(x, v) % q,
    decreases x.len(),
{
    if x.len() == 0 {
    } else {
        lemma_dot_plain_mod_right(x.drop_last(), u.drop_last(), v.drop_last(), q);
        let du = dot_plain(x.drop_last(), u.drop_last());
        let dv = dot_plain(x.drop_last(), v.drop_last());
        assert(u[u.len() - 1] % q == v[v.len() - 1] % q);
        assert((x.last() * u.last()) % q == (x.last() * v.last()) % q) by {
            vstd::arithmetic::div_mod::lemma_mul_mod_noop_right(x.last(), u.last(), q);
            vstd::arithmetic::div_mod::lemma_mul_mod_noop_right(x.last(), v.last(), q);
        }
        vstd::arithmetic::div_mod::lemma_add_mod_noop(du, x.last() * u.last(), q);
        vstd::arithmetic::div_mod::lemma_add_mod_noop(dv, x.last() * v.last(), q);
    }
}

/// The plain dot product with an all-zero right vector is zero.
proof fn lemma_dot_plain_zero_right(x: Seq<int>, z: Seq<int>)
    requires
        x.len() == z.len(),
        forall|i: int| 0 <= i < z.len() ==> #[trigger] z[i] == 0,
    ensures
        dot_plain(x, z) == 0,
    decreases x.len(),
{
    if x.len() > 0 {
        lemma_dot_plain_zero_right(x.drop_last(), z.drop_last());
        assert(z[z.len() - 1] == 0);
        assert(z.last() == 0);
        assert(x.last() * z.last() == 0) by (nonlinear_arith)
            requires
                z.last() == 0;
        assert(dot_plain(x, z) == dot_plain(x.drop_last(), z.drop_last()) + x.last() * z.last());
    }
}

/// The plain dot product distributes over a pointwise sum on the right.
pub proof fn lemma_dot_plain_add_right(x: Seq<int>, u: Seq<int>, v: Seq<int>, w: Seq<int>)
    requires
        x.len() == u.len(),
        u.len() == v.len(),
        v.len() == w.len(),
        forall|i: int| 0 <= i < w.len() ==> #[trigger] w[i] == u[i] + v[i],
    ensures
        dot_plain(x, w) == dot_plain(x, u) + dot_plain(x, v),
    decreases x.len(),
{
    if x.len() > 0 {
        lemma_dot_plain_add_right(x.drop_last(), u.drop_last(), v.drop_last(), w.drop_last());
        assert(w[w.len() - 1] == u[u.len() - 1] + v[v.len() - 1]);
        assert(x.last() * w.last() == x.last() * u.last() + x.last() * v.last()) by {
            vstd::arithmetic::mul::lemma_mul_is_distributive_add(x.last(), u.last(), v.last());
        }
    }
}

/// A common factor on the right of the plain dot product can be pulled
/// out.
proof fn lemma_dot_plain_scale_right(x: Seq<int>, v: Seq<int>, w: Seq<int>, c: int)
    requires
        x.len() == v.len(),
        v.len() == w.len(),
        forall|i: int| 0 <= i < w.len() ==> #[trigger] w[i] == v[i] * c,
    ensures
        dot_plain(x, w) == dot_plain(x, v) * c,
    decreases x.len(),
{
    if x.len() == 0 {
    } else {
        lemma_dot_plain_scale_right(x.drop_last(), v.drop_last(), w.drop_last(), c);
        assert(w[w.len() - 1] == v[v.len() - 1] * c);
        assert(dot_plain(x.drop_last(), v.drop_last()) * c + x.last() * (v.last() * c)
            == (dot_plain(x.drop_last(), v.drop_last()) + x.last() * v.last()) * c)
            by (nonlinear_arith);
    }
}

/// A common factor on the left of the plain dot product can be pulled
/// out.
pub proof fn lemma_dot_plain_scale_left(w: Seq<int>, v: Seq<int>, s: Seq<int>, c: int)
    requires
        w.len() == v.len(),
        v.len() == s.len(),
        forall|i: int| 0 <= i < w.len() ==> #[trigger] w[i] == c * v[i],
    ensures
        dot_plain(w, s) == c * dot_plain(v, s),
    decreases w.len(),
{
    if w.len() == 0 {
    } else {
        lemma_dot_plain_scale_left(w.drop_last(), v.drop_last(), s.drop_last(), c);
        assert(w[w.len() - 1] == c * v[v.len() - 1]);
        assert(c * dot_plain(v.drop_last(), s.drop_last()) + (c * v.last()) * s.last()
            == c * (dot_plain(v.drop_last(), s.drop_last()) + v.last() * s.last()))
            by (nonlinear_arith);
    }
}

/// The plain dot product with a one-hot right vector picks out one
/// entry.
pub proof fn lemma_dot_plain_onehot(x: Seq<int>, w: Seq<int>, pos: int, delta: int)
    requires
        x.len() == w.len(),
        0 <= pos < w.len(),
        forall|i: int| 0 <= i < w.len()
            ==> #[trigger] w[i] == if i == pos { delta } else { 0 },
    ensures
        dot_plain(x, w) == x[pos] * delta,
    decreases x.len(),
{
    if pos == x.len() - 1 {
        assert(w[w.len() - 1] == delta);
        assert forall|i: int| 0 <= i < w.len() - 1 implies #[trigger] w.drop_last()[i] == 0 by {
            assert(w[i] == 0);
        }
        lemma_dot_plain_zero_right(x.drop_last(), w.drop_last());
    } else {
        assert(w[w.len() - 1] == 0);
        assert(x.last() * w.last() == 0) by (nonlinear_arith)
            requires
                w.last() == 0;
        assert forall|i: int| 0 <= i < w.len() - 1
            implies #[trigger] w.drop_last()[i] == if i == pos { delta } else { 0 } by {
            assert(w[i] == if i == pos { delta } else { 0 });
        }
        lemma_dot_plain_onehot(x.drop_last(), w.drop_last(), pos, delta);
    }
}

/// A two-sided bound on the plain dot product from entrywise bounds:
/// the left entries lie in `[0, xb]` and the right entries in
/// `[lo, hi]` around zero.
pub proof fn lemma_dot_plain_range(x: Seq<int>, y: Seq<int>, xb: int, lo: int, hi: int)
    requires
        x.len() == y.len(),
        0 <= xb,
        lo <= 0 <= hi,
        forall|i: int| 0 <= i < x.len() ==> 0 <= #[trigger] x[i] <= xb,
        forall|i: int| 0 <= i < y.len() ==> lo <= #[trigger] y[i] <= hi,
    ensures
        x.len() * xb * lo <= dot_plain(x, y),
        dot_plain(x, y) <= x.len() * xb * hi,
    decreases x.len(),
{
    if x.len() == 0 {
    } else {
        lemma_dot_plain_range(x.drop_last(), y.drop_last(), xb, lo, hi);
        assert(0 <= x[x.len() - 1] <= xb);
        assert(lo <= y[y.len() - 1] <= hi);
        assert(xb * lo <= x.last() * y.last() && x.last() * y.last() <= xb * hi)
            by (nonlinear_arith)
            requires
                0 <= x.last() <= xb,
                lo <= y.last() <= hi,
                lo <= 0 <= hi;
        assert(x.len() * xb * lo == (x.len() - 1) * xb * lo + xb * lo) by (nonlinear_arith);
        assert(x.len() * xb * hi == (x.len() - 1) * xb * hi + xb * hi) by (nonlinear_arith);
    }
}

/// Exchange of summation: dotting the vector of column dot products
/// with `z` equals dotting `x` with the vector of row dot products.
pub proof fn lemma_dot_plain_exchange(
    x: Seq<int>,
    b: Seq<Seq<int>>,
    z: Seq<int>,
    lhsv: Seq<int>,
    rhsv: Seq<int>,
)
    requires
        b.len() == x.len(),
        forall|t: int| 0 <= t < b.len() ==> (#[trigger] b[t]).len() == z.len(),
        lhsv.len() == z.len(),
        forall|k: int| 0 <= k < z.len() ==> #[trigger] lhsv[k] == dot_plain(x, col_of(b, k)),
        rhsv.len() == x.len(),
        forall|t: int| 0 <= t < x.len() ==> #[trigger] rhsv[t] == dot_plain(b[t], z),
    ensures
        dot_plain(lhsv, z) == dot_plain(x, rhsv),
    decreases z.len(),
{
    if z.len() == 0 {
        assert forall|t: int| 0 <= t < x.len() implies #[trigger] rhsv[t] == 0 by {
            assert(rhsv[t] == dot_plain(b[t], z));
        }
        lemma_dot_plain_zero_right(x, rhsv);
    } else {
        let kmax = z.len() - 1;
        let bd = Seq::new(b.len(), |t: int| b[t].drop_last());
        let zd = z.drop_last();
        let lhsd = lhsv.drop_last();
        let rhsd = Seq::new(x.len(), |t: int| dot_plain(bd[t], zd));
        assert forall|k: int| 0 <= k < zd.len()
            implies #[trigger] lhsd[k] == dot_plain(x, col_of(bd, k)) by {
            assert(col_of(bd, k) =~= col_of(b, k));
            assert(lhsv[k] == dot_plain(x, col_of(b, k)));
        }
        lemma_dot_plain_exchange(x, bd, zd, lhsd, rhsd);
        let colk = col_of(b, kmax);
        let coltimes = Seq::new(x.len(), |t: int| colk[t] * z.last());
        assert forall|t: int| 0 <= t < x.len()
            implies #[trigger] rhsv[t] == rhsd[t] + coltimes[t] by {
            assert(rhsv[t] == dot_plain(b[t], z));
            assert(b[t].drop_last() =~= bd[t]);
            assert(dot_plain(b[t], z)
                == dot_plain(b[t].drop_last(), z.drop_last()) + b[t].last() * z.last());
            assert(b[t].last() == colk[t]);
        }
        lemma_dot_plain_add_right(x, rhsd, coltimes, rhsv);
        lemma_dot_plain_scale_right(x, colk, coltimes, z.last());
        assert(lhsv.last() == dot_plain(x, colk));
        assert(dot_plain(lhsv, z) == dot_plain(lhsd, zd) + lhsv.last() * z.last());
    }
}

/// Matrix multiplication modulo `q` is associative: for grids `a` of
/// shape `(ca, m)`, `b` of `(m, n)` and `c` of `(n, r)` with `m` and `n`
/// positive, `(a * b) * c == a * (b * c)`.
pub proof fn lemma_mat_mul_assoc(
    a: Seq<Seq<int>>,
    b: Seq<Seq<int>>,
    c: Seq<Seq<int>>,
    q: int,
    ca: nat,
    m: nat,
    n: nat,
    r: nat,
)
    requires
        q > 0,
        m >= 1,
        n >= 1,
        is_grid(a, ca, m),
        is_grid(b, m, n),
        is_grid(c, n, r),
    ensures
        mat_mul(mat_mul(a, b, q), c, q) == mat_mul(a, mat_mul(b, c, q), q),
{
    let ab = mat_mul(a, b, q);
    let bc = mat_mul(b, c, q);
    let lhs = mat_mul(ab, c, q);
    let rhs = mat_mul(a, bc, q);
    assert(ab.len() == ca);
    assert(bc.len() == m);
    assert(lhs.len() == ca);
    assert(rhs.len() == ca);
    assert forall|i: int| 0 <= i < ca implies #[trigger] lhs[i] =~= rhs[i] by {
        assert(lhs[i].len() == r);
        assert(bc[0].len() == r);
        assert(rhs[i].len() == r);
        assert forall|j: int| 0 <= j < r implies #[trigger] lhs[i][j] == rhs[i][j] by {
            let colcj = col_of(c, j);
            let yi = Seq::new(n, |k: int| dot_plain(a[i], col_of(b, k)));
            let rhsv = Seq::new(m, |t: int| dot_plain(b[t], colcj));
            // The left-hand entry, with every inner reduction pulled out
            assert(lhs[i][j] == dot(ab[i], colcj, q));
            lemma_dot_is_mod(ab[i], colcj, q);
            assert forall|k: int| 0 <= k < n implies #[trigger] (ab[i][k] % q) == yi[k] % q by {
                assert(ab[i][k] == dot(a[i], col_of(b, k), q));
                lemma_dot_is_mod(a[i], col_of(b, k), q);
                vstd::arithmetic::div_mod::lemma_mod_twice(dot_plain(a[i], col_of(b, k)), q);
            }
            lemma_dot_plain_mod_left(ab[i], yi, colcj, q);
            // Exchange the two summations
            lemma_dot_plain_exchange(a[i], b, colcj, yi, rhsv);
            // The right-hand entry, likewise
            assert(rhs[i][j] == dot(a[i], col_of(bc, j), q));
            lemma_dot_is_mod(a[i], col_of(bc, j), q);
            assert forall|t: int| 0 <= t < m
                implies #[trigger] (col_of(bc, j)[t] % q) == rhsv[t] % q by {
                assert(col_of(bc, j)[t] == bc[t][j]);
                assert(bc[t][j] == dot(b[t], colcj, q));
                lemma_dot_is_mod(b[t], colcj, q);
                vstd::arithmetic::div_mod::lemma_mod_twice(dot_plain(b[t], colcj), q);
            }
            lemma_dot_plain_mod_right(a[i], col_of(bc, j), rhsv, q);
        }
    }
    assert(lhs =~= rhs);
}

} // verus!
