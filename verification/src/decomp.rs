//! Base-`p` digit decomposition of matrices modulo `q`, and its inverse.
//! A value in `[0, q)` is spread over `k = ceil(log_p(q - 1))` digits;
//! decomposition turns each outer entry into `k` outer entries of
//! digits, and recomposition folds groups of `k` back into one value.

use vstd::prelude::*;
use vstd::arithmetic::power::pow;
use crate::element::Element;
use crate::matrix::Matrix;

verus! {

/// Digit `d` of `v` written in base `p`, least significant first.
pub open spec fn digit(v: int, p: int, d: nat) -> int {
    (v / pow(p, d)) % p
}

/// The first `k` base-`p` digits of `v`, least significant first.
pub open spec fn digits_of(v: int, p: int, k: nat) -> Seq<int> {
    Seq::new(k, |d: int| digit(v, p, d as nat))
}

/// The value of a digit string, least significant digit first, folded
/// together modulo `q`.
pub open spec fn recomp(ds: Seq<int>, p: int, q: int) -> int
    decreases ds.len(),
{
    if ds.len() == 0 {
        0
    } else {
        (ds[0] + p * recomp(ds.drop_first(), p, q)) % q
    }
}

/// A recomposed value is reduced below the modulus (or zero for the
/// empty string).
pub proof fn lemma_recomp_bound(ds: Seq<int>, p: int, q: int)
    requires
        q >= 1,
    ensures
        0 <= recomp(ds, p, q) < q,
    decreases ds.len(),
{
    if ds.len() == 0 {
    } else {
        lemma_recomp_bound(ds.drop_first(), p, q);
        vstd::arithmetic::div_mod::lemma_mod_bound(
            ds[0] + p * recomp(ds.drop_first(), p, q),
            q,
        );
    }
}

/// `k` is the digit count for modulus `q` in base `p`: the smallest
/// exponent with `pow(p, k) >= q - 1`.
pub open spec fn is_num_digits(p: int, q: int, k: nat) -> bool {
    pow(p, k) >= q - 1 && (k == 0 || pow(p, (k - 1) as nat) < q - 1)
}

/// The digit count for modulus `q` in base `p`.
pub open spec fn spec_num_digits(p: int, q: int) -> nat {
    choose|k: nat| is_num_digits(p, q, k)
}

/// The digit count is unique.
pub proof fn lemma_num_digits_unique(p: int, q: int, k1: nat, k2: nat)
    requires
        p >= 2,
        q >= 2,
        is_num_digits(p, q, k1),
        is_num_digits(p, q, k2),
    ensures
        k1 == k2,
{
    if k1 < k2 {
        vstd::arithmetic::power::lemma_pow_increases(p as nat, k1, (k2 - 1) as nat);
        assert(false);
    }
    if k2 < k1 {
        vstd::arithmetic::power::lemma_pow_increases(p as nat, k2, (k1 - 1) as nat);
        assert(false);
    }
}

/// Computes the digit count `ceil(log_p(q - 1))`: the smallest `k` with
/// `pow(p, k) >= q - 1`.
pub fn num_digits(p: u64, q: u64) -> (k: usize)
    requires
        p >= 2,
        q >= 2,
    ensures
        is_num_digits(p as int, q as int, k as nat),
        k as nat == spec_num_digits(p as int, q as int),
        k <= 64,
{
    let w: u128 = (q - 1) as u128;
    let mut k: usize = 0;
    let mut pw: u128 = 1;
    proof {
        vstd::arithmetic::power::lemma_pow0(p as int);
        vstd::arithmetic::power::lemma_pow0(2);
    }
    while pw < w
        invariant
            p >= 2,
            q >= 2,
            w == q - 1,
            pw >= 1,
            pw == pow(p as int, k as nat),
            pw >= pow(2, k as nat),
            k == 0 || pow(p as int, (k - 1) as nat) < q - 1,
            k <= 64,
        decreases 64 - k,
    {
        proof {
            // pw < w < 2^64, and pw >= pow(2, k), so k stays below 64.
            vstd::arithmetic::power2::lemma2_to64_rest();
            vstd::arithmetic::power2::lemma_pow2(64);
            if k >= 64 {
                vstd::arithmetic::power::lemma_pow_increases(2, 64, k as nat);
                assert(false);
            }
            vstd::arithmetic::power::lemma_pow_adds(p as int, k as nat, 1);
            vstd::arithmetic::power::lemma_pow_adds(2, k as nat, 1);
            vstd::arithmetic::power::lemma_pow1(p as int);
            vstd::arithmetic::power::lemma_pow1(2);
        }
        assert(pw * (p as u128) < u128::MAX) by (nonlinear_arith)
            requires
                pw < 0x10000000000000000u128;
        assert(pw * (p as u128) >= pw * 2) by (nonlinear_arith)
            requires
                pw >= 1,
                p >= 2;
        let ghost old_pw = pw as int;
        pw = pw * (p as u128);
        k = k + 1;
        assert(pw == pow(p as int, k as nat));
        assert(pw >= pow(2, k as nat));
    }
    proof {
        assert(is_num_digits(p as int, q as int, k as nat));
        assert(exists|kk: nat| is_num_digits(p as int, q as int, kk));
        lemma_num_digits_unique(
            p as int,
            q as int,
            k as nat,
            spec_num_digits(p as int, q as int),
        );
    }
    k
}

/// A digit string of `v` recomposes to `v` itself, provided `v` is
/// reduced modulo `q` and short enough to fit in `k` digits.
pub proof fn lemma_recomp_digits(v: int, p: int, q: int, k: nat)
    requires
        p >= 2,
        q >= 1,
        0 <= v < q,
        v < pow(p, k),
    ensures
        recomp(digits_of(v, p, k), p, q) == v,
    decreases k,
{
    let ds = digits_of(v, p, k);
    if k == 0 {
        assert(pow(p, 0) == 1) by {
            vstd::arithmetic::power::lemma_pow0(p);
        }
        assert(v == 0);
    } else {
        let v1 = v / p;
        assert(pow(p, k) == p * pow(p, (k - 1) as nat)) by {
            vstd::arithmetic::power::lemma_pow_adds(p, 1, (k - 1) as nat);
            vstd::arithmetic::power::lemma_pow1(p);
        }
        assert(v1 < pow(p, (k - 1) as nat)) by {
            vstd::arithmetic::div_mod::lemma_multiply_divide_lt(v, p, pow(p, (k - 1) as nat));
        }
        assert(0 <= v1 <= v) by {
            vstd::arithmetic::div_mod::lemma_div_pos_is_pos(v, p);
            vstd::arithmetic::div_mod::lemma_div_nonincreasing(v, p);
        }
        lemma_recomp_digits(v1, p, q, (k - 1) as nat);
        assert(ds.drop_first() =~= digits_of(v1, p, (k - 1) as nat)) by {
            assert forall|d: int| 0 <= d < k - 1 implies ds.drop_first()[d] == digit(
                v1,
                p,
                d as nat,
            ) by {
                assert(pow(p, (d + 1) as nat) == p * pow(p, d as nat)) by {
                    vstd::arithmetic::power::lemma_pow_adds(p, 1, d as nat);
                    vstd::arithmetic::power::lemma_pow1(p);
                }
                assert(v / (p * pow(p, d as nat)) == (v / p) / pow(p, d as nat)) by {
                    vstd::arithmetic::power::lemma_pow_positive(p, d as nat);
                    vstd::arithmetic::div_mod::lemma_div_denominator(v, p, pow(p, d as nat));
                }
            }
        }
        assert(ds[0] == v % p) by {
            vstd::arithmetic::power::lemma_pow0(p);
            vstd::arithmetic::div_mod::lemma_div_basics(v);
        }
        assert(v % p + p * v1 == v) by {
            vstd::arithmetic::div_mod::lemma_fundamental_div_mod(v, p);
        }
        assert(recomp(ds, p, q) == (ds[0] + p * recomp(ds.drop_first(), p, q)) % q);
        assert(v % q == v) by {
            vstd::arithmetic::div_mod::lemma_small_mod(v as nat, q as nat);
        }
    }
}

impl Matrix {
    /// Each outer entry expanded into `k` outer entries holding its
    /// base-`p` digits, least significant first; `k` is the digit count
    /// for the matrix modulus.
    pub fn decomposed(self, p: u64) -> (r: Matrix)
        requires
            p >= 2,
            self@.len() > 0,
            self.spec_rows() > 0,
            self.rect(),
            self.all_q(self.spec_q()),
            self.spec_q() >= 2,
            self@.len() * 64 <= usize::MAX,
        ensures
            is_num_digits(p as int, self.spec_q() as int, spec_num_digits(p as int, self.spec_q() as int)),
            spec_num_digits(p as int, self.spec_q() as int) <= 64,
            r@.len() == self@.len() * spec_num_digits(p as int, self.spec_q() as int),
            forall|u: int| 0 <= u < r@.len() ==> (#[trigger] r@[u]).len() == self.spec_rows(),
            forall|c: int, dd: int, rr: int|
                0 <= c < self@.len()
                    && 0 <= dd < spec_num_digits(p as int, self.spec_q() as int)
                    && 0 <= rr < self.spec_rows()
                    ==> #[trigger] r@[c * spec_num_digits(p as int, self.spec_q() as int) + dd][rr]
                        == (Element {
                            q: self.spec_q(),
                            uint: digit(self@[c][rr].uint as int, p as int, dd as nat) as u64,
                        }),
    {
        let q0 = self.data[0][0].q;
        let k = num_digits(p, q0);
        let ghost kk = k as int;
        let cols = self.data.len();
        let rows = self.data[0].len();
        let mut d: Vec<Vec<Element>> = Vec::new();
        let mut c: usize = 0;
        while c < cols
            invariant
                p >= 2,
                q0 == self.spec_q(),
                q0 >= 2,
                is_num_digits(p as int, q0 as int, k as nat),
                kk == k,
                k <= 64,
                cols == self@.len(),
                cols * 64 <= usize::MAX,
                rows == self.spec_rows(),
                self@.len() > 0,
                self.rect(),
                self.all_q(q0),
                c <= cols,
                d@.len() == c * kk,
                forall|u: int| 0 <= u < d@.len() ==> (#[trigger] d@[u])@.len() == rows,
                forall|cc: int, dd: int, rr: int|
                    0 <= cc < c && 0 <= dd < kk && 0 <= rr < rows
                        ==> #[trigger] d@[cc * kk + dd]@[rr] == (Element {
                            q: q0,
                            uint: digit(self@[cc][rr].uint as int, p as int, dd as nat) as u64,
                        }),
            decreases cols - c,
        {
            let mut dd: usize = 0;
            let mut pd: u128 = 1;
            proof {
                vstd::arithmetic::power::lemma_pow0(p as int);
                assert(c * kk + kk <= cols * kk <= cols * 64) by (nonlinear_arith)
                    requires
                        0 <= c < cols,
                        0 <= kk <= 64;
            }
            while dd < k
                invariant
                    p >= 2,
                    q0 == self.spec_q(),
                    q0 >= 2,
                    is_num_digits(p as int, q0 as int, k as nat),
                    kk == k,
                    k <= 64,
                    cols == self@.len(),
                    rows == self.spec_rows(),
                    self@.len() > 0,
                    self.rect(),
                    self.all_q(q0),
                    0 <= c < cols,
                    c * kk + kk <= usize::MAX,
                    dd <= k,
                    pd == pow(p as int, dd as nat),
                    d@.len() == c * kk + dd,
                    forall|u: int| 0 <= u < d@.len() ==> (#[trigger] d@[u])@.len() == rows,
                    forall|cc: int, ddd: int, rr: int|
                        0 <= cc < c && 0 <= ddd < kk && 0 <= rr < rows
                            ==> #[trigger] d@[cc * kk + ddd]@[rr] == (Element {
                                q: q0,
                                uint: digit(self@[cc][rr].uint as int, p as int, ddd as nat) as u64,
                            }),
                    forall|ddd: int, rr: int|
                        0 <= ddd < dd && 0 <= rr < rows
                            ==> #[trigger] d@[c * kk + ddd]@[rr] == (Element {
                                q: q0,
                                uint: digit(self@[c as int][rr].uint as int, p as int, ddd as nat) as u64,
                            }),
                decreases k - dd,
            {
                proof {
                    // pd = pow(p, dd) stays below the modulus while dd < k.
                    if dd < k - 1 || dd == k - 1 {
                        vstd::arithmetic::power::lemma_pow_increases(
                            p as nat,
                            dd as nat,
                            (k - 1) as nat,
                        );
                    }
                    vstd::arithmetic::power::lemma_pow_positive(p as int, dd as nat);
                }
                assert(pd < q0);
                let mut col: Vec<Element> = Vec::new();
                let mut rr: usize = 0;
                while rr < rows
                    invariant
                        p >= 2,
                        q0 >= 2,
                        cols == self@.len(),
                        rows == self.spec_rows(),
                        self.rect(),
                        0 <= c < cols,
                        0 <= dd,
                        pd == pow(p as int, dd as nat),
                        pd >= 1,
                        rr <= rows,
                        col@.len() == rr,
                        forall|t: int| 0 <= t < rr
                            ==> #[trigger] col@[t] == (Element {
                                q: q0,
                                uint: digit(self@[c as int][t].uint as int, p as int, dd as nat) as u64,
                            }),
                    decreases rows - rr,
                {
                    assert(self@[c as int].len() == rows);
                    let v = self.data[c][rr].uint;
                    let digitv = ((v as u128 / pd) % (p as u128)) as u64;
                    col.push(Element { q: q0, uint: digitv });
                    rr += 1;
                }
                d.push(col);
                proof {
                    assert forall|cc: int, ddd: int|
                        0 <= cc < c && 0 <= ddd < kk
                            implies 0 <= #[trigger] (cc * kk + ddd) < c * kk + dd by {
                        assert(cc * kk + ddd < c * kk) by (nonlinear_arith)
                            requires
                                0 <= cc < c,
                                0 <= ddd < kk;
                        assert(cc * kk + ddd >= 0) by (nonlinear_arith)
                            requires
                                0 <= cc,
                                0 <= ddd,
                                0 <= kk;
                    }
                }
                assert(pd * (p as u128) < u128::MAX) by (nonlinear_arith)
                    requires
                        pd < 0x10000000000000000u128;
                proof {
                    vstd::arithmetic::power::lemma_pow_adds(p as int, dd as nat, 1);
                    vstd::arithmetic::power::lemma_pow1(p as int);
                }
                pd = pd * (p as u128);
                dd += 1;
            }
            proof {
                assert((c + 1) * kk == c * kk + kk) by (nonlinear_arith);
            }
            c += 1;
        }
        let r = Matrix { data: d };
        proof {
            assert(r@.len() == cols * kk);
            assert forall|c2: int, dd2: int, rr2: int|
                0 <= c2 < self@.len() && 0 <= dd2 < kk && 0 <= rr2 < rows
                    implies #[trigger] r@[c2 * kk + dd2][rr2] == (Element {
                        q: q0,
                        uint: digit(self@[c2][rr2].uint as int, p as int, dd2 as nat) as u64,
                    }) by {
                assert(c2 * kk + dd2 < cols * kk) by (nonlinear_arith)
                    requires
                        0 <= c2 < cols,
                        0 <= dd2 < kk;
                assert(c2 * kk + dd2 >= 0) by (nonlinear_arith)
                    requires
                        0 <= c2,
                        0 <= dd2,
                        0 <= kk;
                assert(r@[c2 * kk + dd2] == d@[c2 * kk + dd2]@);
            }
        }
        r
    }

    /// Successive groups of `k` outer entries read as base-`p` digit
    /// strings and folded back into single values modulo `new_q`; `k` is
    /// the digit count for `new_q`.
    #[verifier::rlimit(50)]
    pub fn recompose(self, p: u64, new_q: u64) -> (r: Matrix)
        requires
            p >= 2,
            new_q >= 3,
            self@.len() > 0,
            self.rect(),
            self@.len() as int % (spec_num_digits(p as int, new_q as int) as int) == 0,
        ensures
            r@.len() == self@.len() as int / (spec_num_digits(p as int, new_q as int) as int),
            forall|c: int| 0 <= c < r@.len() ==> (#[trigger] r@[c]).len() == self.spec_rows(),
            forall|c: int, rr: int|
                0 <= c < r@.len() && 0 <= rr < self.spec_rows()
                    ==> #[trigger] r@[c][rr] == (Element {
                        q: new_q,
                        uint: recomp(
                            Seq::new(
                                spec_num_digits(p as int, new_q as int),
                                |dd: int| self@[
                                    c * spec_num_digits(p as int, new_q as int) + dd
                                ][rr].uint as int,
                            ),
                            p as int,
                            new_q as int,
                        ) as u64,
                    }),
    {
        let k = num_digits(p, new_q);
        proof {
            vstd::arithmetic::power::lemma_pow0(p as int);
            assert(k >= 1);
        }
        let ghost kk = k as int;
        let cols_out = self.data.len() / k;
        let rows = self.data[0].len();
        proof {
            vstd::arithmetic::div_mod::lemma_fundamental_div_mod(self@.len() as int, kk);
            assert(kk * (self@.len() as int / kk) == (self@.len() as int / kk) * kk)
                by (nonlinear_arith);
            assert(self@.len() == cols_out * kk);
        }
        let mut d: Vec<Vec<Element>> = Vec::new();
        let mut c: usize = 0;
        while c < cols_out
            invariant
                p >= 2,
                new_q >= 3,
                k as nat == spec_num_digits(p as int, new_q as int),
                kk == k,
                1 <= k <= 64,
                rows == self.spec_rows(),
                self@.len() > 0,
                self.rect(),
                cols_out == self@.len() as int / kk,
                self@.len() == cols_out * kk,
                c <= cols_out,
                d@.len() == c,
                forall|cc: int| 0 <= cc < c ==> (#[trigger] d@[cc])@.len() == rows,
                forall|cc: int, rr: int|
                    0 <= cc < c && 0 <= rr < rows
                        ==> #[trigger] d@[cc]@[rr] == (Element {
                            q: new_q,
                            uint: recomp(
                                Seq::new(kk as nat, |dd: int| self@[cc * kk + dd][rr].uint as int),
                                p as int,
                                new_q as int,
                            ) as u64,
                        }),
            decreases cols_out - c,
        {
            let mut row: Vec<Element> = Vec::new();
            let mut rr: usize = 0;
            while rr < rows
                invariant
                    p >= 2,
                    new_q >= 3,
                    kk == k,
                    1 <= k <= 64,
                    rows == self.spec_rows(),
                    self@.len() > 0,
                    self.rect(),
                    cols_out == self@.len() as int / kk,
                    self@.len() == cols_out * kk,
                    0 <= c < cols_out,
                    rr <= rows,
                    row@.len() == rr,
                    forall|t: int| 0 <= t < rr
                        ==> #[trigger] row@[t] == (Element {
                            q: new_q,
                            uint: recomp(
                                Seq::new(kk as nat, |dd: int| self@[c * kk + dd][t].uint as int),
                                p as int,
                                new_q as int,
                            ) as u64,
                        }),
                decreases rows - rr,
            {
                let ghost ds = Seq::new(kk as nat, |dd: int| self@[c * kk + dd][rr as int].uint as int);
                let mut acc: u64 = 0;
                let mut dd: usize = k;
                proof {
                    assert(ds.skip(kk) =~= Seq::<int>::empty());
                }
                while dd > 0
                    invariant
                        p >= 2,
                        new_q >= 3,
                        kk == k,
                        1 <= k <= 64,
                        rows == self.spec_rows(),
                        self@.len() > 0,
                        self.rect(),
                        cols_out == self@.len() as int / kk,
                        self@.len() == cols_out * kk,
                        0 <= c < cols_out,
                        0 <= rr < rows,
                        dd <= k,
                        ds == Seq::new(kk as nat, |t: int| self@[c * kk + t][rr as int].uint as int),
                        acc == recomp(ds.skip(dd as int), p as int, new_q as int),
                        acc < new_q,
                    decreases dd,
                {
                    dd -= 1;
                    proof {
                        assert(self.data.len() == self@.len());
                        assert(c * kk + dd < cols_out * kk) by (nonlinear_arith)
                            requires
                                0 <= c < cols_out,
                                0 <= dd < kk;
                        assert(self@[c * kk + dd].len() == rows);
                    }
                    let digitv = self.data[c * k + dd][rr].uint;
                    assert((acc as u128) * (p as u128) + (digitv as u128) < u128::MAX)
                        by (nonlinear_arith);
                    let t: u128 = acc as u128 * p as u128 + digitv as u128;
                    let next = (t % (new_q as u128)) as u64;
                    proof {
                        let qi2 = new_q as int;
                        assert(ds.skip(dd as int).len() == kk - dd);
                        assert(ds.skip(dd as int).drop_first() =~= ds.skip(dd + 1));
                        assert(ds.skip(dd as int)[0] == ds[dd as int]);
                        assert(digitv == ds[dd as int]);
                        assert(recomp(ds.skip(dd as int), p as int, qi2)
                            == (ds[dd as int]
                                + (p as int) * recomp(ds.skip(dd + 1), p as int, qi2)) % qi2);
                        assert(recomp(ds.skip(dd + 1), p as int, qi2) == acc);
                        assert(t == (acc as int) * (p as int) + digitv);
                        assert(next == ((acc as int) * (p as int) + digitv) % qi2);
                        assert((acc as int) * (p as int) == (p as int) * (acc as int));
                        assert(next == (digitv + (p as int) * (acc as int)) % qi2);
                        assert(next == recomp(ds.skip(dd as int), p as int, qi2));
                    }
                    acc = next;
                }
                assert(ds.skip(0) =~= ds);
                assert(Seq::new(kk as nat, |t: int| self@[c * kk + t][rr as int].uint as int)
                    =~= ds);
                row.push(Element { q: new_q, uint: acc });
                rr += 1;
            }
            d.push(row);
            c += 1;
        }
        Matrix { data: d }
    }
}

/// Recomposing the digit decomposition of a matrix restores the matrix:
/// for every grid of entries reduced modulo `q` and below `pow(p, k)`,
/// the digit strings taken column by column fold back to the original
/// entries.
pub proof fn lemma_recompose_decompose(m: Seq<Seq<int>>, p: int, q: int, k: nat)
    requires
        p >= 2,
        q >= 1,
        forall|c: int, rr: int|
            0 <= c < m.len() && 0 <= rr < m[c].len()
                ==> 0 <= #[trigger] m[c][rr] < q && m[c][rr] < pow(p, k),
    ensures
        forall|c: int, rr: int|
            0 <= c < m.len() && 0 <= rr < m[c].len()
                ==> recomp(digits_of(#[trigger] m[c][rr], p, k), p, q) == m[c][rr],
{
    assert forall|c: int, rr: int|
        0 <= c < m.len() && 0 <= rr < m[c].len()
            implies recomp(digits_of(#[trigger] m[c][rr], p, k), p, q) == m[c][rr] by {
        lemma_recomp_digits(m[c][rr], p, q, k);
    }
}

} // verus!
