//! Regev-style symmetric LWE encryption of a single scalar: the
//! ciphertext is `A*s + e + floor(q/p) * mu` at one sample, and
//! decryption strips `A*s` and rounds by `p/q`.

use vstd::prelude::*;
use crate::arith::{add_val, mul_val, sub_val, round_scale, round_scaled};
use crate::arith::{lemma_strip, lemma_cong_add, lemma_round_scale_mod};
use crate::element::Element;
use crate::matrix::Matrix;
use crate::linalg::{dot, dot_plain, row_vals, vals, lemma_dot_bound, lemma_dot_is_mod};
use crate::linalg::{lemma_dot_plain_mod_left, lemma_dot_plain_scale_left};
use vstd::arithmetic::div_mod::{lemma_add_mod_noop, lemma_add_mod_noop_right};
use vstd::arithmetic::div_mod::{lemma_mod_bound, lemma_mod_twice, lemma_small_mod};
use vstd::arithmetic::div_mod::{lemma_mod_add_multiples_vanish, lemma_mul_mod_noop_left};

verus! {

#[derive(Clone, Debug)]
pub struct Params {
    /// Public A matrix, `m` outer entries of `n` scalars each.
    pub a: Matrix,
    /// The integer modulus.
    pub q: u64,
    /// The plaintext modulus.
    pub p: u64,
    /// The LWE secret length.
    pub n: usize,
    /// The number of samples.
    pub m: usize,
}

impl Params {
    /// Shapes and moduli agree, and the moduli leave room for exact
    /// integer rounding.
    pub open spec fn wf(self) -> bool {
        &&& self.a@.len() == self.m
        &&& (forall|i: int| 0 <= i < self.m ==> (#[trigger] self.a@[i]).len() == self.n)
        &&& self.a.all_q(self.q)
        &&& 1 < self.p
        &&& self.p < self.q
        &&& self.q < 0x8000000000000000
        &&& self.n >= 1
        &&& self.m >= 1
    }
}

/// An error value as the sampler leaves it: at most 3 below or 2 above
/// zero, folded into `[0, q)`.
pub open spec fn is_small_noise(v: int, q: int) -> bool {
    (0 <= v < 3) || (q - 3 <= v < q)
}

/// The ciphertext value: `A*s + e + floor(q/p) * mu`, all modulo `q`,
/// at the single sample of a one-row public matrix.
pub open spec fn enc_val(a_row: Seq<int>, s: Seq<int>, e0: int, mu: int, q: int, p: int) -> int {
    add_val(add_val(dot(a_row, s, q), e0, q), mul_val(q / p, mu, q), q)
}

/// The decrypted value: the ciphertext with `A*s` stripped, rounded by
/// `p/q` and reduced modulo `p`.
pub open spec fn dec_val(a_row: Seq<int>, s: Seq<int>, c: int, q: int, p: int) -> int {
    round_scale(sub_val(c, dot(a_row, s, q), q), p, q)
}

/// The reference parameter set: one sample, secret length 512, moduli
/// 3329 and 2.
pub fn simple_params() -> (r: Params)
    ensures
        r.wf(),
        r.m == 1,
        r.n == 512,
        r.q == 3329,
        r.p == 2,
        r.a.all_reduced(),
{
    let m: usize = 1;
    let n: usize = 512;
    let q: u64 = 3329;
    let p: u64 = 2;
    let a = Matrix::gen_uniform_rand(q, n, m);
    Params { a, q, p, n, m }
}

/// A secret: `n` scalars drawn uniformly modulo `q`.
pub fn gen_secret(q: u64, n: usize) -> (s: Vec<Element>)
    requires
        q >= 1,
    ensures
        s@.len() == n,
        forall|i: int| 0 <= i < n ==> (#[trigger] s@[i]).q == q && s@[i].uint < q,
{
    let mut secret: Vec<Element> = Vec::new();
    let mut i: usize = 0;
    while i < n
        invariant
            q >= 1,
            i <= n,
            secret@.len() == i,
            forall|k: int| 0 <= k < i ==> (#[trigger] secret@[k]).q == q && secret@[k].uint < q,
        decreases n - i,
    {
        secret.push(Element::gen_uniform_rand(q));
        i += 1;
    }
    secret
}

/// An error vector: `m` scalars, each a uniform draw from the six
/// values nearest zero, centered and folded into `[0, q)`.
pub fn gen_error_vec(q: u64, m: usize) -> (e: Vec<Element>)
    requires
        q >= 3,
        q < u64::MAX,
    ensures
        e@.len() == m,
        forall|i: int| 0 <= i < m
            ==> (#[trigger] e@[i]).q == q && is_small_noise(e@[i].uint as int, q as int),
{
    let sample_space: u64 = 6;
    let half_sample_space: u64 = sample_space / 2;
    let mut error_vec: Vec<Element> = Vec::new();
    let mut i: usize = 0;
    while i < m
        invariant
            q >= 3,
            q < u64::MAX,
            sample_space == 6,
            half_sample_space == 3,
            i <= m,
            error_vec@.len() == i,
            forall|k: int| 0 <= k < i
                ==> (#[trigger] error_vec@[k]).q == q
                    && is_small_noise(error_vec@[k].uint as int, q as int),
        decreases m - i,
    {
        let rand = Element::gen_uniform_rand(sample_space);
        let mut e = Element::from(q, rand.uint);
        e.sub_assign(Element::from(q, half_sample_space));
        error_vec.push(e);
        i += 1;
    }
    error_vec
}

/// Encrypts `plaintext` (a scalar modulo `p`) under `secret` with error
/// vector `e`: returns `A*s + e + floor(q/p) * mu` at the single sample.
pub fn encrypt(
    params: &Params,
    secret: &Vec<Element>,
    e: &Vec<Element>,
    plaintext: &Element,
) -> (c: Element)
    requires
        params.wf(),
        params.m == 1,
        secret@.len() == params.n,
        forall|i: int| 0 <= i < secret@.len() ==> (#[trigger] secret@[i]).q == params.q,
        e@.len() == params.m,
        forall|i: int| 0 <= i < e@.len() ==> (#[trigger] e@[i]).q == params.q,
        plaintext.q == params.p,
        plaintext.uint < params.p,
    ensures
        c.q == params.q,
        c.uint < params.q,
        c.uint == enc_val(
            row_vals(params.a@[0]),
            row_vals(secret@),
            e@[0].uint as int,
            plaintext.uint as int,
            params.q as int,
            params.p as int,
        ),
{
    let ghost qi = params.q as int;
    proof {
        assert(params.a.spec_rows() == params.n);
        assert(params.a.spec_q() == params.q);
    }
    // Compute As
    let a_s = params.a.clone().mul_vec(secret);
    proof {
        assert(vals(params.a@)[0] =~= row_vals(params.a@[0]));
    }
    // Compute b = As + e
    let b = a_s.add(Matrix::from_col(e));
    let floor = params.q / params.p;
    let floor_m = Matrix::from_single(&Element::from(params.q, floor));
    // The plaintext lifted to modulus q
    let pt = Matrix::from_single(&Element::from(params.q, plaintext.uint));
    let prod = floor_m.mul(pt);
    proof {
        let f = floor as int;
        let mu = plaintext.uint as int;
        let s1 = vals(floor_m@)[0];
        let s2 = crate::linalg::col_of(vals(pt@), 0);
        assert(s1.len() == 1);
        assert(s2.len() == 1);
        assert(s1.last() == f);
        assert(s2.last() == mu);
        assert(s1.drop_last() =~= Seq::<int>::empty());
        assert(s2.drop_last() =~= Seq::<int>::empty());
        assert(dot(s1.drop_last(), s2.drop_last(), qi) == 0);
        assert(dot(s1, s2, qi) == add_val(0, mul_val(f, mu, qi), qi));
        vstd::arithmetic::div_mod::lemma_mod_pos_bound(f * mu, qi);
        vstd::arithmetic::div_mod::lemma_small_mod((mul_val(f, mu, qi)) as nat, qi as nat);
        assert(add_val(0, mul_val(f, mu, qi), qi) == mul_val(f, mu, qi));
    }
    // Ciphertext As + e + floor(q/p) * plaintext
    let c = b.add(prod);
    proof {
        assert(c@.len() == 1);
        assert(c@[0].len() == 1);
        assert(b@[0][0].uint
            == add_val(dot(row_vals(params.a@[0]), row_vals(secret@), qi), e@[0].uint as int, qi));
        assert(prod@[0][0].uint == mul_val(qi / params.p as int, plaintext.uint as int, qi));
        vstd::arithmetic::div_mod::lemma_mod_pos_bound(
            b@[0][0].uint + prod@[0][0].uint,
            qi,
        );
    }
    c.data[0][0]
}

/// Decrypts a ciphertext: strips `A*s`, rounds by `p/q`, and returns
/// the result modulo `p`.
pub fn decrypt(params: &Params, secret: &Vec<Element>, ciphertext: &Element) -> (r: Element)
    requires
        params.wf(),
        params.m == 1,
        secret@.len() == params.n,
        forall|i: int| 0 <= i < secret@.len() ==> (#[trigger] secret@[i]).q == params.q,
        ciphertext.q == params.q,
        ciphertext.uint < params.q,
    ensures
        r.q == params.p,
        r.uint < params.p,
        r.uint == dec_val(
            row_vals(params.a@[0]),
            row_vals(secret@),
            ciphertext.uint as int,
            params.q as int,
            params.p as int,
        ),
{
    let ghost qi = params.q as int;
    proof {
        assert(params.a.spec_rows() == params.n);
        assert(params.a.spec_q() == params.q);
    }
    // Compute As
    let a_s = params.a.clone().mul_vec(secret);
    proof {
        assert(vals(params.a@)[0] =~= row_vals(params.a@[0]));
        lemma_dot_bound(row_vals(params.a@[0]), row_vals(secret@), qi);
    }
    // Compute c - As
    let raw = Matrix::from_single(ciphertext).sub(a_s);
    proof {
        assert(raw@.len() == 1);
        assert(raw@[0].len() == 1);
        assert(raw@[0][0].uint
            == sub_val(
                ciphertext.uint as int,
                dot(row_vals(params.a@[0]), row_vals(secret@), qi),
                qi,
            ));
        assert(raw@[0][0].uint < params.q);
    }
    // Round to the nearest q / p
    let x = round_scaled(raw.data[0][0].uint, params.p, params.q);
    Element::from(params.p, x)
}

/// The signed value that a sampled error represents: values just below
/// the modulus stand for small negatives.
pub open spec fn noise_lift(e0: int, q: int) -> int {
    if e0 < 3 {
        e0
    } else {
        e0 - q
    }
}

/// A small noise value is congruent to its signed lift, which lies
/// between -3 and 2.
pub proof fn lemma_noise_lift(e0: int, q: int)
    requires
        q >= 7,
        is_small_noise(e0, q),
    ensures
        -3 <= noise_lift(e0, q) <= 2,
        e0 % q == noise_lift(e0, q) % q,
{
    if e0 >= 3 {
        assert(e0 == q + (e0 - q));
        lemma_mod_add_multiples_vanish(e0 - q, q);
    }
}

/// The ciphertext value written as one reduction of the plain integer
/// sum `A*s + e + floor(q/p) * mu`.
pub proof fn lemma_enc_val_plain(a_row: Seq<int>, s: Seq<int>, e0: int, mu: int, q: int, p: int)
    requires
        q > 0,
        p > 0,
    ensures
        enc_val(a_row, s, e0, mu, q, p)
            == (dot_plain(a_row, s) + e0 + (q / p) * mu) % q,
{
    let av = dot_plain(a_row, s);
    let dd = q / p;
    lemma_dot_is_mod(a_row, s, q);
    assert((av % q + e0) % q == (av + e0) % q) by {
        lemma_add_mod_noop(av, e0, q);
        lemma_add_mod_noop_right(av % q, e0, q);
    }
    assert(((av + e0) % q + (dd * mu) % q) % q == (av + e0 + dd * mu) % q) by {
        lemma_add_mod_noop(av + e0, dd * mu, q);
    }
}

/// Decryption undoes encryption: for every public row, secret and
/// plaintext, and every admissible error, provided the moduli leave the
/// rounding window open.
pub proof fn lemma_regev_round_trip(a_row: Seq<int>, s: Seq<int>, e0: int, mu: int, q: int, p: int)
    requires
        1 < p,
        p < q,
        is_small_noise(e0, q),
        0 <= mu < p,
        2 * (3 * p + p * p) < q,
    ensures
        dec_val(a_row, s, enc_val(a_row, s, e0, mu, q, p), q, p) == mu,
{
    let av = dot_plain(a_row, s);
    let dd = q / p;
    let rho = q % p;
    let c = enc_val(a_row, s, e0, mu, q, p);
    let eps = noise_lift(e0, q);
    lemma_enc_val_plain(a_row, s, e0, mu, q, p);
    lemma_dot_is_mod(a_row, s, q);
    lemma_strip(av + e0 + dd * mu, av, q);
    let x = sub_val(c, dot(a_row, s, q), q);
    assert(x == (e0 + dd * mu) % q);
    lemma_noise_lift(e0, q);
    assert((e0 + dd * mu) % q == (eps + dd * mu) % q) by {
        lemma_cong_add(e0, eps, dd * mu, q);
    }
    assert(x == (dd * mu + eps) % q);
    lemma_mod_bound(q, p);
    assert(-q < 2 * (eps * p - rho * mu) && 2 * (eps * p - rho * mu) < q) by (nonlinear_arith)
        requires
            -3 <= eps <= 2,
            0 <= rho < p,
            0 <= mu < p,
            2 <= p,
            2 * (3 * p + p * p) < q;
    lemma_round_scale_mod(q, p, mu, eps, x);
    lemma_small_mod(mu as nat, p as nat);
}

/// Additive homomorphism: the sum of two ciphertexts decrypts, under a
/// public row doubled entry by entry, to the sum of the plaintexts
/// modulo `p`.
pub proof fn lemma_regev_additive(
    a_row: Seq<int>,
    a2_row: Seq<int>,
    s: Seq<int>,
    e0: int,
    e1: int,
    mu0: int,
    mu1: int,
    q: int,
    p: int,
)
    requires
        1 < p,
        p < q,
        a_row.len() == s.len(),
        a2_row.len() == a_row.len(),
        forall|i: int| 0 <= i < a_row.len()
            ==> #[trigger] a2_row[i] == add_val(a_row[i], a_row[i], q),
        is_small_noise(e0, q),
        is_small_noise(e1, q),
        0 <= mu0 < p,
        0 <= mu1 < p,
        2 * (6 * p + 2 * p * p) < q,
    ensures
        dec_val(
            a2_row,
            s,
            add_val(enc_val(a_row, s, e0, mu0, q, p), enc_val(a_row, s, e1, mu1, q, p), q),
            q,
            p,
        ) == (mu0 + mu1) % p,
{
    let av = dot_plain(a_row, s);
    let dd = q / p;
    let rho = q % p;
    let eps0 = noise_lift(e0, q);
    let eps1 = noise_lift(e1, q);
    // The doubled row dots to twice the plain dot product, modulo q
    let y2 = Seq::new(a_row.len(), |i: int| 2 * a_row[i]);
    lemma_dot_is_mod(a2_row, s, q);
    assert forall|i: int| 0 <= i < a2_row.len()
        implies #[trigger] (a2_row[i] % q) == y2[i] % q by {
        assert(a2_row[i] == (a_row[i] + a_row[i]) % q);
        lemma_mod_twice(a_row[i] + a_row[i], q);
    }
    lemma_dot_plain_mod_left(a2_row, y2, s, q);
    lemma_dot_plain_scale_left(y2, a_row, s, 2);
    assert(dot(a2_row, s, q) == (2 * av) % q);
    // The summed ciphertext is one reduction of the summed plain values
    let c0 = enc_val(a_row, s, e0, mu0, q, p);
    let c1 = enc_val(a_row, s, e1, mu1, q, p);
    lemma_enc_val_plain(a_row, s, e0, mu0, q, p);
    lemma_enc_val_plain(a_row, s, e1, mu1, q, p);
    let full = 2 * av + e0 + e1 + dd * (mu0 + mu1);
    assert(add_val(c0, c1, q) == full % q) by {
        lemma_add_mod_noop(av + e0 + dd * mu0, av + e1 + dd * mu1, q);
        assert(av + e0 + dd * mu0 + (av + e1 + dd * mu1) == full) by (nonlinear_arith)
            requires
                full == 2 * av + e0 + e1 + dd * (mu0 + mu1);
    }
    lemma_strip(full, 2 * av, q);
    let x = sub_val(full % q, (2 * av) % q, q);
    assert(x == (e0 + e1 + dd * (mu0 + mu1)) % q);
    lemma_noise_lift(e0, q);
    lemma_noise_lift(e1, q);
    assert((e0 + e1 + dd * (mu0 + mu1)) % q == (eps0 + eps1 + dd * (mu0 + mu1)) % q) by {
        lemma_cong_add(e0, eps0, e1 + dd * (mu0 + mu1), q);
        lemma_cong_add(e1, eps1, eps0 + dd * (mu0 + mu1), q);
    }
    assert(x == (dd * (mu0 + mu1) + (eps0 + eps1)) % q);
    lemma_mod_bound(q, p);
    assert(-q < 2 * ((eps0 + eps1) * p - rho * (mu0 + mu1))
        && 2 * ((eps0 + eps1) * p - rho * (mu0 + mu1)) < q) by (nonlinear_arith)
        requires
            -6 <= eps0 + eps1 <= 4,
            0 <= rho < p,
            0 <= mu0 + mu1 <= 2 * p - 2,
            2 <= p,
            2 * (6 * p + 2 * p * p) < q;
    lemma_round_scale_mod(q, p, mu0 + mu1, eps0 + eps1, x);
}

/// Scalar homomorphism: a ciphertext multiplied by `k` decrypts, under
/// a public row scaled by `k` entry by entry, to `k` times the
/// plaintext modulo `p`.
pub proof fn lemma_regev_scalar(
    a_row: Seq<int>,
    ak_row: Seq<int>,
    s: Seq<int>,
    e0: int,
    mu: int,
    kv: int,
    q: int,
    p: int,
)
    requires
        1 < p,
        p < q,
        a_row.len() == s.len(),
        ak_row.len() == a_row.len(),
        forall|i: int| 0 <= i < a_row.len()
            ==> #[trigger] ak_row[i] == mul_val(a_row[i], kv, q),
        is_small_noise(e0, q),
        0 <= mu < p,
        0 <= kv < p,
        2 * (3 * p * p + p * p * p) < q,
    ensures
        dec_val(ak_row, s, mul_val(enc_val(a_row, s, e0, mu, q, p), kv, q), q, p)
            == (kv * mu) % p,
{
    let av = dot_plain(a_row, s);
    let dd = q / p;
    let rho = q % p;
    let eps = noise_lift(e0, q);
    assert(q >= 7) by (nonlinear_arith)
        requires
            2 <= p,
            2 * (3 * p * p + p * p * p) < q;
    // The scaled row dots to k times the plain dot product, modulo q
    let yk = Seq::new(a_row.len(), |i: int| kv * a_row[i]);
    lemma_dot_is_mod(ak_row, s, q);
    assert forall|i: int| 0 <= i < ak_row.len()
        implies #[trigger] (ak_row[i] % q) == yk[i] % q by {
        assert(ak_row[i] == (a_row[i] * kv) % q);
        lemma_mod_twice(a_row[i] * kv, q);
        assert(a_row[i] * kv == kv * a_row[i]) by (nonlinear_arith);
    }
    lemma_dot_plain_mod_left(ak_row, yk, s, q);
    lemma_dot_plain_scale_left(yk, a_row, s, kv);
    assert(dot(ak_row, s, q) == (kv * av) % q);
    // The scaled ciphertext is one reduction of the scaled plain value
    let c = enc_val(a_row, s, e0, mu, q, p);
    lemma_enc_val_plain(a_row, s, e0, mu, q, p);
    let full = kv * av + kv * e0 + dd * (kv * mu);
    assert(mul_val(c, kv, q) == full % q) by {
        lemma_mul_mod_noop_left(av + e0 + dd * mu, kv, q);
        assert((av + e0 + dd * mu) * kv == full) by (nonlinear_arith)
            requires
                full == kv * av + kv * e0 + dd * (kv * mu);
    }
    lemma_strip(full, kv * av, q);
    let x = sub_val(full % q, (kv * av) % q, q);
    assert(x == (kv * e0 + dd * (kv * mu)) % q);
    lemma_noise_lift(e0, q);
    assert((kv * e0) % q == (kv * eps) % q) by {
        vstd::arithmetic::div_mod::lemma_mul_mod_noop_right(kv, e0, q);
        vstd::arithmetic::div_mod::lemma_mul_mod_noop_right(kv, eps, q);
    }
    assert((kv * e0 + dd * (kv * mu)) % q == (kv * eps + dd * (kv * mu)) % q) by {
        lemma_cong_add(kv * e0, kv * eps, dd * (kv * mu), q);
    }
    assert(x == (dd * (kv * mu) + kv * eps) % q);
    lemma_mod_bound(q, p);
    assert(-q < 2 * ((kv * eps) * p - rho * (kv * mu))
        && 2 * ((kv * eps) * p - rho * (kv * mu)) < q) by (nonlinear_arith)
        requires
            -3 <= eps <= 2,
            0 <= kv < p,
            0 <= rho < p,
            0 <= mu < p,
            2 <= p,
            2 * (3 * p * p + p * p * p) < q;
    assert(0 <= kv * mu) by (nonlinear_arith)
        requires
            0 <= kv,
            0 <= mu;
    lemma_round_scale_mod(q, p, kv * mu, kv * eps, x);
}

} // verus!

