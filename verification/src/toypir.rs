//! A didactic PIR protocol: the client encrypts a one-hot selection
//! vector bit by bit; the server homomorphically sums the ciphertexts
//! (and public matrices) at the positions selected by the database.

use vstd::prelude::*;
use crate::arith::{add_val, mul_val, sub_val, round_scale};
use crate::arith::{lemma_strip, lemma_cong_add, lemma_round_scale_mod};
use crate::element::Element;
use crate::matrix::Matrix;
use crate::zeroq::ZeroQ;
use crate::linalg::{dot, dot_plain, row_vals, lemma_dot_is_mod};
use crate::linalg::{lemma_dot_plain_mod_left, lemma_dot_plain_scale_left};
use crate::regev::{Params, enc_val, dec_val, is_small_noise, noise_lift, gen_error_vec, encrypt};
use crate::regev::{lemma_noise_lift, lemma_enc_val_plain};

verus! {

/// How many database entries hold the value 1.
pub open spec fn ones(db: Seq<Element>) -> int
    decreases db.len(),
{
    if db.len() == 0 {
        0
    } else {
        ones(db.drop_last()) + if db.last().uint == 1 { 1int } else { 0int }
    }
}

/// The modular sum of the query entries at the positions where the
/// database holds 1, accumulated left to right.
pub open spec fn sum_if_one(db: Seq<Element>, qry: Seq<int>, q: int) -> int
    decreases db.len(),
{
    if db.len() == 0 {
        0
    } else {
        let prev = sum_if_one(db.drop_last(), qry.drop_last(), q);
        if db.last().uint == 1 {
            add_val(prev, qry.last(), q)
        } else {
            prev
        }
    }
}

/// Generates a database of `db_size` items where each item is a bit.
pub fn gen_db(db_size: usize, params: &Params) -> (db: Vec<Element>)
    requires
        params.p >= 1,
    ensures
        db@.len() == db_size,
        forall|i: int| 0 <= i < db_size
            ==> (#[trigger] db@[i]).q == params.p && db@[i].uint < params.p,
{
    gen_db_q(db_size, params.p)
}

/// Generates a database of `db_size` items where each item is an
/// element modulo `q`.
pub fn gen_db_q(db_size: usize, q: u64) -> (db: Vec<Element>)
    requires
        q >= 1,
    ensures
        db@.len() == db_size,
        forall|i: int| 0 <= i < db_size ==> (#[trigger] db@[i]).q == q && db@[i].uint < q,
{
    let mut db: Vec<Element> = Vec::new();
    let mut i: usize = 0;
    while i < db_size
        invariant
            q >= 1,
            i <= db_size,
            db@.len() == i,
            forall|k: int| 0 <= k < i ==> (#[trigger] db@[k]).q == q && db@[k].uint < q,
        decreases db_size - i,
    {
        let val = Element::gen_uniform_rand(q);
        db.push(val);
        i += 1;
    }
    db
}

/// Some admissible error value explains `v` as an encryption of `bit`.
pub open spec fn encrypts_bit(v: int, a_row: Seq<int>, s: Seq<int>, bit: int, q: int, p: int) -> bool {
    exists|e0: int| is_small_noise(e0, q) && v == enc_val(a_row, s, e0, bit, q, p)
}

/// The client's query: one ciphertext per database position, encrypting
/// 1 at the desired index and 0 elsewhere.
pub fn query(params: &Params, idx: usize, s: &Vec<Element>, db_size: usize) -> (r: Vec<Element>)
    requires
        params.wf(),
        params.m == 1,
        idx < db_size,
        s@.len() == params.n,
        forall|i: int| 0 <= i < s@.len() ==> (#[trigger] s@[i]).q == params.q,
    ensures
        r@.len() == db_size,
        forall|i: int| 0 <= i < db_size
            ==> (#[trigger] r@[i]).q == params.q && r@[i].uint < params.q,
        forall|i: int| 0 <= i < db_size
            ==> encrypts_bit(
                (#[trigger] r@[i]).uint as int,
                row_vals(params.a@[0]),
                row_vals(s@),
                if i == idx { 1int } else { 0int },
                params.q as int,
                params.p as int,
            ),
{
    let mut r: Vec<Element> = Vec::new();
    let mut i: usize = 0;
    while i < db_size
        invariant
            params.wf(),
            params.m == 1,
            idx < db_size,
            s@.len() == params.n,
            forall|t: int| 0 <= t < s@.len() ==> (#[trigger] s@[t]).q == params.q,
            i <= db_size,
            r@.len() == i,
            forall|t: int| 0 <= t < i
                ==> (#[trigger] r@[t]).q == params.q && r@[t].uint < params.q,
            forall|t: int| 0 <= t < i
                ==> encrypts_bit(
                    (#[trigger] r@[t]).uint as int,
                    row_vals(params.a@[0]),
                    row_vals(s@),
                    if t == idx { 1int } else { 0int },
                    params.q as int,
                    params.p as int,
                ),
        decreases db_size - i,
    {
        let bit: u64 = if i == idx {
            1
        } else {
            0
        };
        let e = gen_error_vec(params.q, params.m);
        let enc = encrypt(params, s, &e, &Element::from(params.p, bit));
        proof {
            let e0 = e@[0].uint as int;
            assert(is_small_noise(e0, params.q as int));
            assert(enc.uint == enc_val(
                row_vals(params.a@[0]),
                row_vals(s@),
                e0,
                if i as int == idx { 1int } else { 0int },
                params.q as int,
                params.p as int,
            ));
            assert(encrypts_bit(
                enc.uint as int,
                row_vals(params.a@[0]),
                row_vals(s@),
                if i as int == idx { 1int } else { 0int },
                params.q as int,
                params.p as int,
            ));
        }
        r.push(enc);
        i += 1;
    }
    r
}

/// The server's answer by the sum-if-one method: for each position
/// whose entry is 1, add the public matrix into a running matrix and the
/// corresponding ciphertext into a running scalar.
pub fn answer(params: &Params, query: &[Element], db: &[Element]) -> (r: (Matrix, Element))
    requires
        params.wf(),
        db@.len() <= query@.len(),
        forall|i: int| 0 <= i < query@.len() ==> (#[trigger] query@[i]).q == params.q,
    ensures
        r.0@.len() == params.m,
        forall|i: int| 0 <= i < params.m ==> (#[trigger] r.0@[i]).len() == params.n,
        forall|i: int, j: int|
            0 <= i < params.m && 0 <= j < params.n
                ==> (#[trigger] r.0@[i][j]).q == params.q
                    && r.0@[i][j].uint == mul_val(
                        ones(db@),
                        params.a@[i][j].uint as int,
                        params.q as int,
                    ),
        r.1.q == params.q,
        r.1.uint == sum_if_one(db@, row_vals(query@).take(db@.len() as int), params.q as int),
{
    let ghost qi = params.q as int;
    let zero = Element::zero(params.q);
    let mut summed_a = Matrix::from_val(params.m, params.n, zero);
    let mut summed_c = Element::zero(params.q);
    proof {
        assert forall|i: int, j: int| 0 <= i < params.m && 0 <= j < params.n
            implies mul_val(0, params.a@[i][j].uint as int, qi) == 0 by {
            lemma_zero_mul(params.a@[i][j].uint as int, qi);
        }
        assert(db@.take(0) =~= Seq::<Element>::empty());
        assert(row_vals(query@).take(db@.len() as int).take(0) =~= Seq::<int>::empty());
    }
    let mut t: usize = 0;
    while t < db.len()
        invariant
            params.wf(),
            db@.len() <= query@.len(),
            forall|i: int| 0 <= i < query@.len() ==> (#[trigger] query@[i]).q == params.q,
            t <= db@.len(),
            summed_a@.len() == params.m,
            forall|i: int| 0 <= i < params.m ==> (#[trigger] summed_a@[i]).len() == params.n,
            forall|i: int, j: int|
                0 <= i < params.m && 0 <= j < params.n
                    ==> (#[trigger] summed_a@[i][j]).q == params.q
                        && summed_a@[i][j].uint == mul_val(
                            ones(db@.take(t as int)),
                            params.a@[i][j].uint as int,
                            params.q as int,
                        ),
            summed_c.q == params.q,
            summed_c.uint == sum_if_one(
                db@.take(t as int),
                row_vals(query@).take(db@.len() as int).take(t as int),
                params.q as int,
            ),
        decreases db@.len() - t,
    {
        let ghost qi = params.q as int;
        let ghost qryv = row_vals(query@).take(db@.len() as int);
        proof {
            assert(db@.take(t + 1).drop_last() =~= db@.take(t as int));
            assert(qryv.take(t + 1).drop_last() =~= qryv.take(t as int));
            assert(db@.take(t + 1).last() == db@[t as int]);
            assert(qryv.take(t + 1).last() == query@[t as int].uint as int);
            assert(0 <= ones(db@.take(t as int))) by {
                lemma_ones_bound(db@.take(t as int));
            }
        }
        if db[t].uint == 1 {
            proof {
                assert forall|i: int, j: int| 0 <= i < params.m && 0 <= j < params.n
                    implies add_val(
                        mul_val(ones(db@.take(t as int)), params.a@[i][j].uint as int, qi),
                        params.a@[i][j].uint as int,
                        qi,
                    ) == mul_val(
                        ones(db@.take(t as int)) + 1,
                        params.a@[i][j].uint as int,
                        qi,
                    ) by {
                    lemma_mul_val_step(
                        ones(db@.take(t as int)),
                        params.a@[i][j].uint as int,
                        qi,
                    );
                }
            }
            summed_a.add_assign(params.a.clone());
            summed_c.add_assign(query[t]);
        }
        t += 1;
    }
    proof {
        assert(db@.take(db@.len() as int) =~= db@);
        let qryv = row_vals(query@).take(db@.len() as int);
        assert(qryv.take(db@.len() as int) =~= qryv);
    }
    (summed_a, summed_c)
}

/// The server's answer by the multiply-and-accumulate method: each
/// position contributes its entry times the public matrix and its entry
/// times the ciphertext, for general (not only bit) entries.
pub fn answer_q(params: &Params, query: &[Element], db: &[Element]) -> (r: (Matrix, Element))
    requires
        params.wf(),
        db@.len() <= query@.len(),
        forall|i: int| 0 <= i < query@.len() ==> (#[trigger] query@[i]).q == params.q,
        forall|i: int| 0 <= i < db@.len() ==> (#[trigger] db@[i]).uint < u64::MAX,
    ensures
        r.0@.len() == params.m,
        forall|i: int| 0 <= i < params.m ==> (#[trigger] r.0@[i]).len() == params.n,
        forall|i: int, j: int|
            0 <= i < params.m && 0 <= j < params.n
                ==> (#[trigger] r.0@[i][j]).q == params.q
                    && r.0@[i][j].uint == wsum(
                        row_vals(db@),
                        params.a@[i][j].uint as int,
                        params.q as int,
                    ),
        r.1.q == params.q,
        r.1.uint == dot(
            row_vals(query@).take(db@.len() as int),
            row_vals(db@),
            params.q as int,
        ),
{
    let ghost qi = params.q as int;
    let zero = Element::zero(params.q);
    let mut summed_a = Matrix::from_val(params.m, params.n, zero);
    let mut summed_c = Element::zero(params.q);
    proof {
        assert(row_vals(db@).take(0) =~= Seq::<int>::empty());
        assert(row_vals(query@).take(db@.len() as int).take(0) =~= Seq::<int>::empty());
    }
    let mut t: usize = 0;
    while t < db.len()
        invariant
            params.wf(),
            db@.len() <= query@.len(),
            forall|i: int| 0 <= i < query@.len() ==> (#[trigger] query@[i]).q == params.q,
            forall|i: int| 0 <= i < db@.len() ==> (#[trigger] db@[i]).uint < u64::MAX,
            t <= db@.len(),
            summed_a@.len() == params.m,
            forall|i: int| 0 <= i < params.m ==> (#[trigger] summed_a@[i]).len() == params.n,
            forall|i: int, j: int|
                0 <= i < params.m && 0 <= j < params.n
                    ==> (#[trigger] summed_a@[i][j]).q == params.q
                        && summed_a@[i][j].uint == wsum(
                            row_vals(db@).take(t as int),
                            params.a@[i][j].uint as int,
                            params.q as int,
                        ),
            summed_c.q == params.q,
            summed_c.uint == dot(
                row_vals(query@).take(db@.len() as int).take(t as int),
                row_vals(db@).take(t as int),
                params.q as int,
            ),
        decreases db@.len() - t,
    {
        let ghost qi = params.q as int;
        let ghost dbv = row_vals(db@);
        let ghost qryv = row_vals(query@).take(db@.len() as int);
        proof {
            assert(dbv.take(t + 1).drop_last() =~= dbv.take(t as int));
            assert(qryv.take(t + 1).drop_last() =~= qryv.take(t as int));
            assert(dbv.take(t + 1).last() == db@[t as int].uint as int);
            assert(qryv.take(t + 1).last() == query@[t as int].uint as int);
        }
        let db_item = Element::from(params.q, db[t].uint);
        summed_a.add_assign(params.a.clone().mul_elem(&db_item));
        proof {
            assert forall|i: int, j: int| 0 <= i < params.m && 0 <= j < params.n
                implies add_val(
                    wsum(dbv.take(t as int), params.a@[i][j].uint as int, qi),
                    mul_val(params.a@[i][j].uint as int, db@[t as int].uint as int, qi),
                    qi,
                ) == wsum(dbv.take(t + 1), params.a@[i][j].uint as int, qi) by {
                assert(wsum(dbv.take(t + 1), params.a@[i][j].uint as int, qi) == add_val(
                    wsum(dbv.take(t as int), params.a@[i][j].uint as int, qi),
                    mul_val(params.a@[i][j].uint as int, dbv.take(t + 1).last(), qi),
                    qi,
                ));
            }
        }
        summed_c.add_assign(query[t] * db_item);
        t += 1;
    }
    proof {
        assert(row_vals(db@).take(db@.len() as int) =~= row_vals(db@));
        let qryv = row_vals(query@).take(db@.len() as int);
        assert(qryv.take(db@.len() as int) =~= qryv);
    }
    (summed_a, summed_c)
}

/// The weighted modular sum of the entries of `db`, each multiplied by
/// the fixed scalar `x`, accumulated left to right.
pub open spec fn wsum(db: Seq<int>, x: int, q: int) -> int
    decreases db.len(),
{
    if db.len() == 0 {
        0
    } else {
        add_val(wsum(db.drop_last(), x, q), mul_val(x, db.last(), q), q)
    }
}

/// Repeated modular addition of `x` is modular multiplication by the
/// count.
proof fn lemma_mul_val_step(t: int, x: int, q: int)
    requires
        q > 0,
        t >= 0,
        x >= 0,
    ensures
        add_val(mul_val(t, x, q), x, q) == mul_val(t + 1, x, q),
{
    assert(((t * x) % q + x) % q == (t * x + x) % q) by {
        vstd::arithmetic::div_mod::lemma_add_mod_noop(t * x, x, q);
        vstd::arithmetic::div_mod::lemma_add_mod_noop_right((t * x) % q, x, q);
    }
    assert(t * x + x == (t + 1) * x) by {
        vstd::arithmetic::mul::lemma_mul_is_distributive_add_other_way(x, t, 1);
    }
}

/// The count of ones lies between zero and the database size.
proof fn lemma_ones_bound(db: Seq<Element>)
    ensures
        0 <= ones(db) <= db.len(),
    decreases db.len(),
{
    if db.len() > 0 {
        lemma_ones_bound(db.drop_last());
    }
}

/// The modular product with zero is zero.
proof fn lemma_zero_mul(x: int, q: int)
    requires
        q > 0,
    ensures
        mul_val(0, x, q) == 0,
{
    vstd::arithmetic::div_mod::lemma_small_mod(0, q as nat);
}


/// The sum over the selected positions, without any reduction.
pub open spec fn sum_if_one_plain(db: Seq<Element>, u: Seq<int>) -> int
    decreases db.len(),
{
    if db.len() == 0 {
        0
    } else {
        sum_if_one_plain(db.drop_last(), u.drop_last()) + if db.last().uint == 1 {
            u.last()
        } else {
            0
        }
    }
}

/// The reducing selected-sum is the plain selected-sum reduced modulo
/// `q`.
proof fn lemma_sum_if_one_is_mod(db: Seq<Element>, u: Seq<int>, q: int)
    requires
        q > 0,
    ensures
        sum_if_one(db, u, q) == sum_if_one_plain(db, u) % q,
    decreases db.len(),
{
    if db.len() == 0 {
        vstd::arithmetic::div_mod::lemma_small_mod(0, q as nat);
    } else {
        lemma_sum_if_one_is_mod(db.drop_last(), u.drop_last(), q);
        if db.last().uint == 1 {
            vstd::arithmetic::div_mod::lemma_add_mod_noop(
                sum_if_one_plain(db.drop_last(), u.drop_last()),
                u.last(),
                q,
            );
            vstd::arithmetic::div_mod::lemma_add_mod_noop_right(
                sum_if_one_plain(db.drop_last(), u.drop_last()) % q,
                u.last(),
                q,
            );
        }
    }
}

/// Replacing the summed vector by one congruent modulo `q` pointwise
/// leaves the plain selected-sum congruent modulo `q`.
proof fn lemma_sum_if_one_plain_mod(db: Seq<Element>, u: Seq<int>, v: Seq<int>, q: int)
    requires
        q > 0,
        u.len() == v.len(),
        db.len() <= u.len(),
        forall|i: int| 0 <= i < u.len() ==> #[trigger] (u[i] % q) == v[i] % q,
    ensures
        sum_if_one_plain(db, u.take(db.len() as int)) % q
            == sum_if_one_plain(db, v.take(db.len() as int)) % q,
    decreases db.len(),
{
    if db.len() == 0 {
    } else {
        let len = db.len() as int;
        lemma_sum_if_one_plain_mod(db.drop_last(), u, v, q);
        assert(u.take(len).drop_last() =~= u.take(len - 1));
        assert(v.take(len).drop_last() =~= v.take(len - 1));
        assert(db.drop_last().len() == len - 1);
        let pu = sum_if_one_plain(db.drop_last(), u.take(len - 1));
        let pv = sum_if_one_plain(db.drop_last(), v.take(len - 1));
        if db.last().uint == 1 {
            assert(u.take(len).last() == u[len - 1]);
            assert(v.take(len).last() == v[len - 1]);
            assert(u[len - 1] % q == v[len - 1] % q);
            vstd::arithmetic::div_mod::lemma_add_mod_noop(pu, u[len - 1], q);
            vstd::arithmetic::div_mod::lemma_add_mod_noop(pv, v[len - 1], q);
        }
    }
}

/// The plain selected-sum of a pointwise sum splits.
proof fn lemma_sum_if_one_plain_add(db: Seq<Element>, u: Seq<int>, v: Seq<int>, w: Seq<int>)
    requires
        db.len() == u.len(),
        u.len() == v.len(),
        v.len() == w.len(),
        forall|i: int| 0 <= i < w.len() ==> #[trigger] w[i] == u[i] + v[i],
    ensures
        sum_if_one_plain(db, w) == sum_if_one_plain(db, u) + sum_if_one_plain(db, v),
    decreases db.len(),
{
    if db.len() > 0 {
        lemma_sum_if_one_plain_add(db.drop_last(), u.drop_last(), v.drop_last(), w.drop_last());
        assert(w[w.len() - 1] == u[u.len() - 1] + v[v.len() - 1]);
    }
}

/// The plain selected-sum of a constant vector counts the ones.
proof fn lemma_sum_if_one_plain_const(db: Seq<Element>, u: Seq<int>, cv: int)
    requires
        db.len() == u.len(),
        forall|i: int| 0 <= i < u.len() ==> #[trigger] u[i] == cv,
    ensures
        sum_if_one_plain(db, u) == ones(db) * cv,
    decreases db.len(),
{
    if db.len() == 0 {
        assert(ones(db) == 0);
        assert(ones(db) * cv == 0) by (nonlinear_arith)
            requires
                ones(db) == 0;
    } else {
        lemma_sum_if_one_plain_const(db.drop_last(), u.drop_last(), cv);
        assert(u[u.len() - 1] == cv);
        let t = ones(db.drop_last());
        if db.last().uint == 1 {
            assert(t * cv + cv == (t + 1) * cv) by (nonlinear_arith);
        }
    }
}

/// The plain selected-sum of a one-hot vector contributes only when the
/// selected position holds a one.
proof fn lemma_sum_if_one_plain_onehot(db: Seq<Element>, u: Seq<int>, pos: int, delta: int)
    requires
        db.len() == u.len(),
        0 <= pos < u.len(),
        forall|i: int| 0 <= i < u.len()
            ==> #[trigger] u[i] == if i == pos { delta } else { 0 },
    ensures
        sum_if_one_plain(db, u) == if db[pos].uint == 1 { delta } else { 0 },
    decreases db.len(),
{
    if pos == db.len() - 1 {
        assert(u[u.len() - 1] == delta);
        assert forall|i: int| 0 <= i < u.len() - 1 implies #[trigger] u.drop_last()[i] == 0 by {
            assert(u[i] == 0);
        }
        lemma_sum_if_one_plain_zero(db.drop_last(), u.drop_last());
    } else {
        assert(u[u.len() - 1] == 0);
        assert forall|i: int| 0 <= i < u.len() - 1
            implies #[trigger] u.drop_last()[i] == if i == pos { delta } else { 0 } by {
            assert(u[i] == if i == pos { delta } else { 0 });
        }
        lemma_sum_if_one_plain_onehot(db.drop_last(), u.drop_last(), pos, delta);
    }
}

/// The plain selected-sum of an all-zero vector is zero.
proof fn lemma_sum_if_one_plain_zero(db: Seq<Element>, u: Seq<int>)
    requires
        db.len() == u.len(),
        forall|i: int| 0 <= i < u.len() ==> #[trigger] u[i] == 0,
    ensures
        sum_if_one_plain(db, u) == 0,
    decreases db.len(),
{
    if db.len() > 0 {
        lemma_sum_if_one_plain_zero(db.drop_last(), u.drop_last());
        assert(u[u.len() - 1] == 0);
    }
}

/// The plain selected-sum of small values is small.
proof fn lemma_sum_if_one_plain_range(db: Seq<Element>, u: Seq<int>, lo: int, hi: int)
    requires
        db.len() == u.len(),
        lo <= 0 <= hi,
        forall|i: int| 0 <= i < u.len() ==> lo <= #[trigger] u[i] <= hi,
    ensures
        db.len() * lo <= sum_if_one_plain(db, u),
        sum_if_one_plain(db, u) <= db.len() * hi,
    decreases db.len(),
{
    if db.len() == 0 {
        assert(db.len() * lo == 0) by (nonlinear_arith)
            requires
                db.len() == 0;
        assert(db.len() * hi == 0) by (nonlinear_arith)
            requires
                db.len() == 0;
    } else {
        lemma_sum_if_one_plain_range(db.drop_last(), u.drop_last(), lo, hi);
        assert(lo <= u[u.len() - 1] <= hi);
        assert(db.len() * lo == (db.len() - 1) * lo + lo) by (nonlinear_arith);
        assert(db.len() * hi == (db.len() - 1) * hi + hi) by (nonlinear_arith);
        let prev = sum_if_one_plain(db.drop_last(), u.drop_last());
        assert(db.drop_last().len() * lo <= prev);
        assert(prev <= db.drop_last().len() * hi);
        assert(db.drop_last().len() == db.len() - 1);
        assert(db.drop_last().len() * lo == (db.len() - 1) * lo) by (nonlinear_arith)
            requires
                db.drop_last().len() == db.len() - 1;
        assert(db.drop_last().len() * hi == (db.len() - 1) * hi) by (nonlinear_arith)
            requires
                db.drop_last().len() == db.len() - 1;
        if db.last().uint == 1 {
            assert(sum_if_one_plain(db, u) == prev + u.last());
        } else {
            assert(sum_if_one_plain(db, u) == prev);
        }
    }
}

/// The didactic protocol recovers its target bit: summing the public
/// matrix and the ciphertexts over the selected positions and then
/// decrypting returns the database bit at the queried index, whenever
/// the noise window is open.
pub proof fn lemma_toypir_round_trip(
    a_row: Seq<int>,
    s: Seq<int>,
    db: Seq<Element>,
    qv: Seq<Element>,
    sa_row: Seq<int>,
    sc: int,
    idx: int,
    q: int,
    p: int,
)
    requires
        1 < p,
        p < q,
        a_row.len() == s.len(),
        0 <= idx < db.len(),
        db.len() <= qv.len(),
        forall|i: int| 0 <= i < db.len()
            ==> (#[trigger] db[i]).uint == 0 || db[i].uint == 1,
        forall|i: int| 0 <= i < db.len()
            ==> encrypts_bit(
                (#[trigger] qv[i]).uint as int,
                a_row,
                s,
                if i == idx { 1int } else { 0int },
                q,
                p,
            ),
        sa_row.len() == a_row.len(),
        forall|j: int| 0 <= j < a_row.len()
            ==> #[trigger] sa_row[j] == mul_val(ones(db), a_row[j], q),
        sc == sum_if_one(db, row_vals(qv).take(db.len() as int), q),
        2 * (3 * p * db.len() + p * p) < q,
    ensures
        dec_val(sa_row, s, sc, q, p) == db[idx].uint,
{
    let len = db.len() as int;
    let t = ones(db);
    let base = dot_plain(a_row, s);
    let dd = q / p;
    let rho = q % p;
    lemma_ones_bound(db);
    assert(q >= 7) by (nonlinear_arith)
        requires
            2 <= p,
            len >= 1,
            2 * (3 * p * len + p * p) < q;
    // Pull one admissible error value out of each ciphertext
    let epss = Seq::new(len as nat, |i: int| choose|e0: int|
        is_small_noise(e0, q) && qv[i].uint == enc_val(
            a_row,
            s,
            e0,
            if i == idx { 1int } else { 0int },
            q,
            p,
        ));
    assert forall|i: int| 0 <= i < len implies is_small_noise(#[trigger] epss[i], q)
        && qv[i].uint == enc_val(a_row, s, epss[i], if i == idx { 1int } else { 0int }, q, p) by {
        assert(encrypts_bit(qv[i].uint as int, a_row, s, if i == idx { 1int } else { 0int }, q, p));
    }
    // Each ciphertext is congruent to its plain value with lifted noise
    let lifts = Seq::new(len as nat, |i: int| noise_lift(epss[i], q));
    let bumps = Seq::new(len as nat, |i: int| if i == idx { dd } else { 0 });
    let consts = Seq::new(len as nat, |i: int| base);
    let tail = Seq::new(len as nat, |i: int| lifts[i] + bumps[i]);
    let u = Seq::new(len as nat, |i: int| consts[i] + tail[i]);
    assert forall|i: int| 0 <= i < len
        implies #[trigger] (row_vals(qv)[i] % q) == u[i] % q by {
        lemma_enc_val_plain(a_row, s, epss[i], if i == idx { 1int } else { 0int }, q, p);
        lemma_noise_lift(epss[i], q);
        let bit: int = if i == idx { 1 } else { 0 };
        assert(dd * bit == bumps[i]) by (nonlinear_arith)
            requires
                bit == if i == idx { 1int } else { 0int },
                bumps[i] == if i == idx { dd } else { 0 };
        assert(qv[i].uint == (base + epss[i] + bumps[i]) % q);
        assert((base + epss[i] + bumps[i]) % q == (base + lifts[i] + bumps[i]) % q) by {
            lemma_cong_add(epss[i], lifts[i], base + bumps[i], q);
        }
        vstd::arithmetic::div_mod::lemma_mod_twice(base + epss[i] + bumps[i], q);
    }
    // The summed ciphertext, with the reductions pulled out
    let qvals = row_vals(qv).take(len);
    lemma_sum_if_one_is_mod(db, qvals, q);
    lemma_sum_if_one_plain_mod(db, row_vals(qv), u.add(row_vals(qv).skip(len)), q);
    assert(u.add(row_vals(qv).skip(len)).take(len) =~= u);
    assert forall|i: int| 0 <= i < row_vals(qv).len()
        implies #[trigger] (row_vals(qv)[i] % q) == u.add(row_vals(qv).skip(len))[i] % q by {
        if i < len {
        } else {
            assert(u.add(row_vals(qv).skip(len))[i] == row_vals(qv)[i]);
        }
    }
    assert(row_vals(qv).take(len) =~= qvals);
    assert(sc == sum_if_one_plain(db, u) % q);
    lemma_sum_if_one_plain_add(db, consts, tail, u);
    lemma_sum_if_one_plain_add(db, lifts, bumps, tail);
    lemma_sum_if_one_plain_const(db, consts, base);
    lemma_sum_if_one_plain_onehot(db, bumps, idx, dd);
    let noise_sum = sum_if_one_plain(db, lifts);
    let v: int = if db[idx].uint == 1 { 1 } else { 0 };
    assert(sum_if_one_plain(db, u) == t * base + noise_sum + dd * v) by (nonlinear_arith)
        requires
            sum_if_one_plain(db, u) == t * base + (noise_sum + (if db[idx].uint == 1 { dd } else { 0 })),
            v == if db[idx].uint == 1 { 1int } else { 0int },
            dd * v == if db[idx].uint == 1 { dd } else { 0 };
    // The summed public row times the secret is the base part
    let yt = Seq::new(a_row.len(), |j: int| t * a_row[j]);
    lemma_dot_is_mod(sa_row, s, q);
    assert forall|j: int| 0 <= j < sa_row.len()
        implies #[trigger] (sa_row[j] % q) == yt[j] % q by {
        assert(sa_row[j] == (t * a_row[j]) % q) by {
            assert(sa_row[j] == mul_val(t, a_row[j], q));
        }
        vstd::arithmetic::div_mod::lemma_mod_twice(t * a_row[j], q);
    }
    lemma_dot_plain_mod_left(sa_row, yt, s, q);
    lemma_dot_plain_scale_left(yt, a_row, s, t);
    assert(dot(sa_row, s, q) == (t * base) % q);
    // Strip and round
    lemma_strip(sum_if_one_plain(db, u), t * base, q);
    let x = sub_val(sc, dot(sa_row, s, q), q);
    assert(x == (noise_sum + dd * v) % q);
    assert(x == (dd * v + noise_sum) % q);
    // The disturbance stays inside the window
    assert forall|i: int| 0 <= i < len implies -3 <= #[trigger] lifts[i] <= 2 by {
        lemma_noise_lift(epss[i], q);
    }
    lemma_sum_if_one_plain_range(db, lifts, -3, 2);
    vstd::arithmetic::div_mod::lemma_mod_bound(q, p);
    assert(-q < 2 * (noise_sum * p - rho * v) && 2 * (noise_sum * p - rho * v) < q)
        by (nonlinear_arith)
        requires
            len * -3 <= noise_sum,
            noise_sum <= len * 2,
            0 <= rho < p,
            0 <= v <= 1,
            2 <= p,
            1 <= len,
            2 * (3 * p * len + p * p) < q;
    lemma_round_scale_mod(q, p, v, noise_sum, x);
    vstd::arithmetic::div_mod::lemma_small_mod(v as nat, p as nat);
    assert(v == db[idx].uint);
}

} // verus!
