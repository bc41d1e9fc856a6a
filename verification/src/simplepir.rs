//! SimplePIR: the client sends one LWE vector selecting a database row;
//! the server answers with the database times that vector; the client
//! strips a precomputed hint times its secret and rounds to recover a
//! full plaintext column.

use vstd::prelude::*;
use crate::arith::{add_val, sub_val, round_scale, round_scaled};
use crate::arith::{lemma_strip, lemma_cong_add, lemma_round_scale_mod};
use crate::element::Element;
use crate::matrix::{Matrix, copy_row};
use crate::linalg::{dot, dot_plain, col_of, row_vals, vals, lemma_dot_bound, lemma_dot_is_mod};
use crate::linalg::{lemma_dot_plain_mod_left, lemma_dot_plain_mod_right, lemma_dot_plain_add_right};
use crate::linalg::{lemma_dot_plain_onehot, lemma_dot_plain_range, lemma_dot_plain_exchange};
use crate::regev::{is_small_noise, noise_lift, lemma_noise_lift, gen_error_vec};

verus! {

pub struct SimplePIRParams {
    /// Public A matrix, `m` outer entries of `n` scalars each.
    pub a: Matrix,
    /// The integer modulus.
    pub q: u64,
    /// The plaintext modulus.
    pub p: u64,
    /// The LWE secret length.
    pub n: usize,
    /// The number of samples, and the side of the square database.
    pub m: usize,
}

impl SimplePIRParams {
    /// Shapes and moduli agree, and the moduli leave room for exact
    /// integer rounding.
    pub open spec fn wf(self) -> bool {
        &&& self.a@.len() == self.m
        &&& (forall|i: int| 0 <= i < self.m ==> (#[trigger] self.a@[i]).len() == self.n)
        &&& self.a.all_q(self.q)
        &&& 1 < self.p
        &&& self.p < self.q
        &&& self.q < 0x8000000000000000
        &&& self.n >= 1
        &&& self.m >= 1
    }
}

/// Some admissible error value explains `v` as one entry of a query:
/// `a_row * s + e`, plus `floor(q/p)` when the entry is the selected one.
pub open spec fn query_entry(v: int, a_row: Seq<int>, s: Seq<int>, sel: bool, q: int, p: int) -> bool {
    exists|e0: int|
        is_small_noise(e0, q) && v == if sel {
            add_val(add_val(dot(a_row, s, q), e0, q), q / p, q)
        } else {
            add_val(dot(a_row, s, q), e0, q)
        }
}

/// The reference parameter set: an 8-by-8 database, secret length 64,
/// moduli 3329 and 2.
pub fn gen_params() -> (r: SimplePIRParams)
    ensures
        r.wf(),
        r.m == 8,
        r.n == 64,
        r.q == 3329,
        r.p == 2,
        r.a.all_reduced(),
{
    let m: usize = 8;
    let n: usize = 64;
    let q: u64 = 3329;
    let p: u64 = 2;
    let a = Matrix::gen_uniform_rand(q, n, m);
    SimplePIRParams { a, q, p, n, m }
}

/// Generate a square database of random values modulo the plaintext
/// modulus `p`.
pub fn gen_db(params: &SimplePIRParams) -> (db: Matrix)
    requires
        params.wf(),
    ensures
        db@.len() == params.m,
        forall|i: int| 0 <= i < params.m ==> (#[trigger] db@[i]).len() == params.m,
        db.wf(params.p),
        db.all_reduced(),
{
    Matrix::gen_uniform_rand(params.p, params.m, params.m)
}

/// The client's hint: the database, lifted to modulus `q`, multiplied
/// by the public matrix.  Also known as the setup.
pub fn gen_hint(params: &SimplePIRParams, db: &Matrix) -> (h: Matrix)
    requires
        params.wf(),
        db@.len() > 0,
        db.rect(),
        db.spec_rows() == params.m,
    ensures
        h@.len() == db@.len(),
        forall|i: int| 0 <= i < db@.len() ==> (#[trigger] h@[i]).len() == params.n,
        forall|i: int, j: int|
            0 <= i < db@.len() && 0 <= j < params.n
                ==> (#[trigger] h@[i][j]).q == params.q
                    && h@[i][j].uint == dot(
                        vals(db@)[i],
                        crate::linalg::col_of(vals(params.a@), j),
                        params.q as int,
                    ),
{
    let mut db_q = db.clone();
    db_q.change_q(params.q);
    proof {
        assert(db_q.spec_q() == params.q);
        assert(db_q.rect());
        assert(db_q.all_q(params.q));
        assert forall|i: int| 0 <= i < db@.len() implies vals(db_q@)[i] =~= vals(db@)[i] by {
            assert(forall|j: int| 0 <= j < db@[i].len()
                ==> db_q@[i][j].uint == #[trigger] db@[i][j].uint);
        }
    }
    let h = db_q.mul(params.a.clone());
    h
}

/// The client's query: `A*s + e`, with `floor(q/p)` added at the entry
/// of the desired row index.
pub fn query(params: &SimplePIRParams, idx: usize, s: &Vec<Element>) -> (r: Vec<Element>)
    requires
        params.wf(),
        idx < params.m,
        s@.len() == params.n,
        forall|i: int| 0 <= i < s@.len() ==> (#[trigger] s@[i]).q == params.q,
    ensures
        r@.len() == params.m,
        forall|i: int| 0 <= i < params.m
            ==> (#[trigger] r@[i]).q == params.q && r@[i].uint < params.q,
        forall|i: int| 0 <= i < params.m
            ==> query_entry(
                (#[trigger] r@[i]).uint as int,
                row_vals(params.a@[i]),
                row_vals(s@),
                i == idx,
                params.q as int,
                params.p as int,
            ),
{
    let ghost qi = params.q as int;
    proof {
        assert(params.a.spec_rows() == params.n);
        assert(params.a.spec_q() == params.q);
    }
    // q / p
    let floor = params.q / params.p;
    // The error term
    let e = gen_error_vec(params.q, params.m);
    let err_matrix = Matrix::from_col(&e);
    // query = A * s + e + q/p * u_idx
    let mut query = params.a.clone().mul_vec(s);
    proof {
        assert forall|i: int| 0 <= i < params.m
            implies vals(params.a@)[i] =~= row_vals(params.a@[i]) by {}
    }
    query.add_assign(err_matrix.rotated());
    proof {
        assert forall|i: int| 0 <= i < params.m
            implies #[trigger] dot(row_vals(params.a@[i]), row_vals(s@), qi) < qi by {
            lemma_dot_bound(row_vals(params.a@[i]), row_vals(s@), qi);
        }
        assert(query@.len() == params.m);
        assert forall|i: int| 0 <= i < params.m
            implies (#[trigger] query@[i]).len() == 1 && query@[i][0].q == params.q
                && query@[i][0].uint == add_val(
                    dot(row_vals(params.a@[i]), row_vals(s@), qi),
                    e@[i].uint as int,
                    qi,
                ) by {}
    }
    let ghost mid = query@;
    proof {
        assert(query.data@.len() == query@.len());
        assert(query.data@[idx as int]@ == query@[idx as int]);
        assert(query@[idx as int].len() == 1);
        assert(query@[idx as int][0].q == params.q);
    }
    // Add q/p only at the index of the desired row
    let bumped = query.data[idx][0] + Element::from(params.q, floor);
    query.set_entry(idx, 0, bumped);
    proof {
        assert(query@.len() == params.m);
        assert forall|i: int| 0 <= i < params.m
            implies (#[trigger] query@[i]).len() == 1 by {
            if i != idx {
                assert(query@[i] == mid[i]);
            }
        }
        assert(query.rect());
    }
    let rot = query.rotated();
    proof {
        assert(rot.data@.len() == rot@.len());
        assert(rot@.len() == 1);
        assert(rot.data@[0]@ == rot@[0]);
        assert(rot@[0].len() == params.m);
    }
    let out = copy_row(&rot.data[0]);
    proof {
        assert(out@.len() == params.m);
        assert forall|i: int| 0 <= i < params.m implies query_entry(
            out@[i].uint as int,
            row_vals(params.a@[i]),
            row_vals(s@),
            i == idx,
            qi,
            params.p as int,
        ) by {
            let e0 = e@[i].uint as int;
            assert(is_small_noise(e0, qi));
            assert(rot@[0][i] == query@[i][0]);
            assert(out@[i] == rot@[0][i]);
            if i != idx {
                assert(query@[i] == mid[i]);
            }
            if i == idx {
                assert(out@[i].uint == add_val(
                    add_val(dot(row_vals(params.a@[i]), row_vals(s@), qi), e0, qi),
                    qi / params.p as int,
                    qi,
                ));
            } else {
                assert(out@[i].uint == add_val(
                    dot(row_vals(params.a@[i]), row_vals(s@), qi),
                    e0,
                    qi,
                ));
            }
        }
    }
    out
}

/// The server's answer: the database, lifted to the query's modulus,
/// times the query vector.
pub fn answer(query: &Vec<Element>, db: &Matrix) -> (r: Matrix)
    requires
        query@.len() > 0,
        query@[0].q >= 1,
        forall|i: int| 0 <= i < query@.len() ==> (#[trigger] query@[i]).q == query@[0].q,
        db@.len() > 0,
        db.rect(),
        db.spec_rows() == query@.len(),
    ensures
        r@.len() == db@.len(),
        forall|i: int| 0 <= i < db@.len() ==> (#[trigger] r@[i]).len() == 1,
        forall|i: int| 0 <= i < db@.len()
            ==> (#[trigger] r@[i][0]).q == query@[0].q
                && r@[i][0].uint == dot(vals(db@)[i], row_vals(query@), query@[0].q as int)
                && r@[i][0].uint < query@[0].q,
{
    let ghost qi = query@[0].q as int;
    let mut db_q = db.clone();
    db_q.change_q(query[0].q);
    proof {
        assert(db_q.spec_q() == query@[0].q);
        assert(db_q.rect());
        assert(db_q.all_q(query@[0].q));
        assert forall|i: int| 0 <= i < db@.len() implies vals(db_q@)[i] =~= vals(db@)[i] by {
            assert(forall|j: int| 0 <= j < db@[i].len()
                ==> db_q@[i][j].uint == #[trigger] db@[i][j].uint);
        }
    }
    let r = db_q.mul_vec(query);
    proof {
        assert forall|i: int| 0 <= i < db@.len()
            implies #[trigger] dot(vals(db@)[i], row_vals(query@), qi) < qi by {
            lemma_dot_bound(vals(db@)[i], row_vals(query@), qi);
        }
    }
    r
}

/// The client's recovery of a full database row: the answer with the
/// hint times the secret stripped, each entry rounded by `p/q`.
pub fn recover_row(
    params: &SimplePIRParams,
    s: &Vec<Element>,
    hint: &Matrix,
    answer: &Matrix,
) -> (r: Vec<Element>)
    requires
        params.wf(),
        s@.len() == params.n,
        forall|i: int| 0 <= i < s@.len() ==> (#[trigger] s@[i]).q == params.q,
        hint@.len() == answer@.len(),
        hint@.len() > 0,
        hint.rect(),
        hint.spec_rows() == params.n,
        hint.all_q(params.q),
        forall|i: int| 0 <= i < answer@.len() ==> (#[trigger] answer@[i]).len() == 1,
        forall|i: int| 0 <= i < answer@.len()
            ==> (#[trigger] answer@[i][0]).q == params.q && answer@[i][0].uint < params.q,
    ensures
        r@.len() == answer@.len(),
        forall|i: int| 0 <= i < answer@.len()
            ==> (#[trigger] r@[i]).q == params.p
                && r@[i].uint == round_scale(
                    sub_val(
                        answer@[i][0].uint as int,
                        dot(vals(hint@)[i], row_vals(s@), params.q as int),
                        params.q as int,
                    ),
                    params.p as int,
                    params.q as int,
                ),
{
    let ghost qi = params.q as int;
    proof {
        assert(hint.spec_q() == params.q);
    }
    let interim = hint.clone().mul_vec(s);
    let mut ans = answer.clone();
    ans.sub_assign(interim);
    proof {
        assert forall|i: int| 0 <= i < answer@.len()
            implies 0 <= #[trigger] dot(vals(hint@)[i], row_vals(s@), qi) < qi by {
            lemma_dot_bound(vals(hint@)[i], row_vals(s@), qi);
        }
    }
    let p = params.p;
    let mut r: Vec<Element> = Vec::new();
    let mut i: usize = 0;
    while i < ans.data.len()
        invariant
            params.wf(),
            p == params.p,
            ans@.len() == answer@.len(),
            forall|k: int| 0 <= k < answer@.len() ==> (#[trigger] ans@[k]).len() == 1,
            forall|k: int| 0 <= k < answer@.len()
                ==> (#[trigger] ans@[k][0]).q == params.q
                    && ans@[k][0].uint == sub_val(
                        answer@[k][0].uint as int,
                        dot(vals(hint@)[k], row_vals(s@), params.q as int),
                        params.q as int,
                    )
                    && ans@[k][0].uint < params.q,
            i <= answer@.len(),
            r@.len() == i,
            forall|k: int| 0 <= k < i
                ==> (#[trigger] r@[k]).q == params.p
                    && r@[k].uint == round_scale(
                        sub_val(
                            answer@[k][0].uint as int,
                            dot(vals(hint@)[k], row_vals(s@), params.q as int),
                            params.q as int,
                        ),
                        params.p as int,
                        params.q as int,
                    ),
        decreases ans@.len() - i,
    {
        proof {
            assert(ans.data@.len() == ans@.len());
            assert(ans.data@[i as int]@ == ans@[i as int]);
            assert(ans@[i as int].len() == 1);
            assert(ans@[i as int][0].uint < params.q);
        }
        let x = round_scaled(ans.data[i][0].uint, p, params.q);
        r.push(Element::from(p, x));
        i += 1;
    }
    r
}

/// The client's recovery of a single entry: as `recover_row`, read at
/// the desired column index.
pub fn recover(
    params: &SimplePIRParams,
    s: &Vec<Element>,
    idx: usize,
    hint: &Matrix,
    answer: &Matrix,
) -> (r: Element)
    requires
        params.wf(),
        s@.len() == params.n,
        forall|i: int| 0 <= i < s@.len() ==> (#[trigger] s@[i]).q == params.q,
        hint@.len() == answer@.len(),
        hint@.len() > 0,
        hint.rect(),
        hint.spec_rows() == params.n,
        hint.all_q(params.q),
        forall|i: int| 0 <= i < answer@.len() ==> (#[trigger] answer@[i]).len() == 1,
        forall|i: int| 0 <= i < answer@.len()
            ==> (#[trigger] answer@[i][0]).q == params.q && answer@[i][0].uint < params.q,
        idx < answer@.len(),
    ensures
        r.q == params.p,
        r.uint == round_scale(
            sub_val(
                answer@[idx as int][0].uint as int,
                dot(vals(hint@)[idx as int], row_vals(s@), params.q as int),
                params.q as int,
            ),
            params.p as int,
            params.q as int,
        ),
{
    let ghost qi = params.q as int;
    proof {
        assert(hint.spec_q() == params.q);
    }
    let interim = hint.clone().mul_vec(s);
    let mut ans = answer.clone();
    ans.sub_assign(interim);
    proof {
        assert forall|i: int| 0 <= i < answer@.len()
            implies 0 <= #[trigger] dot(vals(hint@)[i], row_vals(s@), qi) < qi by {
            lemma_dot_bound(vals(hint@)[i], row_vals(s@), qi);
        }
        assert(ans@[idx as int][0].uint < params.q);
        assert(ans.data@.len() == ans@.len());
        assert(ans.data@[idx as int]@ == ans@[idx as int]);
        assert(ans@[idx as int].len() == 1);
    }
    let x = round_scaled(ans.data[idx][0].uint, params.p, params.q);
    Element::from(params.p, x)
}


/// SimplePIR recovery is exact.  For a database column `c` with entries
/// reduced modulo `p`, a hint row holding that column dotted with each
/// column of the public matrix, a query whose entries encrypt a one-hot
/// selection of `row` under the secret `s`, and the answer entry for
/// column `c`, the rounded difference computed by recovery equals the
/// database entry at `(c, row)` whenever the noise window is open.
pub proof fn lemma_lwe_recover_entry(
    a: Seq<Seq<Element>>,
    s: Seq<int>,
    colv: Seq<int>,
    qv: Seq<Element>,
    hint_row: Seq<int>,
    ans_c: int,
    row: int,
    q: int,
    p: int,
)
    requires
        1 < p,
        p < q,
        0 <= row < qv.len(),
        a.len() == qv.len(),
        forall|i: int| 0 <= i < a.len() ==> (#[trigger] a[i]).len() == s.len(),
        colv.len() == qv.len(),
        forall|i: int| 0 <= i < colv.len() ==> 0 <= #[trigger] colv[i] < p,
        forall|i: int| 0 <= i < qv.len()
            ==> query_entry((#[trigger] qv[i]).uint as int, row_vals(a[i]), s, i == row, q, p),
        hint_row.len() == s.len(),
        forall|j: int| 0 <= j < s.len()
            ==> #[trigger] hint_row[j] == dot(colv, col_of(vals(a), j), q),
        ans_c == dot(colv, row_vals(qv), q),
        2 * (3 * p * p * qv.len() + p * p) < q,
    ensures
        round_scale(sub_val(ans_c, dot(hint_row, s, q), q), p, q) == colv[row],
{
    let m = qv.len() as int;
    let n = s.len() as int;
    let dbc = colv;
    let dd = q / p;
    let rho = q % p;
    assert(q >= 7) by (nonlinear_arith)
        requires
            2 <= p,
            m >= 1,
            2 * (3 * p * p * m + p * p) < q;
    // Pull one admissible error value out of each query entry
    let epss = Seq::new(m as nat, |i: int| choose|e0: int|
        is_small_noise(e0, q) && qv[i].uint == if i == row {
            add_val(add_val(dot(row_vals(a[i]), s, q), e0, q), q / p, q)
        } else {
            add_val(dot(row_vals(a[i]), s, q), e0, q)
        });
    assert forall|i: int| 0 <= i < m implies is_small_noise(#[trigger] epss[i], q)
        && qv[i].uint == if i == row {
            add_val(add_val(dot(row_vals(a[i]), s, q), epss[i], q), q / p, q)
        } else {
            add_val(dot(row_vals(a[i]), s, q), epss[i], q)
        } by {
        assert(query_entry(qv[i].uint as int, row_vals(a[i]), s, i == row, q, p));
    }
    // The plain value behind each query entry
    let base = Seq::new(m as nat, |i: int| dot_plain(row_vals(a[i]), s));
    let lifts = Seq::new(m as nat, |i: int| noise_lift(epss[i], q));
    let bumps = Seq::new(m as nat, |i: int| if i == row { dd } else { 0 });
    let tail = Seq::new(m as nat, |i: int| lifts[i] + bumps[i]);
    let u = Seq::new(m as nat, |i: int| base[i] + tail[i]);
    assert forall|i: int| 0 <= i < m
        implies #[trigger] (row_vals(qv)[i] % q) == u[i] % q by {
        lemma_dot_is_mod(row_vals(a[i]), s, q);
        lemma_noise_lift(epss[i], q);
        let plain = base[i] + epss[i] + bumps[i];
        assert(qv[i].uint == plain % q) by {
            vstd::arithmetic::div_mod::lemma_add_mod_noop(base[i], epss[i], q);
            vstd::arithmetic::div_mod::lemma_add_mod_noop_right(base[i] % q, epss[i], q);
            if i == row {
                vstd::arithmetic::div_mod::lemma_add_mod_noop_right((base[i] + epss[i]) % q, dd, q);
                vstd::arithmetic::div_mod::lemma_add_mod_noop(base[i] + epss[i], dd, q);
                assert(add_val((base[i] + epss[i]) % q, dd, q) == plain % q);
            }
        }
        assert(plain % q == u[i] % q) by {
            lemma_cong_add(epss[i], lifts[i], base[i] + bumps[i], q);
        }
        vstd::arithmetic::div_mod::lemma_mod_twice(plain, q);
    }
    // The answer entry, with the reductions pulled out
    lemma_dot_is_mod(dbc, row_vals(qv), q);
    lemma_dot_plain_mod_right(dbc, row_vals(qv), u, q);
    lemma_dot_plain_add_right(dbc, base, tail, u);
    lemma_dot_plain_add_right(dbc, lifts, bumps, tail);
    lemma_dot_plain_onehot(dbc, bumps, row, dd);
    let noise_sum = dot_plain(dbc, lifts);
    let v = dbc[row];
    assert(dot_plain(dbc, u) == dot_plain(dbc, base) + noise_sum + v * dd);
    // The hint row times the secret is the base part
    let lhsv = Seq::new(n as nat, |j: int| dot_plain(dbc, col_of(vals(a), j)));
    lemma_dot_is_mod(hint_row, s, q);
    assert forall|j: int| 0 <= j < n implies #[trigger] (hint_row[j] % q) == lhsv[j] % q by {
        lemma_dot_is_mod(dbc, col_of(vals(a), j), q);
        vstd::arithmetic::div_mod::lemma_mod_twice(dot_plain(dbc, col_of(vals(a), j)), q);
    }
    lemma_dot_plain_mod_left(hint_row, lhsv, s, q);
    let rhsv = Seq::new(m as nat, |t: int| dot_plain(vals(a)[t], s));
    assert forall|t: int| 0 <= t < m implies #[trigger] rhsv[t] == base[t] by {
        assert(vals(a)[t] =~= row_vals(a[t]));
    }
    assert(rhsv =~= base);
    lemma_dot_plain_exchange(dbc, vals(a), s, lhsv, rhsv);
    assert(dot_plain(lhsv, s) == dot_plain(dbc, base));
    // Strip and round
    let full = dot_plain(dbc, u);
    let strip_base = dot_plain(dbc, base);
    assert(ans_c == full % q);
    assert(dot(hint_row, s, q) == strip_base % q);
    lemma_strip(full, strip_base, q);
    let x = sub_val(ans_c, dot(hint_row, s, q), q);
    assert(x == (noise_sum + v * dd) % q);
    assert(x == (dd * v + noise_sum) % q) by (nonlinear_arith)
        requires
            x == (noise_sum + v * dd) % q;
    // The disturbance stays inside the window
    assert(forall|i: int| 0 <= i < m ==> 0 <= #[trigger] dbc[i] <= p - 1);
    assert forall|i: int| 0 <= i < m implies -3 <= #[trigger] lifts[i] <= 2 by {
        lemma_noise_lift(epss[i], q);
    }
    lemma_dot_plain_range(dbc, lifts, p - 1, -3, 2);
    vstd::arithmetic::div_mod::lemma_mod_bound(q, p);
    assert(-q < 2 * (noise_sum * p - rho * v) && 2 * (noise_sum * p - rho * v) < q)
        by (nonlinear_arith)
        requires
            m * (p - 1) * -3 <= noise_sum,
            noise_sum <= m * (p - 1) * 2,
            0 <= rho < p,
            0 <= v < p,
            2 <= p,
            1 <= m,
            2 * (3 * p * p * m + p * p) < q;
    assert(0 <= v);
    lemma_round_scale_mod(q, p, v, noise_sum, x);
    vstd::arithmetic::div_mod::lemma_small_mod(v as nat, p as nat);
}


/// SimplePIR recovery is exact: for a database column `c` with entries
/// reduced modulo `p`, a hint row holding that column dotted with each
/// column of the public matrix, a query whose entries encrypt a one-hot
/// selection of `row`, and the answer entry for column `c`, the rounded
/// difference computed by recovery equals the database entry at
/// `(c, row)` whenever the noise window is open.
pub proof fn lemma_simplepir_round_trip(
    a: Seq<Seq<Element>>,
    s: Seq<int>,
    db: Seq<Seq<Element>>,
    qv: Seq<Element>,
    hint_row: Seq<int>,
    ans_c: int,
    c: int,
    row: int,
    q: int,
    p: int,
)
    requires
        1 < p,
        p < q,
        0 <= c < db.len(),
        0 <= row < qv.len(),
        a.len() == qv.len(),
        forall|i: int| 0 <= i < a.len() ==> (#[trigger] a[i]).len() == s.len(),
        db[c].len() == qv.len(),
        forall|i: int| 0 <= i < db[c].len() ==> (#[trigger] db[c][i]).uint < p,
        forall|i: int| 0 <= i < qv.len()
            ==> query_entry((#[trigger] qv[i]).uint as int, row_vals(a[i]), s, i == row, q, p),
        hint_row.len() == s.len(),
        forall|j: int| 0 <= j < s.len()
            ==> #[trigger] hint_row[j] == dot(vals(db)[c], col_of(vals(a), j), q),
        ans_c == dot(vals(db)[c], row_vals(qv), q),
        2 * (3 * p * p * qv.len() + p * p) < q,
    ensures
        round_scale(sub_val(ans_c, dot(hint_row, s, q), q), p, q) == db[c][row].uint,
{
    assert(forall|i: int| 0 <= i < db[c].len()
        ==> 0 <= #[trigger] vals(db)[c][i] < p);
    lemma_lwe_recover_entry(a, s, vals(db)[c], qv, hint_row, ans_c, row, q, p);
}

} // verus!
