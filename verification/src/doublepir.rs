//! DoublePIR: SimplePIR applied twice.  A first LWE vector selects a
//! database column; the product of the database with that vector is
//! spread into base-`p` digits and, stacked under the server-side hint,
//! compressed by a second LWE vector that selects a row.  The client
//! recomposes the digits and finishes with an ordinary LWE decryption.
//!
//! Index convention: an entry of the database is addressed as
//! `db.data[col][row]`, with `col` ranging over the `m` outer entries
//! and `row` over the `l` inner entries.  The first query vector (length
//! `m`) carries its offset at `col`; the second (length `l`) at `row`.

use vstd::prelude::*;
use crate::arith::{add_val, sub_val, round_scale, round_scaled};
use crate::element::Element;
use crate::matrix::{Matrix, copy_row};
use crate::decomp::{digit, digits_of, recomp, is_num_digits, spec_num_digits, num_digits};
use crate::decomp::lemma_recomp_digits;
use crate::linalg::{dot, col_of, row_vals, vals, lemma_dot_bound, lemma_dot_comm};
use crate::regev::gen_error_vec;
use crate::simplepir::{query_entry, lemma_lwe_recover_entry};
use vstd::arithmetic::power::pow;

verus! {

pub struct DoublePIRParams {
    /// First public matrix, `m` outer entries of `n` scalars each.
    pub a_1: Matrix,
    /// Second public matrix, `l` outer entries of `n` scalars each.
    pub a_2: Matrix,
    /// The integer modulus.
    pub q: u64,
    /// The plaintext modulus.
    pub p: u64,
    /// The LWE secret length.
    pub n: usize,
    /// The number of inner entries (rows) of the database.
    pub l: usize,
    /// The number of outer entries (columns) of the database.
    pub m: usize,
}

impl DoublePIRParams {
    /// Shapes and moduli agree, and the dimensions are small enough
    /// that digit expansion cannot overflow an index.
    pub open spec fn wf(self) -> bool {
        &&& self.a_1@.len() == self.m
        &&& (forall|i: int| 0 <= i < self.m ==> (#[trigger] self.a_1@[i]).len() == self.n)
        &&& self.a_1.all_q(self.q)
        &&& self.a_2@.len() == self.l
        &&& (forall|i: int| 0 <= i < self.l ==> (#[trigger] self.a_2@[i]).len() == self.n)
        &&& self.a_2.all_q(self.q)
        &&& 1 < self.p
        &&& self.p < self.q
        &&& self.q < 0x8000000000000000
        &&& 1 <= self.n <= 0x100000
        &&& 1 <= self.l <= 0x100000
        &&& 1 <= self.m <= 0x100000
    }
}

/// Entry `(c, rr)` of the product of the transposed first public matrix
/// with the database: the dot product of column `c` of the matrix with
/// column `rr` of the database.
pub open spec fn setup_entry(
    a1: Seq<Seq<Element>>,
    db: Seq<Seq<Element>>,
    q: int,
    c: int,
    rr: int,
) -> int {
    dot(col_of(vals(a1), c), col_of(vals(db), rr), q)
}

/// Entry `rr` of the database response to the first query vector: the
/// dot product of the query with column `rr` of the database.
pub open spec fn resp_entry(
    c1: Seq<Seq<Element>>,
    db: Seq<Seq<Element>>,
    q: int,
    rr: int,
) -> int {
    dot(col_of(vals(c1), 0), col_of(vals(db), rr), q)
}

/// The reference parameter set: a 4-by-8 database, secret length 32,
/// moduli 3329 and 2.
pub fn gen_params() -> (r: DoublePIRParams)
    ensures
        r.wf(),
        r.l == 4,
        r.m == 8,
        r.n == 32,
        r.q == 3329,
        r.p == 2,
{
    // Database size: l x m
    let l: usize = 4;
    let m: usize = 8;
    let n: usize = 32;
    let p: u64 = 2;
    let q: u64 = 3329;
    let a_1 = Matrix::gen_uniform_rand(q, n, m);
    let a_2 = Matrix::gen_uniform_rand(q, n, l);
    DoublePIRParams { a_1, a_2, q, l, p, n, m }
}

/// Generate a database of random values modulo the plaintext modulus:
/// `m` outer entries of `l` scalars each.
pub fn gen_db(params: &DoublePIRParams) -> (db: Matrix)
    requires
        params.wf(),
    ensures
        db@.len() == params.m,
        forall|i: int| 0 <= i < params.m ==> (#[trigger] db@[i]).len() == params.l,
        db.wf(params.p),
        db.all_reduced(),
{
    Matrix::gen_uniform_rand(params.p, params.l, params.m)
}

/// The two hints.  The server keeps the first: the transposed first
/// public matrix times the database, lifted to modulus `q` and spread
/// into base-`p` digits.  The client receives the second: the first
/// hint times the second public matrix.
pub fn gen_hints(params: &DoublePIRParams, db: &Matrix) -> (r: (Matrix, Matrix))
    requires
        params.wf(),
        db@.len() == params.m,
        db.rect(),
        db.spec_rows() == params.l,
    ensures
        r.0@.len() == params.n * spec_num_digits(params.p as int, params.q as int),
        forall|u: int| 0 <= u < r.0@.len() ==> (#[trigger] r.0@[u]).len() == params.l,
        forall|c: int, d: int, rr: int|
            0 <= c < params.n
                && 0 <= d < spec_num_digits(params.p as int, params.q as int)
                && 0 <= rr < params.l
                ==> #[trigger] r.0@[c * spec_num_digits(params.p as int, params.q as int) + d][rr]
                    == (Element {
                        q: params.q,
                        uint: digit(
                            setup_entry(params.a_1@, db@, params.q as int, c, rr),
                            params.p as int,
                            d as nat,
                        ) as u64,
                    }),
        r.1@.len() == r.0@.len(),
        forall|u: int| 0 <= u < r.1@.len() ==> (#[trigger] r.1@[u]).len() == params.n,
        forall|u: int, j: int|
            0 <= u < r.1@.len() && 0 <= j < params.n
                ==> (#[trigger] r.1@[u][j]).q == params.q
                    && r.1@[u][j].uint == dot(
                        vals(r.0@)[u],
                        col_of(vals(params.a_2@), j),
                        params.q as int,
                    )
                    && r.1@[u][j].uint < params.q,
{
    let ghost qi = params.q as int;
    let mut db_q = db.clone();
    db_q.change_q(params.q);
    proof {
        assert(params.a_1.spec_rows() == params.n);
        assert(params.a_1.spec_q() == params.q);
        assert(db_q.rect());
        assert(db_q.all_q(params.q));
    }
    // hint_s = A_1 transposed * db, spread into digits
    let a1t = params.a_1.clone().rotated();
    proof {
        assert(a1t.rect());
        assert(a1t.spec_rows() == params.m);
        assert(a1t.spec_q() == params.q);
        assert(a1t.all_q(params.q));
    }
    let m0 = a1t.mul(db_q);
    proof {
        assert forall|c: int, rr: int| 0 <= c < params.n && 0 <= rr < params.l
            implies (#[trigger] m0@[c][rr]).uint == setup_entry(params.a_1@, db@, qi, c, rr)
                && m0@[c][rr].q == params.q by {
            assert(vals(a1t@)[c] =~= col_of(vals(params.a_1@), c));
            assert(col_of(vals(db_q@), rr) =~= col_of(vals(db@), rr));
        }
        assert(m0.rect());
        assert(m0.spec_rows() == params.l);
        assert(m0.all_q(params.q));
        assert(m0.spec_q() == params.q);
    }
    let hint_s = m0.decomposed(params.p);
    let ghost kk = spec_num_digits(params.p as int, params.q as int) as int;
    proof {
        assert(hint_s@.len() == params.n * kk);
        assert forall|c: int, d: int, rr: int|
            0 <= c < params.n && 0 <= d < kk && 0 <= rr < params.l
                implies #[trigger] hint_s@[c * kk + d][rr] == (Element {
                    q: params.q,
                    uint: digit(setup_entry(params.a_1@, db@, qi, c, rr), params.p as int, d as nat) as u64,
                }) by {
            assert(m0@[c][rr].uint == setup_entry(params.a_1@, db@, qi, c, rr));
        }
        assert(kk >= 1) by {
            vstd::arithmetic::power::lemma_pow0(params.p as int);
        }
        assert(params.n * kk >= 1) by (nonlinear_arith)
            requires
                params.n >= 1,
                kk >= 1;
        assert(hint_s@[0].len() == params.l);
        assert(hint_s@[0][0].q == params.q) by {
            assert(hint_s@[0 * kk + 0][0] == (Element {
                q: params.q,
                uint: digit(setup_entry(params.a_1@, db@, qi, 0, 0), params.p as int, 0) as u64,
            }));
        }
        assert(hint_s.spec_q() == params.q);
        assert(hint_s.rect());
        assert forall|u: int, j: int| 0 <= u < hint_s@.len() && 0 <= j < hint_s@[u].len()
            implies (#[trigger] hint_s@[u][j]).q == params.q by {
            let c = u / kk;
            let d = u % kk;
            vstd::arithmetic::div_mod::lemma_fundamental_div_mod(u, kk);
            vstd::arithmetic::div_mod::lemma_mod_pos_bound(u, kk);
            assert(0 <= c < params.n) by (nonlinear_arith)
                requires
                    u == c * kk + d,
                    0 <= u < params.n * kk,
                    0 <= d < kk,
                    kk >= 1;
            assert(hint_s@[c * kk + d][j].q == params.q);
        }
        assert(hint_s.all_q(params.q));
        assert(params.a_2.spec_rows() == params.n);
    }
    // hint_c = hint_s * A_2
    let hint_c = hint_s.clone().mul(params.a_2.clone());
    proof {
        assert forall|u: int, j: int| 0 <= u < hint_s@.len() && 0 <= j < params.n
            implies (#[trigger] hint_c@[u][j]).uint < params.q by {
            lemma_dot_bound(vals(hint_s@)[u], col_of(vals(params.a_2@), j), qi);
        }
    }
    (hint_s, hint_c)
}

/// The client's query: two LWE vectors, the first (length `m`) carrying
/// `floor(q/p)` at the desired column, the second (length `l`) at the
/// desired row.
pub fn query(
    params: &DoublePIRParams,
    col_i: usize,
    row_i: usize,
    s_1: &Vec<Element>,
    s_2: &Vec<Element>,
) -> (r: (Matrix, Matrix))
    requires
        params.wf(),
        col_i < params.m,
        row_i < params.l,
        s_1@.len() == params.n,
        forall|i: int| 0 <= i < s_1@.len() ==> (#[trigger] s_1@[i]).q == params.q,
        s_2@.len() == params.n,
        forall|i: int| 0 <= i < s_2@.len() ==> (#[trigger] s_2@[i]).q == params.q,
    ensures
        r.0@.len() == params.m,
        forall|i: int| 0 <= i < params.m ==> (#[trigger] r.0@[i]).len() == 1,
        forall|i: int| 0 <= i < params.m
            ==> (#[trigger] r.0@[i][0]).q == params.q && r.0@[i][0].uint < params.q,
        forall|i: int| 0 <= i < params.m
            ==> query_entry(
                (#[trigger] r.0@[i][0]).uint as int,
                row_vals(params.a_1@[i]),
                row_vals(s_1@),
                i == col_i,
                params.q as int,
                params.p as int,
            ),
        r.1@.len() == params.l,
        forall|i: int| 0 <= i < params.l ==> (#[trigger] r.1@[i]).len() == 1,
        forall|i: int| 0 <= i < params.l
            ==> (#[trigger] r.1@[i][0]).q == params.q && r.1@[i][0].uint < params.q,
        forall|i: int| 0 <= i < params.l
            ==> query_entry(
                (#[trigger] r.1@[i][0]).uint as int,
                row_vals(params.a_2@[i]),
                row_vals(s_2@),
                i == row_i,
                params.q as int,
                params.p as int,
            ),
{
    let c_1 = query_vector(&params.a_1, params.q, params.p, col_i, s_1);
    let c_2 = query_vector(&params.a_2, params.q, params.p, row_i, s_2);
    (c_1, c_2)
}

/// One LWE query vector: `A*s + e`, with `floor(q/p)` added at the
/// selected position, kept as a one-inner-entry matrix.
fn query_vector(a: &Matrix, q: u64, p: u64, idx: usize, s: &Vec<Element>) -> (r: Matrix)
    requires
        a@.len() >= 1,
        idx < a@.len(),
        a.rect(),
        a.spec_rows() >= 1,
        a.all_q(q),
        s@.len() == a.spec_rows(),
        forall|i: int| 0 <= i < s@.len() ==> (#[trigger] s@[i]).q == q,
        1 < p,
        p < q,
        q < 0x8000000000000000,
    ensures
        r@.len() == a@.len(),
        forall|i: int| 0 <= i < a@.len() ==> (#[trigger] r@[i]).len() == 1,
        forall|i: int| 0 <= i < a@.len()
            ==> (#[trigger] r@[i][0]).q == q && r@[i][0].uint < q,
        forall|i: int| 0 <= i < a@.len()
            ==> query_entry(
                (#[trigger] r@[i][0]).uint as int,
                row_vals(a@[i]),
                row_vals(s@),
                i == idx,
                q as int,
                p as int,
            ),
{
    let ghost qi = q as int;
    proof {
        assert(a.spec_q() == q);
    }
    let floor = q / p;
    let e = gen_error_vec(q, a.num_cols());
    let err_matrix = Matrix::from_col(&e);
    let mut c = a.clone().mul_vec(s);
    proof {
        assert forall|i: int| 0 <= i < a@.len()
            implies vals(a@)[i] =~= row_vals(a@[i]) by {}
    }
    c.add_assign(err_matrix.rotated());
    proof {
        assert forall|i: int| 0 <= i < a@.len()
            implies #[trigger] dot(row_vals(a@[i]), row_vals(s@), qi) < qi by {
            lemma_dot_bound(row_vals(a@[i]), row_vals(s@), qi);
        }
        assert(c@.len() == a@.len());
        assert forall|i: int| 0 <= i < a@.len()
            implies (#[trigger] c@[i]).len() == 1 && c@[i][0].q == q
                && c@[i][0].uint == add_val(
                    dot(row_vals(a@[i]), row_vals(s@), qi),
                    e@[i].uint as int,
                    qi,
                ) by {}
    }
    let ghost mid = c@;
    proof {
        assert(c.data@.len() == c@.len());
        assert(c.data@[idx as int]@ == c@[idx as int]);
        assert(c@[idx as int].len() == 1);
        assert(c@[idx as int][0].q == q);
    }
    let bumped = c.data[idx][0] + Element::from(q, floor);
    c.set_entry(idx, 0, bumped);
    proof {
        assert(c@.len() == a@.len());
        assert forall|i: int| 0 <= i < a@.len() implies (#[trigger] c@[i]).len() == 1 by {
            if i != idx {
                assert(c@[i] == mid[i]);
            }
        }
        assert forall|i: int| 0 <= i < a@.len() implies query_entry(
            (#[trigger] c@[i][0]).uint as int,
            row_vals(a@[i]),
            row_vals(s@),
            i == idx,
            qi,
            p as int,
        ) && c@[i][0].q == q && c@[i][0].uint < q by {
            let e0 = e@[i].uint as int;
            assert(crate::regev::is_small_noise(e0, qi));
            if i != idx {
                assert(c@[i] == mid[i]);
            } else {
                assert(c@[i][0] == bumped);
            }
        }
    }
    c
}

/// The server's answer: the database response to the first query,
/// spread into digits, is multiplied by the second public matrix (the
/// client's per-query hint), and, stacked under the stored hint, by the
/// second query vector.
pub fn answer(
    params: &DoublePIRParams,
    db: &Matrix,
    hint_s: &Matrix,
    query: &(Matrix, Matrix),
) -> (r: (Matrix, Matrix))
    requires
        params.wf(),
        db@.len() == params.m,
        db.rect(),
        db.spec_rows() == params.l,
        hint_s@.len() >= 1,
        hint_s.rect(),
        hint_s.spec_rows() == params.l,
        hint_s.all_q(params.q),
        hint_s@.len() + 64 <= usize::MAX,
        query.0@.len() == params.m,
        forall|i: int| 0 <= i < params.m ==> (#[trigger] query.0@[i]).len() == 1,
        forall|i: int| 0 <= i < params.m ==> (#[trigger] query.0@[i][0]).q == params.q,
        query.1@.len() == params.l,
        forall|i: int| 0 <= i < params.l ==> (#[trigger] query.1@[i]).len() == 1,
        forall|i: int| 0 <= i < params.l ==> (#[trigger] query.1@[i][0]).q == params.q,
    ensures
        r.0@.len() == spec_num_digits(params.p as int, params.q as int),
        forall|d: int| 0 <= d < r.0@.len() ==> (#[trigger] r.0@[d]).len() == params.n,
        forall|d: int, j: int|
            0 <= d < spec_num_digits(params.p as int, params.q as int) && 0 <= j < params.n
                ==> (#[trigger] r.0@[d][j]).q == params.q
                    && r.0@[d][j].uint == dot(
                        Seq::new(params.l as nat, |rr: int| digit(
                            resp_entry(query.0@, db@, params.q as int, rr),
                            params.p as int,
                            d as nat,
                        )),
                        col_of(vals(params.a_2@), j),
                        params.q as int,
                    )
                    && r.0@[d][j].uint < params.q,
        r.1@.len() == hint_s@.len() + spec_num_digits(params.p as int, params.q as int),
        forall|u: int| 0 <= u < r.1@.len() ==> (#[trigger] r.1@[u]).len() == 1,
        forall|u: int| 0 <= u < r.1@.len()
            ==> (#[trigger] r.1@[u][0]).q == params.q
                && r.1@[u][0].uint < params.q
                && r.1@[u][0].uint == dot(
                    if u < hint_s@.len() {
                        vals(hint_s@)[u]
                    } else {
                        Seq::new(params.l as nat, |rr: int| digit(
                            resp_entry(query.0@, db@, params.q as int, rr),
                            params.p as int,
                            (u - hint_s@.len()) as nat,
                        ))
                    },
                    col_of(vals(query.1@), 0),
                    params.q as int,
                ),
{
    let ghost qi = params.q as int;
    let ghost kk = spec_num_digits(params.p as int, params.q as int) as int;
    let mut db_q = db.clone();
    db_q.change_q(params.q);
    proof {
        assert(db_q.rect());
        assert(db_q.all_q(params.q));
    }
    let c_1t = query.0.clone().rotated();
    proof {
        assert(c_1t@.len() == 1);
        assert(c_1t.rect());
        assert(c_1t.spec_rows() == params.m);
        assert(c_1t.spec_q() == params.q);
        assert(c_1t.all_q(params.q));
    }
    // The database response to the first query, one entry per row
    let resp = c_1t.mul(db_q);
    proof {
        assert(resp@.len() == 1);
        assert(resp.rect());
        assert(resp.spec_rows() == params.l);
        assert forall|rr: int| 0 <= rr < params.l
            implies (#[trigger] resp@[0][rr]).uint == resp_entry(query.0@, db@, qi, rr)
                && resp@[0][rr].q == params.q by {
            assert(vals(c_1t@)[0] =~= col_of(vals(query.0@), 0));
            assert(col_of(vals(db_q@), rr) =~= col_of(vals(db@), rr));
        }
        assert(resp.all_q(params.q));
        assert(resp.spec_q() == params.q);
    }
    // Its base-p digits: k outer entries of l digits each
    let ans_1 = resp.decomposed(params.p);
    proof {
        assert(ans_1@.len() == kk);
        assert forall|d: int, rr: int| 0 <= d < kk && 0 <= rr < params.l
            implies #[trigger] ans_1@[d][rr] == (Element {
                q: params.q,
                uint: digit(resp_entry(query.0@, db@, qi, rr), params.p as int, d as nat) as u64,
            }) by {
            assert(ans_1@[0 * kk + d][rr] == (Element {
                q: params.q,
                uint: digit(resp@[0][rr].uint as int, params.p as int, d as nat) as u64,
            }));
        }
        assert(kk >= 1) by {
            vstd::arithmetic::power::lemma_pow0(params.p as int);
        }
        assert forall|d: int| 0 <= d < kk implies vals(ans_1@)[d] =~= Seq::new(
            params.l as nat,
            |rr: int| digit(resp_entry(query.0@, db@, qi, rr), params.p as int, d as nat),
        ) by {
            assert forall|rr: int| 0 <= rr < params.l
                implies vals(ans_1@)[d][rr] == digit(
                    resp_entry(query.0@, db@, qi, rr),
                    params.p as int,
                    d as nat,
                ) by {
                assert(ans_1@[d][rr].uint as int == digit(
                    resp_entry(query.0@, db@, qi, rr),
                    params.p as int,
                    d as nat,
                ));
            }
        }
        assert(ans_1.rect());
        assert(ans_1.spec_rows() == params.l);
        assert(ans_1@[0][0].q == params.q);
        assert(ans_1.spec_q() == params.q);
        assert(ans_1.all_q(params.q));
        assert(params.a_2.spec_rows() == params.n);
    }
    // The client's per-query hint
    let h = ans_1.clone().mul(params.a_2.clone());
    proof {
        assert forall|d: int, j: int| 0 <= d < kk && 0 <= j < params.n
            implies (#[trigger] h@[d][j]).uint < params.q by {
            lemma_dot_bound(vals(ans_1@)[d], col_of(vals(params.a_2@), j), qi);
        }
    }
    // (hint_s || ans_1) * c_2
    let mut hint_s_ans_1 = hint_s.clone();
    let ghost hlen = hint_s@.len() as int;
    let mut i: usize = 0;
    while i < ans_1.data.len()
        invariant
            ans_1@.len() == kk,
            kk <= 64,
            ans_1.rect(),
            ans_1.spec_rows() == params.l,
            hint_s@.len() == hlen,
            hlen >= 1,
            hlen + 64 <= usize::MAX,
            hint_s.rect(),
            hint_s.spec_rows() == params.l,
            i <= kk,
            hint_s_ans_1@.len() == hlen + i,
            forall|u: int| 0 <= u < hlen
                ==> #[trigger] hint_s_ans_1@[u] == hint_s@[u],
            forall|u: int| hlen <= u < hlen + i
                ==> #[trigger] hint_s_ans_1@[u] == ans_1@[u - hlen],
        decreases ans_1@.len() - i,
    {
        proof {
            assert(ans_1.data@[i as int]@ == ans_1@[i as int]);
            assert(ans_1@[i as int].len() == params.l);
            assert(hint_s_ans_1@.len() == 0
                || hint_s_ans_1.spec_rows() == params.l);
        }
        hint_s_ans_1.append_col(copy_row(&ans_1.data[i]));
        i += 1;
    }
    proof {
        assert(hint_s_ans_1@.len() == hlen + kk);
        assert(hint_s_ans_1.rect());
        assert(hint_s_ans_1.spec_rows() == params.l);
        assert(hint_s_ans_1@[0][0].q == params.q);
        assert(hint_s_ans_1.spec_q() == params.q);
        assert(hint_s_ans_1.all_q(params.q));
    }
    let c_2v = matrix_to_vec(&query.1);
    let ans_h_ans_2 = hint_s_ans_1.mul_vec(&c_2v);
    proof {
        assert forall|u: int| 0 <= u < hlen + kk
            implies (#[trigger] ans_h_ans_2@[u][0]).uint < params.q
                && ans_h_ans_2@[u][0].uint == dot(
                    if u < hlen {
                        vals(hint_s@)[u]
                    } else {
                        Seq::new(params.l as nat, |rr: int| digit(
                            resp_entry(query.0@, db@, qi, rr),
                            params.p as int,
                            (u - hlen) as nat,
                        ))
                    },
                    col_of(vals(query.1@), 0),
                    qi,
                ) by {
            lemma_dot_bound(vals(hint_s_ans_1@)[u], row_vals(c_2v@), qi);
            assert(row_vals(c_2v@) =~= col_of(vals(query.1@), 0));
            if u < hlen {
                assert(vals(hint_s_ans_1@)[u] =~= vals(hint_s@)[u]);
            } else {
                assert(vals(hint_s_ans_1@)[u] =~= vals(ans_1@)[u - hlen]);
            }
        }
    }
    (h, ans_h_ans_2)
}

/// The value at stacked index `u` of the second answer component after
/// the hint (client part above, per-query part below) times the second
/// secret is stripped.
pub open spec fn stripped_entry(
    ans2: Seq<Seq<Element>>,
    hc: Seq<Seq<Element>>,
    h: Seq<Seq<Element>>,
    s2: Seq<int>,
    q: int,
    u: int,
) -> int {
    sub_val(
        ans2[u][0].uint as int,
        dot(
            if u < hc.len() {
                vals(hc)[u]
            } else {
                vals(h)[u - hc.len()]
            },
            s2,
            q,
        ),
        q,
    )
}

/// The recovered digit at stacked index `u`: the stripped value rounded
/// by `p/q`.
pub open spec fn digit_entry(
    ans2: Seq<Seq<Element>>,
    hc: Seq<Seq<Element>>,
    h: Seq<Seq<Element>>,
    s2: Seq<int>,
    p: int,
    q: int,
    u: int,
) -> int {
    round_scale(stripped_entry(ans2, hc, h, s2, q, u), p, q)
}

/// Group `c` of `k` recovered digits folded back into one value
/// modulo `q`.
pub open spec fn recomposed_entry(
    ans2: Seq<Seq<Element>>,
    hc: Seq<Seq<Element>>,
    h: Seq<Seq<Element>>,
    s2: Seq<int>,
    p: int,
    q: int,
    k: nat,
    c: int,
) -> int {
    recomp(
        Seq::new(k, |d: int| digit_entry(ans2, hc, h, s2, p, q, c * k + d)),
        p,
        q,
    )
}

/// The client's recovery: strip the assembled hint times the second
/// secret from the second answer component, round every entry, fold
/// groups of `k` digits back into values, and finish with an ordinary
/// LWE decryption of the last value under the first secret.
pub fn recover(
    params: &DoublePIRParams,
    hint_c: &Matrix,
    answer: &(Matrix, Matrix),
    s_1: &Vec<Element>,
    s_2: &Vec<Element>,
) -> (r: Element)
    requires
        params.wf(),
        hint_c@.len() == params.n * spec_num_digits(params.p as int, params.q as int),
        hint_c.rect(),
        hint_c.spec_rows() == params.n,
        hint_c.all_q(params.q),
        answer.0@.len() == spec_num_digits(params.p as int, params.q as int),
        answer.0.rect(),
        answer.0.spec_rows() == params.n,
        answer.0.all_q(params.q),
        answer.1@.len() == hint_c@.len() + answer.0@.len(),
        forall|u: int| 0 <= u < answer.1@.len() ==> (#[trigger] answer.1@[u]).len() == 1,
        forall|u: int| 0 <= u < answer.1@.len()
            ==> (#[trigger] answer.1@[u][0]).q == params.q && answer.1@[u][0].uint < params.q,
        s_1@.len() == params.n,
        forall|i: int| 0 <= i < s_1@.len() ==> (#[trigger] s_1@[i]).q == params.q,
        s_2@.len() == params.n,
        forall|i: int| 0 <= i < s_2@.len() ==> (#[trigger] s_2@[i]).q == params.q,
    ensures
        r.q == params.p,
        r.uint < params.p,
        r.uint == round_scale(
            sub_val(
                recomposed_entry(
                    answer.1@,
                    hint_c@,
                    answer.0@,
                    row_vals(s_2@),
                    params.p as int,
                    params.q as int,
                    spec_num_digits(params.p as int, params.q as int),
                    params.n as int,
                ),
                dot(
                    row_vals(s_1@),
                    Seq::new(params.n as nat, |j: int| recomposed_entry(
                        answer.1@,
                        hint_c@,
                        answer.0@,
                        row_vals(s_2@),
                        params.p as int,
                        params.q as int,
                        spec_num_digits(params.p as int, params.q as int),
                        j,
                    )),
                    params.q as int,
                ),
                params.q as int,
            ),
            params.p as int,
            params.q as int,
        ),
{
    let ghost qi = params.q as int;
    let ghost pi = params.p as int;
    let ghost s2v = row_vals(s_2@);
    let k = num_digits(params.p, params.q);
    let ghost kk = k as int;
    proof {
        assert(kk >= 1) by {
            vstd::arithmetic::power::lemma_pow0(params.p as int);
        }
        assert(params.n * kk >= 1) by (nonlinear_arith)
            requires
                params.n >= 1,
                kk >= 1;
        assert(params.n * kk + kk <= 0x100000 * 64 + 64) by (nonlinear_arith)
            requires
                1 <= params.n <= 0x100000,
                1 <= kk <= 64;
    }
    let ghost hlen = hint_c@.len() as int;
    // hint_c_h = hint_c || h
    let mut hint_c_h = hint_c.clone();
    let mut i: usize = 0;
    while i < answer.0.data.len()
        invariant
            answer.0@.len() == kk,
            kk >= 1,
            answer.0.rect(),
            answer.0.spec_rows() == params.n,
            hint_c@.len() == hlen,
            hlen >= 1,
            hlen + 64 <= usize::MAX,
            kk <= 64,
            hint_c.rect(),
            hint_c.spec_rows() == params.n,
            i <= kk,
            hint_c_h@.len() == hlen + i,
            forall|u: int| 0 <= u < hlen ==> #[trigger] hint_c_h@[u] == hint_c@[u],
            forall|u: int| hlen <= u < hlen + i
                ==> #[trigger] hint_c_h@[u] == answer.0@[u - hlen],
        decreases answer.0@.len() - i,
    {
        proof {
            assert(answer.0.data@[i as int]@ == answer.0@[i as int]);
            assert(answer.0@[i as int].len() == params.n);
        }
        hint_c_h.append_col(copy_row(&answer.0.data[i]));
        i += 1;
    }
    proof {
        assert(hint_c_h@.len() == hlen + kk);
        assert(hint_c_h.rect());
        assert(hint_c_h.spec_rows() == params.n);
        assert(hint_c_h@[0][0].q == params.q);
        assert(hint_c_h.spec_q() == params.q);
        assert(hint_c_h.all_q(params.q));
    }
    // (hint_c || h) * s_2
    let hhs = hint_c_h.mul_vec(s_2);
    proof {
        assert forall|u: int| 0 <= u < hlen + kk
            implies 0 <= #[trigger] dot(vals(hint_c_h@)[u], s2v, qi) < qi by {
            lemma_dot_bound(vals(hint_c_h@)[u], s2v, qi);
        }
    }
    // (ans_h || ans_2) - (hint_c || h) * s_2
    let mut stripped = answer.1.clone();
    stripped.sub_assign(hhs);
    proof {
        assert forall|u: int| 0 <= u < hlen + kk
            implies (#[trigger] stripped@[u][0]).uint == stripped_entry(
                answer.1@,
                hint_c@,
                answer.0@,
                s2v,
                qi,
                u,
            ) && stripped@[u][0].uint < params.q && stripped@[u].len() == 1 by {
            if u < hlen {
                assert(vals(hint_c_h@)[u] =~= vals(hint_c@)[u]);
            } else {
                assert(vals(hint_c_h@)[u] =~= vals(answer.0@)[u - hlen]);
            }
        }
    }
    // Round every entry by p/q; the digits keep the large modulus so
    // that they can be folded back together modulo q.
    let mut rounded: Vec<Vec<Element>> = Vec::new();
    let mut u: usize = 0;
    let ghost total = hlen + kk;
    proof {
        assert(total == (params.n + 1) * kk) by (nonlinear_arith)
            requires
                total == hlen + kk,
                hlen == params.n * kk;
    }
    while u < stripped.data.len()
        invariant
            params.wf(),
            qi == params.q as int,
            stripped@.len() == total,
            total == hlen + kk,
            forall|w: int| 0 <= w < total ==> (#[trigger] stripped@[w]).len() == 1,
            forall|w: int| 0 <= w < total
                ==> (#[trigger] stripped@[w][0]).uint == stripped_entry(
                    answer.1@,
                    hint_c@,
                    answer.0@,
                    s2v,
                    qi,
                    w,
                ) && stripped@[w][0].uint < params.q,
            s2v == row_vals(s_2@),
            u <= total,
            rounded@.len() == u,
            forall|w: int| 0 <= w < u ==> (#[trigger] rounded@[w])@.len() == 1,
            forall|w: int| 0 <= w < u
                ==> (#[trigger] rounded@[w]@[0]) == (Element {
                    q: params.q,
                    uint: digit_entry(
                        answer.1@,
                        hint_c@,
                        answer.0@,
                        s2v,
                        params.p as int,
                        qi,
                        w,
                    ) as u64,
                }),
        decreases stripped@.len() - u,
    {
        proof {
            assert(stripped.data@[u as int]@ == stripped@[u as int]);
            assert(stripped@[u as int].len() == 1);
            assert(stripped@[u as int][0].uint < params.q);
        }
        let x = round_scaled(stripped.data[u][0].uint, params.p, params.q);
        let mut row: Vec<Element> = Vec::new();
        row.push(Element { q: params.q, uint: x });
        rounded.push(row);
        proof {
            assert(rounded@[u as int]@[0] == (Element {
                q: params.q,
                uint: digit_entry(
                    answer.1@,
                    hint_c@,
                    answer.0@,
                    s2v,
                    params.p as int,
                    qi,
                    u as int,
                ) as u64,
            }));
        }
        u += 1;
    }
    let rounded_m = Matrix { data: rounded };
    proof {
        assert(rounded_m@.len() == total);
        assert(rounded_m.rect());
        assert((hlen + kk) % kk == 0) by {
            vstd::arithmetic::div_mod::lemma_mod_multiples_basic(params.n + 1, kk);
        }
    }
    // Fold groups of k digits back into single values modulo q
    let h1_a1 = rounded_m.recompose(params.p, params.q);
    proof {
        assert((hlen + kk) / kk == params.n + 1) by {
            assert(hlen + kk == (params.n + 1) * kk) by (nonlinear_arith)
                requires
                    hlen == params.n * kk;
            vstd::arithmetic::div_mod::lemma_fundamental_div_mod_converse(
                hlen + kk,
                kk,
                params.n + 1,
                0,
            );
        }
        assert(h1_a1@.len() == params.n + 1);
        assert forall|c: int| 0 <= c < params.n + 1
            implies (#[trigger] h1_a1@[c]).len() == 1 && h1_a1@[c][0].q == params.q
                && h1_a1@[c][0].uint == recomposed_entry(
                    answer.1@,
                    hint_c@,
                    answer.0@,
                    s2v,
                    params.p as int,
                    qi,
                    kk as nat,
                    c,
                ) && h1_a1@[c][0].uint < params.q by {
            assert(Seq::new(kk as nat, |d: int| rounded_m@[c * kk + d][0].uint as int)
                =~= Seq::new(kk as nat, |d: int| digit_entry(
                    answer.1@,
                    hint_c@,
                    answer.0@,
                    s2v,
                    params.p as int,
                    qi,
                    c * kk + d,
                ))) by {
                assert forall|d: int| 0 <= d < kk
                    implies (#[trigger] rounded_m@[c * kk + d][0]).uint as int == digit_entry(
                        answer.1@,
                        hint_c@,
                        answer.0@,
                        s2v,
                        params.p as int,
                        qi,
                        c * kk + d,
                    ) by {
                    assert(0 <= c * kk + d < total) by (nonlinear_arith)
                        requires
                            0 <= c < params.n + 1,
                            0 <= d < kk,
                            total == (params.n + 1) * kk;
                }
            }
            crate::decomp::lemma_recomp_bound(
                Seq::new(kk as nat, |d: int| digit_entry(
                    answer.1@,
                    hint_c@,
                    answer.0@,
                    s2v,
                    params.p as int,
                    qi,
                    c * kk + d,
                )),
                params.p as int,
                qi,
            );
        }
    }
    // The first n recomposed values form an LWE sample under s_1; the
    // last is the encrypted target.
    let mut h_1 = Matrix::new();
    let mut j: usize = 0;
    while j < params.n
        invariant
            params.wf(),
            h1_a1@.len() == params.n + 1,
            forall|c: int| 0 <= c < params.n + 1 ==> (#[trigger] h1_a1@[c]).len() == 1,
            j <= params.n,
            h_1@.len() == j,
            forall|c: int| 0 <= c < j ==> #[trigger] h_1@[c] == h1_a1@[c],
        decreases params.n - j,
    {
        proof {
            assert(h1_a1.data@[j as int]@ == h1_a1@[j as int]);
        }
        h_1.push(copy_row(&h1_a1.data[j]));
        j += 1;
    }
    let a_1v = Matrix::from_col(&h1_a1.data[params.n]);
    proof {
        assert(h1_a1.data@[params.n as int]@ == h1_a1@[params.n as int]);
        assert(h_1.rect());
        assert(h_1.spec_rows() == 1);
    }
    let s_1m = Matrix::from_col(s_1);
    proof {
        assert(s_1m.rect());
        assert(s_1m.spec_rows() == params.n);
        assert(s_1m.spec_q() == params.q);
        assert(s_1m.all_q(params.q));
        assert(h_1.all_q(params.q));
    }
    let st = s_1m.mul(h_1);
    let ghost recs = Seq::new(params.n as nat, |c: int| recomposed_entry(
        answer.1@,
        hint_c@,
        answer.0@,
        s2v,
        params.p as int,
        qi,
        kk as nat,
        c,
    ));
    proof {
        assert(vals(s_1m@)[0] =~= row_vals(s_1@));
        assert(col_of(vals(h_1@), 0) =~= recs);
        assert(st@[0][0].uint == dot(row_vals(s_1@), recs, qi));
        lemma_dot_bound(row_vals(s_1@), recs, qi);
        assert(a_1v@[0][0].uint < params.q);
    }
    let d_hat = a_1v.sub(st);
    proof {
        assert(d_hat@[0][0].uint == sub_val(
            h1_a1@[params.n as int][0].uint as int,
            dot(row_vals(s_1@), recs, qi),
            qi,
        ));
        assert(d_hat@[0][0].uint < params.q);
        assert(d_hat.data@[0]@ == d_hat@[0]);
    }
    let d = round_scaled(d_hat.data[0][0].uint, params.p, params.q);
    Element::from(params.p, d)
}

/// The values of a one-inner-entry matrix, read out as a vector.
fn matrix_to_vec(m: &Matrix) -> (r: Vec<Element>)
    requires
        forall|i: int| 0 <= i < m@.len() ==> (#[trigger] m@[i]).len() == 1,
    ensures
        r@.len() == m@.len(),
        forall|i: int| 0 <= i < m@.len() ==> #[trigger] r@[i] == m@[i][0],
{
    let mut r: Vec<Element> = Vec::new();
    let mut i: usize = 0;
    while i < m.data.len()
        invariant
            forall|k: int| 0 <= k < m@.len() ==> (#[trigger] m@[k]).len() == 1,
            i <= m@.len(),
            r@.len() == i,
            forall|k: int| 0 <= k < i ==> #[trigger] r@[k] == m@[k][0],
        decreases m@.len() - i,
    {
        proof {
            assert(m.data@[i as int]@ == m@[i as int]);
            assert(m@[i as int].len() == 1);
        }
        r.push(m.data[i][0]);
        i += 1;
    }
    r
}


/// DoublePIR recovery is exact.  With both hints computed from the
/// database, query vectors encrypting one-hot selections of `col` and
/// `row`, and an answer computed from them, the value recovered by the
/// client is the database entry at `(col, row)`, whenever the noise
/// windows of both layers are open and `k` digits span every value
/// modulo `q`.
pub proof fn lemma_doublepir_round_trip(
    a1: Seq<Seq<Element>>,
    a2: Seq<Seq<Element>>,
    db: Seq<Seq<Element>>,
    hint_s: Seq<Seq<Element>>,
    hint_c: Seq<Seq<Element>>,
    c1: Seq<Seq<Element>>,
    c2: Seq<Seq<Element>>,
    h: Seq<Seq<Element>>,
    ans2: Seq<Seq<Element>>,
    s1: Seq<int>,
    s2: Seq<int>,
    col: int,
    row: int,
    q: int,
    p: int,
    k: nat,
)
    requires
        1 < p,
        p < q,
        q < 0x10000000000000000,
        is_num_digits(p, q, k),
        pow(p, k) >= q,
        s1.len() >= 1,
        a1.len() == db.len(),
        forall|i: int| 0 <= i < a1.len() ==> (#[trigger] a1[i]).len() == s1.len(),
        forall|i: int| 0 <= i < a2.len() ==> (#[trigger] a2[i]).len() == s2.len(),
        0 <= col < db.len(),
        0 <= row < a2.len(),
        forall|i: int| 0 <= i < db.len() ==> (#[trigger] db[i]).len() == a2.len(),
        forall|i: int, rr: int|
            0 <= i < db.len() && 0 <= rr < db[i].len() ==> (#[trigger] db[i][rr]).uint < p,
        c1.len() == db.len(),
        forall|i: int| 0 <= i < c1.len() ==> (#[trigger] c1[i]).len() == 1,
        forall|i: int| 0 <= i < c1.len()
            ==> query_entry((#[trigger] c1[i][0]).uint as int, row_vals(a1[i]), s1, i == col, q, p),
        c2.len() == a2.len(),
        forall|i: int| 0 <= i < c2.len() ==> (#[trigger] c2[i]).len() == 1,
        forall|i: int| 0 <= i < c2.len()
            ==> query_entry((#[trigger] c2[i][0]).uint as int, row_vals(a2[i]), s2, i == row, q, p),
        hint_s.len() == s1.len() * k,
        forall|u: int| 0 <= u < hint_s.len() ==> (#[trigger] hint_s[u]).len() == a2.len(),
        forall|cc: int, d: int, rr: int|
            0 <= cc < s1.len() && 0 <= d < k && 0 <= rr < a2.len()
                ==> #[trigger] hint_s[cc * k + d][rr] == (Element {
                    q: q as u64,
                    uint: digit(setup_entry(a1, db, q, cc, rr), p, d as nat) as u64,
                }),
        hint_c.len() == hint_s.len(),
        forall|u: int| 0 <= u < hint_c.len() ==> (#[trigger] hint_c[u]).len() == s2.len(),
        forall|u: int, j: int|
            0 <= u < hint_c.len() && 0 <= j < s2.len()
                ==> (#[trigger] hint_c[u][j]).uint == dot(
                    vals(hint_s)[u],
                    col_of(vals(a2), j),
                    q,
                ),
        h.len() == k,
        forall|d: int| 0 <= d < h.len() ==> (#[trigger] h[d]).len() == s2.len(),
        forall|d: int, j: int|
            0 <= d < k && 0 <= j < s2.len()
                ==> (#[trigger] h[d][j]).uint == dot(
                    Seq::new(a2.len(), |rr: int| digit(resp_entry(c1, db, q, rr), p, d as nat)),
                    col_of(vals(a2), j),
                    q,
                ),
        ans2.len() == hint_s.len() + k,
        forall|u: int| 0 <= u < ans2.len() ==> (#[trigger] ans2[u]).len() == 1,
        forall|u: int| 0 <= u < ans2.len()
            ==> (#[trigger] ans2[u][0]).uint == dot(
                if u < hint_s.len() {
                    vals(hint_s)[u]
                } else {
                    Seq::new(a2.len(), |rr: int| digit(
                        resp_entry(c1, db, q, rr),
                        p,
                        (u - hint_s.len()) as nat,
                    ))
                },
                col_of(vals(c2), 0),
                q,
            ),
        2 * (3 * p * p * a2.len() + p * p) < q,
        2 * (3 * p * p * db.len() + p * p) < q,
    ensures
        round_scale(
            sub_val(
                recomposed_entry(ans2, hint_c, h, s2, p, q, k, s1.len() as int),
                dot(
                    s1,
                    Seq::new(s1.len(), |j: int| recomposed_entry(ans2, hint_c, h, s2, p, q, k, j)),
                    q,
                ),
                q,
            ),
            p,
            q,
        ) == db[col][row].uint,
{
    let n = s1.len() as int;
    let l = a2.len() as int;
    let m = db.len() as int;
    let kk = k as int;
    assert(kk >= 1) by {
        vstd::arithmetic::power::lemma_pow0(p);
    }
    assert(hint_s.len() == n * kk) by (nonlinear_arith)
        requires
            hint_s.len() == s1.len() * k,
            n == s1.len(),
            kk == k;
    assert(hint_c.len() == n * kk);
    assert(ans2.len() == n * kk + kk);
    assert(ans2.len() == (n + 1) * kk) by (nonlinear_arith)
        requires
            ans2.len() == n * kk + kk;
    let c2flat = Seq::new(l as nat, |i: int| c2[i][0]);
    assert(row_vals(c2flat) =~= col_of(vals(c2), 0));
    // Every recovered digit is the true digit of the stacked matrix
    assert forall|u: int| 0 <= u < ans2.len()
        implies #[trigger] digit_entry(ans2, hint_c, h, s2, p, q, u) == (if u < hint_c.len() {
            vals(hint_s)[u][row]
        } else {
            digit(resp_entry(c1, db, q, row), p, (u - hint_c.len()) as nat)
        }) by {
        let w = if u < hint_c.len() {
            vals(hint_s)[u]
        } else {
            Seq::new(l as nat, |rr: int| digit(resp_entry(c1, db, q, rr), p, (u - hint_c.len()) as nat))
        };
        let hint_row = if u < hint_c.len() {
            vals(hint_c)[u]
        } else {
            vals(h)[u - hint_c.len()]
        };
        if u < hint_c.len() {
            let cc = u / kk;
            let d = u % kk;
            vstd::arithmetic::div_mod::lemma_fundamental_div_mod(u, kk);
            vstd::arithmetic::div_mod::lemma_mod_bound(u, kk);
            assert(0 <= cc < n) by (nonlinear_arith)
                requires
                    u == cc * kk + d,
                    0 <= u < n * kk,
                    0 <= d < kk,
                    kk >= 1;
            assert forall|rr: int| 0 <= rr < l implies 0 <= #[trigger] w[rr] < p by {
                assert(hint_s[cc * kk + d][rr] == (Element {
                    q: q as u64,
                    uint: digit(setup_entry(a1, db, q, cc, rr), p, d as nat) as u64,
                }));
                vstd::arithmetic::div_mod::lemma_mod_bound(
                    setup_entry(a1, db, q, cc, rr) / pow(p, d as nat),
                    p,
                );
            }
        } else {
            let d = (u - hint_c.len()) as nat;
            assert forall|rr: int| 0 <= rr < l implies 0 <= #[trigger] w[rr] < p by {
                vstd::arithmetic::div_mod::lemma_mod_bound(
                    resp_entry(c1, db, q, rr) / pow(p, d),
                    p,
                );
            }
        }
        assert(w.len() == l);
        assert(hint_row.len() == s2.len());
        assert(forall|j: int| 0 <= j < s2.len()
            ==> #[trigger] hint_row[j] == dot(w, col_of(vals(a2), j), q));
        assert(ans2[u][0].uint == dot(w, row_vals(c2flat), q));
        lemma_lwe_recover_entry(
            a2,
            s2,
            w,
            c2flat,
            hint_row,
            ans2[u][0].uint as int,
            row,
            q,
            p,
        );
        assert(w[row] == if u < hint_c.len() {
            vals(hint_s)[u][row]
        } else {
            digit(resp_entry(c1, db, q, row), p, (u - hint_c.len()) as nat)
        });
    }
    // Folding the digits back restores the stacked values themselves
    assert forall|cc: int| 0 <= cc <= n
        implies #[trigger] recomposed_entry(ans2, hint_c, h, s2, p, q, k, cc) == (if cc < n {
            setup_entry(a1, db, q, cc, row)
        } else {
            resp_entry(c1, db, q, row)
        }) by {
        let target = if cc < n {
            setup_entry(a1, db, q, cc, row)
        } else {
            resp_entry(c1, db, q, row)
        };
        assert(Seq::new(k, |d: int| digit_entry(ans2, hint_c, h, s2, p, q, cc * kk + d))
            =~= digits_of(target, p, k)) by {
            assert forall|d: int| 0 <= d < kk
                implies #[trigger] digit_entry(ans2, hint_c, h, s2, p, q, cc * kk + d)
                    == digit(target, p, d as nat) by {
                let u = cc * kk + d;
                assert(0 <= u < (n + 1) * kk) by (nonlinear_arith)
                    requires
                        u == cc * kk + d,
                        0 <= cc <= n,
                        0 <= d < kk,
                        kk >= 1;
                if cc < n {
                    assert(u < n * kk) by (nonlinear_arith)
                        requires
                            0 <= cc < n,
                            0 <= d < kk,
                            u == cc * kk + d;
                    assert(hint_s[cc * kk + d][row] == (Element {
                        q: q as u64,
                        uint: digit(setup_entry(a1, db, q, cc, row), p, d as nat) as u64,
                    }));
                    assert(vals(hint_s)[u][row] == hint_s[u][row].uint);
                    vstd::arithmetic::div_mod::lemma_mod_bound(
                        setup_entry(a1, db, q, cc, row) / pow(p, d as nat),
                        p,
                    );
                    assert(0 <= digit(setup_entry(a1, db, q, cc, row), p, d as nat) < p);
                    assert(hint_s[u][row].uint as int
                        == digit(setup_entry(a1, db, q, cc, row), p, d as nat));
                    assert(digit_entry(ans2, hint_c, h, s2, p, q, u)
                        == vals(hint_s)[u][row]);
                    assert(digit(target, p, d as nat)
                        == digit(setup_entry(a1, db, q, cc, row), p, d as nat));
                } else {
                    assert(u >= n * kk) by (nonlinear_arith)
                        requires
                            cc == n,
                            0 <= d,
                            u == cc * kk + d;
                    assert(u - hint_c.len() == d);
                    assert(digit_entry(ans2, hint_c, h, s2, p, q, u)
                        == digit(resp_entry(c1, db, q, row), p, (u - hint_c.len()) as nat));
                    assert((u - hint_c.len()) as nat == d as nat);
                }
            }
        }
        lemma_dot_bound(
            if cc < n { col_of(vals(a1), cc) } else { col_of(vals(c1), 0) },
            col_of(vals(db), if cc < n { row } else { row }),
            q,
        );
        assert(0 <= target < q);
        lemma_recomp_digits(target, p, q, k);
    }
    // The final decryption is one more exact recovery step
    let recs = Seq::new(s1.len(), |j: int| recomposed_entry(ans2, hint_c, h, s2, p, q, k, j));
    let colv = col_of(vals(db), row);
    let c1flat = Seq::new(m as nat, |i: int| c1[i][0]);
    assert(row_vals(c1flat) =~= col_of(vals(c1), 0));
    assert forall|i: int| 0 <= i < m implies 0 <= #[trigger] colv[i] < p by {
        assert(db[i][row].uint < p);
    }
    assert forall|j: int| 0 <= j < n
        implies #[trigger] recs[j] == dot(colv, col_of(vals(a1), j), q) by {
        assert(recs[j] == setup_entry(a1, db, q, j, row));
        assert(col_of(vals(a1), j).len() == m);
        lemma_dot_comm(col_of(vals(a1), j), colv, q);
    }
    assert(recomposed_entry(ans2, hint_c, h, s2, p, q, k, n) == resp_entry(c1, db, q, row));
    assert(resp_entry(c1, db, q, row) == dot(colv, row_vals(c1flat), q)) by {
        lemma_dot_comm(col_of(vals(c1), 0), colv, q);
    }
    lemma_lwe_recover_entry(
        a1,
        s1,
        colv,
        c1flat,
        recs,
        recomposed_entry(ans2, hint_c, h, s2, p, q, k, n),
        col,
        q,
        p,
    );
    lemma_dot_comm(recs, s1, q);
    assert(colv[col] == db[col][row].uint);
}

} // verus!
