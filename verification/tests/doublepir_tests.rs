use simplepir::matrix::Matrix;
use simplepir::regev::gen_secret;
use simplepir::doublepir::{DoublePIRParams, gen_params, gen_db, gen_hints, query, answer, recover};

#[test]
pub fn test_doublepir() {
    let params = gen_params();
    let db = gen_db(&params);

    for i in 0..db.num_cols() {
        for j in 0..db.num_rows() {
            test_doublepir_impl(&params, &db, i, j);
        }
    }
}

pub fn test_doublepir_impl(params: &DoublePIRParams, db: &Matrix, col: usize, row: usize) {
    // Generate (hint_s, hint_c)
    let hints = gen_hints(&params, &db);

    let s_1 = gen_secret(params.q, params.n);
    let s_2 = gen_secret(params.q, params.n);

    let query = query(&params, col, row, &s_1, &s_2);

    let answer = answer(&params, &db, &hints.0, &query);

    let recovered = recover(&params, &hints.1, &answer, &s_1, &s_2);
    assert_eq!(recovered, db.data[col][row]);
}
