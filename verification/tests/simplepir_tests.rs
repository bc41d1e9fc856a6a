use simplepir::element::Element;
use simplepir::matrix::Matrix;
use simplepir::regev::gen_secret;
use simplepir::simplepir::{gen_params, gen_db, gen_hint, query, answer, recover, recover_row};

fn test_simplepir_impl(desired_col: usize, desired_row: usize) {
    let params = gen_params();
    let db = gen_db(&params);

    let db_item = &db.data[desired_col][desired_row];

    let secret = gen_secret(params.q, params.n);
    let hint = gen_hint(&params, &db);

    let query = query(&params, desired_row, &secret);
    let answer = answer(&query, &db);
    let recovered_item = recover(&params, &secret, desired_col, &hint, &answer);
    assert_eq!(recovered_item, *db_item);

    let recovered_row = recover_row(&params, &secret, &hint, &answer);
    assert_eq!(recovered_row, db.rotated().data[desired_row]);
}

#[test]
pub fn test_simplepir() {
    for i in 0..8 {
        for j in 0..8 {
            test_simplepir_impl(i, j);
        }
    }
}

fn test_simplepir_updates_impl(desired_col: usize, desired_row: usize) {
    let params = gen_params();
    let db = gen_db(&params);
    let hint = gen_hint(&params, &db);

    let secret = gen_secret(params.q, params.n);

    let query = query(&params, desired_row, &secret);
    let ans = answer(&query, &db);
    let recovered = recover(&params, &secret, desired_col, &hint, &ans);

    let db_item = &db.data[desired_col][desired_row];
    assert_eq!(recovered, *db_item);

    // Flip all bits of one row
    let row_to_flip = desired_col;
    let mut db = db.clone();

    let mut updated_row = Vec::with_capacity(params.m);
    for i in 0..db.num_rows() {
        // Flip the bits in the row
        db.data[row_to_flip][i].sub_assign(Element::from(params.p, 1));
        updated_row.push(
            Element::from(params.q, db.data[row_to_flip][i].uint)
        );
    }
    db.change_q(params.q);

    // Now update the hint
    let mut hint = hint.clone();

    // This operation is much more efficient than regenerating the whole hint matrix
    let updated_hint_row = Matrix::from_col(&updated_row) * params.a.to_owned();

    for j in 0..hint.num_rows() {
        hint.data[row_to_flip][j] = updated_hint_row.data[0][j].clone();
    }

    let ans = answer(&query, &db);
    let recovered = recover(&params, &secret, desired_col, &hint, &ans);
    let db_item = &db.data[desired_col][desired_row];
    assert_eq!(recovered.uint, db_item.uint);
}

#[test]
pub fn test_simplepir_updates() {
    for i in 0..8 {
        for j in 0..8 {
            test_simplepir_updates_impl(i, j);
        }
    }
}
