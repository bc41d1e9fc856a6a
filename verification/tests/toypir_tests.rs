use simplepir::element::Element;
use simplepir::regev::{gen_secret, simple_params, decrypt, Params};
use simplepir::toypir::{gen_db, query, answer, answer_q};

fn test_pir_impl(
    params: &Params,
    s: &Vec<Element>,
) {
    let db_size = 50;
    let db = gen_db(db_size, params);

    let desired_idx = 24;
    let query = query(&params, desired_idx, &s, db_size);

    // Test answer_q()
    let ans = answer_q(&params, &query, &db);

    let mut p = params.clone();
    p.a = ans.0;
    let result = decrypt(&p, &s, &ans.1);
    assert_eq!(result, db[desired_idx]);

    // Test answer()
    let ans = answer(&params, &query, &db);
    let mut p = params.clone();
    p.a = ans.0;
    let result = decrypt(&p, &s, &ans.1);
    assert_eq!(result, db[desired_idx]);
}

#[test]
fn test_pir() {
    let params = simple_params();
    let s = gen_secret(params.q, params.n);
    for _ in 0..50 {
        test_pir_impl(&params, &s);
    }
}

#[test]
fn test_pir_small_db() {
    // A four-entry bit database with the target at index 1
    let params = simple_params();
    let s = gen_secret(params.q, params.n);
    let db = vec![
        Element::from(params.p, 0),
        Element::from(params.p, 1),
        Element::from(params.p, 0),
        Element::from(params.p, 0),
    ];
    let query = query(&params, 1, &s, db.len());
    let ans = answer(&params, &query, &db);
    let mut p = params.clone();
    p.a = ans.0;
    let result = decrypt(&p, &s, &ans.1);
    assert_eq!(result.uint, 1u64);
}
