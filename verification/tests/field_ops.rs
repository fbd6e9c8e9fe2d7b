use interaction_argument::field::add_mod;
use interaction_argument::field::batch_invert;
use interaction_argument::field::inverse;
use interaction_argument::field::mul_mod;
use interaction_argument::field::pow_mod;
use interaction_argument::field::sub_mod;

const P: u64 = 101;

#[test]
fn modular_ops_exact_values() {
    assert_eq!(add_mod(70, 40, P), 9);
    assert_eq!(sub_mod(3, 10, P), 94);
    assert_eq!(mul_mod(37, 71, P), 1);
    assert_eq!(mul_mod(5, 7, P), 35);
    assert_eq!(pow_mod(2, 0, P), 1);
    assert_eq!(pow_mod(2, 1, P), 2);
    assert_eq!(pow_mod(2, 10, P), 1024 % 101);
    assert_eq!(pow_mod(3, 4, P), 81);
}

#[test]
fn inverse_exact_values() {
    assert_eq!(inverse(37, P), 71);
    assert_eq!(inverse(57, P), 39);
    assert_eq!(inverse(1, P), 1);
    assert_eq!(inverse(100, P), 100);
    assert_eq!(inverse(2, P), 51);
}

#[test]
fn inverse_large_modulus() {
    let p: u64 = 0xffff_ffff_0000_0001;
    let v: u64 = 1234567890123456789;
    let w = inverse(v, p);
    assert!(w < p);
    assert_eq!(((v as u128) * (w as u128)) % (p as u128), 1);
}

#[test]
fn batch_invert_inverts_every_element() {
    let values: Vec<u64> = vec![37, 57, 1, 100, 2, 99, 50];
    let res = batch_invert(values.clone(), P);
    assert_eq!(res.len(), values.len());
    for i in 0..values.len() {
        assert!(res[i] < P);
        assert_eq!((values[i] * res[i]) % P, 1);
    }
}

#[test]
fn batch_invert_matches_single_inversions() {
    let values: Vec<u64> = vec![3, 5, 7, 11, 13];
    let res = batch_invert(values.clone(), P);
    for i in 0..values.len() {
        assert_eq!(res[i], inverse(values[i], P));
    }
}

#[test]
fn batch_invert_empty() {
    let res = batch_invert(Vec::new(), P);
    assert_eq!(res.len(), 0);
}
