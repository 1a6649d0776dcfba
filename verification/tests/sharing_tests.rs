use bgw::field::{
    scalar_add, scalar_from_u64, scalar_inv, scalar_mul, scalar_one, scalar_random, scalar_sub,
    scalar_zero,
};
use bgw::sharing::{shamir_reconstruct, shamir_share, Share};
use bgw::MpcError;

#[test]
fn test_shamir_reconstruction_correctness() {
    let secret = scalar_random();
    let shares = shamir_share(secret, 3, 5);
    // Test with exactly t+1 shares (4 shares)
    let recovered = shamir_reconstruct(&shares[..4]).unwrap();
    assert_eq!(secret, recovered);
}

#[test]
fn test_reconstruction_with_all_shares() {
    let secret = scalar_random();
    let shares = shamir_share(secret, 3, 7);
    let recovered = shamir_reconstruct(&shares).unwrap();
    assert_eq!(secret, recovered);
}

#[test]
fn test_reconstruction_fails_with_too_few_shares() {
    let secret = scalar_random();
    let shares = shamir_share(secret, 3, 5);
    // note: using 2 < t+1 shares will still return a value
    // but it should not be equal to the original secret (in general)
    let recovered = shamir_reconstruct(&shares[..3]).unwrap();
    assert_ne!(secret, recovered); // not guaranteed but likely
}

#[test]
fn test_share_1234_threshold_2_of_5() {
    let secret = scalar_from_u64(1234);
    let shares = shamir_share(secret, 2, 5);
    assert_eq!(shares.len(), 5);
    for (i, s) in shares.iter().enumerate() {
        assert_eq!(s.x, scalar_from_u64(i as u64 + 1));
    }
    assert_eq!(shamir_reconstruct(&shares[0..3]).unwrap(), secret);
    assert_eq!(shamir_reconstruct(&shares[2..5]).unwrap(), secret);
}

#[test]
fn test_degree_zero_sharing_is_constant() {
    let secret = scalar_from_u64(99);
    let shares = shamir_share(secret, 0, 3);
    for s in &shares {
        assert_eq!(s.value, secret);
    }
    assert_eq!(shamir_reconstruct(&shares[1..2]).unwrap(), secret);
}

#[test]
fn test_additive_homomorphism_concrete() {
    let s1 = scalar_from_u64(7);
    let s2 = scalar_from_u64(11);
    let sh1 = shamir_share(s1, 2, 5);
    let sh2 = shamir_share(s2, 2, 5);
    let mut summed: Vec<Share> = Vec::new();
    for i in 0..5 {
        assert_eq!(sh1[i].x, sh2[i].x);
        summed.push(Share { x: sh1[i].x, value: scalar_add(&sh1[i].value, &sh2[i].value) });
    }
    assert_eq!(shamir_reconstruct(&summed[0..3]).unwrap(), scalar_from_u64(18));
}

#[test]
fn test_constmul_homomorphism_concrete() {
    let s = scalar_from_u64(5);
    let c = scalar_from_u64(3);
    let sh = shamir_share(s, 2, 5);
    let mut scaled: Vec<Share> = Vec::new();
    for i in 0..5 {
        scaled.push(Share { x: sh[i].x, value: scalar_mul(&sh[i].value, &c) });
    }
    assert_eq!(shamir_reconstruct(&scaled[1..4]).unwrap(), scalar_from_u64(15));
}

#[test]
fn test_reconstruct_duplicate_x_fails() {
    let shares = vec![
        Share { x: scalar_from_u64(1), value: scalar_from_u64(10) },
        Share { x: scalar_from_u64(2), value: scalar_from_u64(20) },
        Share { x: scalar_from_u64(1), value: scalar_from_u64(30) },
    ];
    assert_eq!(shamir_reconstruct(&shares), Err(MpcError::DuplicateX));
}

#[test]
fn test_scalar_arithmetic() {
    let two = scalar_from_u64(2);
    let three = scalar_from_u64(3);
    assert_eq!(scalar_add(&two, &three), scalar_from_u64(5));
    assert_eq!(scalar_mul(&scalar_from_u64(6), &scalar_from_u64(7)), scalar_from_u64(42));
    assert_eq!(scalar_sub(&scalar_from_u64(7), &scalar_from_u64(5)), two);
    // subtraction wraps around the modulus
    let minus_one = scalar_sub(&scalar_zero(), &scalar_one());
    assert_ne!(minus_one, scalar_zero());
    assert_eq!(scalar_add(&minus_one, &scalar_one()), scalar_zero());
    // multiplicative inverse
    let four = scalar_from_u64(4);
    assert_eq!(scalar_mul(&four, &scalar_inv(&four)), scalar_one());
}

#[test]
fn test_random_scalars_reconstruct() {
    let secret = scalar_random();
    let shares = shamir_share(secret, 1, 3);
    assert_eq!(shamir_reconstruct(&shares[0..2]).unwrap(), secret);
    assert_eq!(shamir_reconstruct(&shares[1..3]).unwrap(), secret);
}
