// Known answers: values computed independently for fixed inputs.

use ml_kem_rs::algebraic::{
    accept_block, count_block, decode_block, get_gamma, ntt, ntt_inv, pointwise_mul_ntt,
    sample_ntt, sample_ntt_yields, sample_poly_cbd, seed_with_indices, try_sample_ntt,
    try_sample_poly_cbd,
};
use ml_kem_rs::auxiliary::{get_zeta_from_index, get_zeta_lut, modpow};
use ml_kem_rs::bytevec::ByteVec;
use ml_kem_rs::cryptographic::{g, h, j, prf, prf_eta, seed_with_byte, split_halves};
use ml_kem_rs::kpke::{key_gen, key_gen_checked, key_gen_for, matrix_yields, try_key_gen};
use ml_kem_rs::polynomial::Poly16;
use ml_kem_rs::{ml_kem_512, ml_kem_768, KemError, ParameterSet};

const ZETAS: [u16; 128] = [
    1, 1729, 2580, 3289, 2642, 630, 1897, 848, 1062, 1919, 193, 797, 2786, 3260, 569, 1746, 296,
    2447, 1339, 1476, 3046, 56, 2240, 1333, 1426, 2094, 535, 2882, 2393, 2879, 1974, 821, 289, 331,
    3253, 1756, 1197, 2304, 2277, 2055, 650, 1977, 2513, 632, 2865, 33, 1320, 1915, 2319, 1435,
    807, 452, 1438, 2868, 1534, 2402, 2647, 2617, 1481, 648, 2474, 3110, 1227, 910, 17, 2761, 583,
    2649, 1637, 723, 2288, 1100, 1409, 2662, 3281, 233, 756, 2156, 3015, 3050, 1703, 1651, 2789,
    1789, 1847, 952, 1461, 2687, 939, 2308, 2437, 2388, 733, 2337, 268, 641, 1584, 2298, 2037,
    3220, 375, 2549, 2090, 1645, 1063, 319, 2773, 757, 2099, 561, 2466, 2594, 2804, 1092, 403,
    1026, 1143, 2150, 2775, 886, 1722, 1212, 1874, 1029, 2110, 2935, 885, 2154,
];

fn hex(bytes: &[u8]) -> String {
    let mut s = String::new();
    for b in bytes {
        s.push_str(&format!("{:02x}", b));
    }
    s
}

#[test]
fn zeta_table_matches_reference() {
    let lut = get_zeta_lut();
    for i in 0..128 {
        assert_eq!(lut[i], ZETAS[i]);
        assert_eq!(get_zeta_from_index(i), ZETAS[i]);
    }
}

#[test]
fn modpow_exact_values() {
    assert_eq!(modpow(17, 0, 3329), 1);
    assert_eq!(modpow(17, 1, 3329), 17);
    assert_eq!(modpow(17, 64, 3329), 1729);
    assert_eq!(modpow(17, 128, 3329), 3328);
    assert_eq!(modpow(2, 10, 1000), 24);
    assert_eq!(modpow(255, 255, 65536), 65279);
    assert_eq!(modpow(5, 0, 1), 0);
    assert_eq!(modpow(0, 0, 7), 1);
}

#[test]
fn gamma_exact_values() {
    let expected = [17u16, 3312, 2761, 568, 583, 2746, 2649, 680];
    for i in 0..8 {
        assert_eq!(get_gamma(i), expected[i]);
    }
}

#[test]
fn sha3_256_of_empty_input() {
    assert_eq!(
        hex(&h(b"")),
        "a7ffc6f8bf1ed76651c14756a061d662f580ff4de43b49fa82d80a4b80f8434a"
    );
    assert_eq!(
        hex(&h(b"abc")),
        "3a985da74fe225b2045c172d6bd390bd855f086e3e9d525b46bfe24511431532"
    );
}

#[test]
fn shake256_of_empty_input() {
    assert_eq!(
        hex(&j(b"")),
        "46b9dd2b0ba88d13233b3feb743eeb243fcd52ea62b81b82b50c27646ed5762f"
    );
    assert_eq!(&j(b"abc")[..8], &[72, 51, 102, 96, 19, 96, 168, 119]);
}

#[test]
fn sha3_512_halves() {
    let (rho, sigma) = g(b"");
    assert_eq!(hex(&rho), "a69f73cca23a9ac5c8b567dc185a756e97c982164fe25859e0d1dcc1475c80a6");
    assert_eq!(hex(&sigma), "15b2123af1f5f94c11e3e9402c3ac558f500199d95b6d3e301758586281dcd26");
    let (rho, sigma) = g(b"abc");
    assert_eq!(&rho[..4], &[183, 81, 133, 11]);
    assert_eq!(&sigma[..4], &[16, 225, 22, 233]);
}

#[test]
fn split_halves_cuts_in_the_middle() {
    let mut digest = [0u8; 64];
    for i in 0..64 {
        digest[i] = i as u8;
    }
    let (left, right) = split_halves(&digest);
    for i in 0..32 {
        assert_eq!(left[i], i as u8);
        assert_eq!(right[i], 32 + i as u8);
    }
}

#[test]
fn seed_buffers_are_concatenations() {
    let mut seed = [0u8; 32];
    for i in 0..32 {
        seed[i] = 100 + i as u8;
    }
    let a = seed_with_byte(&seed, 9);
    assert_eq!(&a[..32], &seed[..]);
    assert_eq!(a[32], 9);
    let b = seed_with_indices(&seed, 3, 4);
    assert_eq!(&b[..32], &seed[..]);
    assert_eq!(b[32], 3);
    assert_eq!(b[33], 4);
}

#[test]
fn prf_known_answer() {
    match prf::<2>([7u8; 32], 1) {
        ByteVec::Vec128(bytes) => {
            assert_eq!(&bytes[..8], &[91, 241, 39, 4, 220, 242, 133, 198]);
            assert_eq!(bytes[127], 153);
        }
        ByteVec::Vec192(_) => panic!("expected 128 bytes"),
    }
    match prf::<3>([7u8; 32], 1) {
        ByteVec::Vec192(bytes) => {
            assert_eq!(&bytes[..8], &[91, 241, 39, 4, 220, 242, 133, 198]);
            assert_eq!(bytes[191], 33);
        }
        ByteVec::Vec128(_) => panic!("expected 192 bytes"),
    }
    let a = prf_eta(2, [7u8; 32], 1);
    assert_eq!(a.len(), 128);
    assert_eq!(a.get(127), 153);
    assert_eq!(a.as_slice()[0], 91);
}

#[test]
fn ntt_known_answer() {
    let mut coeffs = [0u16; 256];
    for i in 0..256 {
        coeffs[i] = ((i * 13) % 3329) as u16;
    }
    let transformed = ntt(Poly16::new(&coeffs));
    let expected = [1616u16, 366, 2196, 348, 942, 983, 1454, 403];
    for i in 0..8 {
        assert_eq!(transformed[i], expected[i]);
    }
    assert_eq!(transformed[255], 3307);
    assert_eq!(ntt_inv(transformed), Poly16::new(&coeffs));
}

#[test]
fn sample_ntt_known_answer() {
    let sample = sample_ntt([1u8; 32], 0, 0);
    let expected = [1590u16, 2952, 2536, 830, 2397, 83, 1310, 2289];
    for i in 0..8 {
        assert_eq!(sample[i], expected[i]);
    }
    assert_eq!(sample[255], 93);
    let sample = sample_ntt([42u8; 32], 5, 7);
    let expected = [754u16, 3314, 1146, 3286, 1961, 2869, 1520, 2213];
    for i in 0..8 {
        assert_eq!(sample[i], expected[i]);
    }
    assert_eq!(sample[255], 1137);
}

#[test]
fn sample_ntt_budget_is_exact() {
    // For this seed the 256th candidate comes out of block number 157.
    assert!(!sample_ntt_yields(&[1u8; 32], 0, 0, 156));
    assert!(sample_ntt_yields(&[1u8; 32], 0, 0, 157));
    assert_eq!(try_sample_ntt([1u8; 32], 0, 0, 156), Err(KemError::HashLayer));
    assert_eq!(try_sample_ntt([1u8; 32], 0, 0, 0), Err(KemError::HashLayer));
    assert_eq!(try_sample_ntt([1u8; 32], 0, 0, 157), Ok(sample_ntt([1u8; 32], 0, 0)));
    assert_eq!(try_sample_ntt([1u8; 32], 0, 0, 100000), Ok(sample_ntt([1u8; 32], 0, 0)));
}

#[test]
fn decode_block_formulas() {
    assert_eq!(decode_block(&[0xff, 0x0f, 0x00]), (4095, 0));
    assert_eq!(decode_block(&[0x00, 0xf0, 0xff]), (0, 4095));
    assert_eq!(decode_block(&[0x01, 0x23, 0x45]), (0x301, 0x452));
    assert_eq!(decode_block(&[0x00, 0x0d, 0x00]), (3328, 0));
    assert_eq!(decode_block(&[0x01, 0x0d, 0x00]), (3329, 0));
}

#[test]
fn accept_block_keeps_candidates_below_q() {
    let mut out = [7u16; 256];
    // Both candidates are accepted.
    assert_eq!(accept_block(&mut out, 0, &[0x01, 0x23, 0x45]), 2);
    assert_eq!(out[0], 0x301);
    assert_eq!(out[1], 0x452);
    assert_eq!(out[2], 7);
    // The first is 3329 and rejected, the second accepted.
    assert_eq!(accept_block(&mut out, 2, &[0x01, 0x0d, 0x00]), 3);
    assert_eq!(out[2], 0);
    // Both rejected.
    assert_eq!(accept_block(&mut out, 3, &[0xff, 0xff, 0xff]), 3);
    assert_eq!(out[3], 7);
    // Room for one only: the second candidate is dropped.
    assert_eq!(accept_block(&mut out, 255, &[0x01, 0x23, 0x45]), 256);
    assert_eq!(out[255], 0x301);
    // No room at all.
    assert_eq!(accept_block(&mut out, 256, &[0x02, 0x00, 0x00]), 256);
    assert_eq!(out[255], 0x301);
    assert_eq!(count_block(&[0x01, 0x23, 0x45]), 2);
    assert_eq!(count_block(&[0x01, 0x0d, 0x00]), 1);
    assert_eq!(count_block(&[0xff, 0xff, 0xff]), 0);
}

#[test]
fn cbd_known_answer() {
    let sample = sample_poly_cbd::<2>(ByteVec::Vec128([123u8; 128]));
    for i in 0..256 {
        assert_eq!(sample[i], 1);
    }
    let mut bytes = [0u8; 192];
    for i in 0..192 {
        bytes[i] = i as u8;
    }
    let sample = sample_poly_cbd::<3>(ByteVec::Vec192(bytes));
    let expected = [0u16, 1, 3328, 0, 2, 3328, 3328, 1, 2, 3328, 0, 1];
    for i in 0..12 {
        assert_eq!(sample[i], expected[i]);
    }
    for i in 0..256 {
        assert!(sample[i] <= 3 || sample[i] >= 3326);
    }
}

#[test]
fn cbd_refuses_bad_parameters() {
    let short = ByteVec::Vec128([0u8; 128]);
    let long = ByteVec::Vec192([0u8; 192]);
    assert_eq!(try_sample_poly_cbd(1, &short), Err(KemError::Configuration));
    assert_eq!(try_sample_poly_cbd(4, &long), Err(KemError::Configuration));
    assert_eq!(try_sample_poly_cbd(2, &long), Err(KemError::Configuration));
    assert_eq!(try_sample_poly_cbd(3, &short), Err(KemError::Configuration));
    assert_eq!(try_sample_poly_cbd(2, &short), Ok(Poly16::zero()));
    assert_eq!(try_sample_poly_cbd(3, &long), Ok(Poly16::zero()));
}

#[test]
fn pointwise_product_known_answer() {
    let mut a = [0u16; 256];
    let mut b = [0u16; 256];
    for i in 0..256 {
        a[i] = ((7 * i + 1) % 3329) as u16;
        b[i] = ((11 * i + 5) % 3329) as u16;
    }
    let c = pointwise_mul_ntt(&Poly16::new(&a), &Poly16::new(&b));
    let expected = [2181u16, 56, 2838, 1164, 2942, 175, 1553, 418];
    for i in 0..8 {
        assert_eq!(c[i], expected[i]);
    }
    assert_eq!(c[254], 717);
    assert_eq!(c[255], 1017);
}

#[test]
fn key_gen_known_answer() {
    let keys = key_gen([42u8; 32]);
    assert_eq!(keys.d, [42u8; 32]);
    assert_eq!(keys.counter, 6);
    assert_eq!(&keys.rho[..4], &[219, 105, 40, 35]);
    assert_eq!(&keys.sigma[..4], &[159, 202, 112, 130]);
    assert_eq!(keys.a_hat.len(), 3);
    assert_eq!(keys.a_hat[1].len(), 3);
    assert_eq!(keys.s_hat.len(), 3);
    assert_eq!(keys.e_hat.len(), 3);
    assert_eq!(keys.t_hat.len(), 3);
    assert_eq!(&keys.a_hat[0][0].coefficients()[..4], &[1972, 2159, 372, 2518]);
    assert_eq!(&keys.a_hat[1][2].coefficients()[..4], &[2292, 546, 398, 1073]);
    assert_eq!(&keys.s_hat[0].coefficients()[..4], &[862, 2616, 160, 1163]);
    assert_eq!(&keys.s_hat[2].coefficients()[..4], &[403, 11, 258, 2074]);
    assert_eq!(&keys.e_hat[0].coefficients()[..4], &[2568, 1172, 1079, 513]);
    assert_eq!(&keys.e_hat[2].coefficients()[..4], &[1673, 2200, 1067, 1507]);
    assert_eq!(&keys.t_hat[0].coefficients()[..4], &[1177, 2880, 3196, 1447]);
    assert_eq!(&keys.t_hat[2].coefficients()[252..], &[1015, 2218, 2243, 3258]);
}

#[test]
fn key_gen_for_ml_kem_512() {
    let keys = key_gen_for(&ml_kem_512(), [9u8; 32]);
    assert_eq!(keys.counter, 4);
    assert_eq!(keys.a_hat.len(), 2);
    assert_eq!(&keys.a_hat[0][1].coefficients()[..4], &[1340, 988, 1965, 1440]);
    assert_eq!(&keys.s_hat[1].coefficients()[..4], &[1012, 1813, 618, 1962]);
    assert_eq!(&keys.e_hat[1].coefficients()[..4], &[2629, 1696, 2427, 1359]);
    assert_eq!(&keys.t_hat[1].coefficients()[..4], &[1426, 3115, 1249, 3237]);
}

#[test]
fn key_gen_matrix_uses_column_then_row() {
    let keys = key_gen([42u8; 32]);
    for i in 0..3 {
        for j in 0..3 {
            assert_eq!(keys.a_hat[i][j], sample_ntt(keys.rho, j as u8, i as u8));
        }
    }
}

#[test]
fn try_key_gen_reports_each_error() {
    let bad = ParameterSet { n: 256, k: 5, q: 3329, eta1: 2, eta2: 2, du: 10, dv: 4 };
    match try_key_gen(&bad, [42u8; 32], 1000) {
        Err(e) => assert_eq!(e, KemError::Configuration),
        Ok(_) => panic!("a profile with k = 5 was accepted"),
    }
    match try_key_gen(&ml_kem_768(), [42u8; 32], 10) {
        Err(e) => assert_eq!(e, KemError::HashLayer),
        Ok(_) => panic!("ten blocks cannot yield 256 coefficients"),
    }
    match try_key_gen(&ml_kem_768(), [42u8; 32], 1000) {
        Ok(keys) => {
            let direct = key_gen([42u8; 32]);
            assert_eq!(keys.t_hat, direct.t_hat);
            assert_eq!(keys.s_hat, direct.s_hat);
            assert_eq!(keys.a_hat, direct.a_hat);
        }
        Err(_) => panic!("a thousand blocks were not enough"),
    }
}

#[test]
fn key_gen_checked_agrees_with_key_gen() {
    match key_gen_checked([42u8; 32], 1000) {
        Ok(keys) => {
            let direct = key_gen([42u8; 32]);
            assert_eq!(keys.rho, direct.rho);
            assert_eq!(keys.sigma, direct.sigma);
            assert_eq!(keys.a_hat, direct.a_hat);
            assert_eq!(keys.s_hat, direct.s_hat);
            assert_eq!(keys.e_hat, direct.e_hat);
            assert_eq!(keys.t_hat, direct.t_hat);
        }
        Err(_) => panic!("a thousand blocks were not enough"),
    }
    match key_gen_checked([42u8; 32], 100) {
        Err(e) => assert_eq!(e, KemError::HashLayer),
        Ok(_) => panic!("a hundred blocks cannot yield 256 coefficients"),
    }
    let keys = key_gen([42u8; 32]);
    assert!(matrix_yields(&keys.rho, 3, 1000));
    assert!(!matrix_yields(&keys.rho, 3, 100));
    assert!(matrix_yields(&keys.rho, 0, 0));
}
