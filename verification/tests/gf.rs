use chirp::protocol::gf::{
    build_exp_table, build_log_table, gf_add, gf_div, gf_inv, gf_mul, gf_vec_add_mul,
    gf_vec_add_mul_scalar, gf_vec_mul_scalar, EXP_TABLE, LOG_TABLE,
};

#[test]
fn exp_table_sanity() {
    assert_eq!(EXP_TABLE[0], 1); // g^0 = 1
    assert_eq!(EXP_TABLE[1], 2); // g^1 = 2 (generator)
}

#[test]
fn log_exp_inverse() {
    for i in 1u16..=255 {
        let a = i as u8;
        assert_eq!(EXP_TABLE[LOG_TABLE[a as usize] as usize], a);
    }
}

#[test]
fn mul_identity() {
    for a in 0u16..=255 {
        assert_eq!(gf_mul(a as u8, 1), a as u8);
        assert_eq!(gf_mul(1, a as u8), a as u8);
        assert_eq!(gf_mul(a as u8, 0), 0);
        assert_eq!(gf_mul(0, a as u8), 0);
    }
}

#[test]
fn mul_inverse() {
    for a in 1u16..=255 {
        let a = a as u8;
        let inv = gf_inv(a);
        assert_eq!(gf_mul(a, inv), 1, "a={a}, inv={inv}");
    }
}

#[test]
fn div_roundtrip() {
    for a in 1u16..=255 {
        for b in 1u16..=255 {
            let a = a as u8;
            let b = b as u8;
            let c = gf_mul(a, b);
            assert_eq!(gf_div(c, b), a, "a={a}, b={b}, c={c}");
        }
    }
}

#[test]
fn vec_add_mul_matches_scalar() {
    let src: Vec<u8> = (0..=255).collect();
    let scalar = 0x53;
    let mut dst_a = vec![0xABu8; 256];
    let mut dst_b = dst_a.clone();

    // Table path
    gf_vec_add_mul_scalar(&mut dst_a, &src, scalar);
    // Full path
    gf_vec_add_mul(&mut dst_b, &src, scalar);

    assert_eq!(dst_a, dst_b);
}

#[test]
fn add_is_xor() {
    assert_eq!(gf_add(0xFF, 0xFF), 0);
    assert_eq!(gf_add(0xAB, 0x00), 0xAB);
    assert_eq!(gf_add(0x12, 0x34), 0x12 ^ 0x34);
}

#[test]
fn product_of_known_elements() {
    // x^7 * x = x^8 = x^4 + x^3 + x^2 + 1
    assert_eq!(gf_mul(0x80, 0x02), 0x1D);
    assert_eq!(gf_mul(0x53, 0xCA), 0x8F);
    assert_eq!(gf_div(0, 7), 0);
    assert_eq!(gf_div(7, 0), 0);
    assert_eq!(gf_inv(0), 0);
    assert_eq!(gf_inv(2), 0x8E);
}

#[test]
fn tables_are_built_as_written() {
    assert_eq!(build_exp_table(), EXP_TABLE);
    assert_eq!(build_log_table(), LOG_TABLE);
}

#[test]
fn product_distributes_over_sums() {
    for a in (0u16..256).step_by(7) {
        for b in (0u16..256).step_by(11) {
            for c in (0u16..256).step_by(13) {
                let (a, b, c) = (a as u8, b as u8, c as u8);
                assert_eq!(gf_mul(a, gf_add(b, c)), gf_add(gf_mul(a, b), gf_mul(a, c)));
                assert_eq!(gf_mul(gf_mul(a, b), c), gf_mul(a, gf_mul(b, c)));
                assert_eq!(gf_mul(a, b), gf_mul(b, a));
            }
        }
    }
}

#[test]
fn vectors_are_scaled_and_added() {
    let mut v = vec![0u8, 1, 2, 0x80];
    gf_vec_mul_scalar(&mut v, 2);
    assert_eq!(v, [0, 2, 4, 0x1D]);
    gf_vec_mul_scalar(&mut v, 1);
    assert_eq!(v, [0, 2, 4, 0x1D]);
    gf_vec_mul_scalar(&mut v, 0);
    assert_eq!(v, [0, 0, 0, 0]);

    let mut dst = vec![1u8, 1, 1];
    gf_vec_add_mul(&mut dst, &[1, 2], 2);
    assert_eq!(dst, [3, 5, 1]);
    gf_vec_add_mul(&mut dst, &[9, 9, 9], 0);
    assert_eq!(dst, [3, 5, 1]);
    gf_vec_add_mul(&mut dst, &[1, 1, 1, 1], 1);
    assert_eq!(dst, [2, 4, 0]);
}

#[test]
fn every_length_of_tail_is_added() {
    for len in 0usize..100 {
        let src: Vec<u8> = (0..len).map(|i| (i * 37 + 5) as u8).collect();
        let mut dst: Vec<u8> = (0..len).map(|i| (i * 91) as u8).collect();
        let want: Vec<u8> = (0..len).map(|i| dst[i] ^ gf_mul(src[i], 0xB7)).collect();
        gf_vec_add_mul(&mut dst, &src, 0xB7);
        assert_eq!(dst, want, "len={len}");
    }
}
