//! Arithmetic in the finite field GF(2^8).
//!
//! An element is a polynomial of degree below eight over GF(2), packed into a
//! byte with the constant term in the lowest bit. Sums are XOR; products are
//! polynomial products reduced by x^8 + x^4 + x^3 + x^2 + 1. The executable
//! functions multiply through logarithm tables to the base x; every contract
//! speaks of [`gf_product`], which is the shift-and-add definition.

use vstd::prelude::*;

verus! {

/// The reduction polynomial x^8 + x^4 + x^3 + x^2 + 1.
pub const POLY: u16 = 0x11D;

/// `EXP_TABLE[i]` is x^i for `i < 255`; the last entry is a sentinel.
pub const EXP_TABLE: [u8; 256] = [
    0x01, 0x02, 0x04, 0x08, 0x10, 0x20, 0x40, 0x80, 0x1d, 0x3a, 0x74, 0xe8, 0xcd, 0x87, 0x13, 0x26,
    0x4c, 0x98, 0x2d, 0x5a, 0xb4, 0x75, 0xea, 0xc9, 0x8f, 0x03, 0x06, 0x0c, 0x18, 0x30, 0x60, 0xc0,
    0x9d, 0x27, 0x4e, 0x9c, 0x25, 0x4a, 0x94, 0x35, 0x6a, 0xd4, 0xb5, 0x77, 0xee, 0xc1, 0x9f, 0x23,
    0x46, 0x8c, 0x05, 0x0a, 0x14, 0x28, 0x50, 0xa0, 0x5d, 0xba, 0x69, 0xd2, 0xb9, 0x6f, 0xde, 0xa1,
    0x5f, 0xbe, 0x61, 0xc2, 0x99, 0x2f, 0x5e, 0xbc, 0x65, 0xca, 0x89, 0x0f, 0x1e, 0x3c, 0x78, 0xf0,
    0xfd, 0xe7, 0xd3, 0xbb, 0x6b, 0xd6, 0xb1, 0x7f, 0xfe, 0xe1, 0xdf, 0xa3, 0x5b, 0xb6, 0x71, 0xe2,
    0xd9, 0xaf, 0x43, 0x86, 0x11, 0x22, 0x44, 0x88, 0x0d, 0x1a, 0x34, 0x68, 0xd0, 0xbd, 0x67, 0xce,
    0x81, 0x1f, 0x3e, 0x7c, 0xf8, 0xed, 0xc7, 0x93, 0x3b, 0x76, 0xec, 0xc5, 0x97, 0x33, 0x66, 0xcc,
    0x85, 0x17, 0x2e, 0x5c, 0xb8, 0x6d, 0xda, 0xa9, 0x4f, 0x9e, 0x21, 0x42, 0x84, 0x15, 0x2a, 0x54,
    0xa8, 0x4d, 0x9a, 0x29, 0x52, 0xa4, 0x55, 0xaa, 0x49, 0x92, 0x39, 0x72, 0xe4, 0xd5, 0xb7, 0x73,
    0xe6, 0xd1, 0xbf, 0x63, 0xc6, 0x91, 0x3f, 0x7e, 0xfc, 0xe5, 0xd7, 0xb3, 0x7b, 0xf6, 0xf1, 0xff,
    0xe3, 0xdb, 0xab, 0x4b, 0x96, 0x31, 0x62, 0xc4, 0x95, 0x37, 0x6e, 0xdc, 0xa5, 0x57, 0xae, 0x41,
    0x82, 0x19, 0x32, 0x64, 0xc8, 0x8d, 0x07, 0x0e, 0x1c, 0x38, 0x70, 0xe0, 0xdd, 0xa7, 0x53, 0xa6,
    0x51, 0xa2, 0x59, 0xb2, 0x79, 0xf2, 0xf9, 0xef, 0xc3, 0x9b, 0x2b, 0x56, 0xac, 0x45, 0x8a, 0x09,
    0x12, 0x24, 0x48, 0x90, 0x3d, 0x7a, 0xf4, 0xf5, 0xf7, 0xf3, 0xfb, 0xeb, 0xcb, 0x8b, 0x0b, 0x16,
    0x2c, 0x58, 0xb0, 0x7d, 0xfa, 0xe9, 0xcf, 0x83, 0x1b, 0x36, 0x6c, 0xd8, 0xad, 0x47, 0x8e, 0x00,
];

/// `LOG_TABLE[a]` is the exponent below 255 whose power of x is `a`, for `a != 0`.
pub const LOG_TABLE: [u8; 256] = [
    0, 0, 1, 25, 2, 50, 26, 198, 3, 223, 51, 238, 27, 104, 199, 75,
    4, 100, 224, 14, 52, 141, 239, 129, 28, 193, 105, 248, 200, 8, 76, 113,
    5, 138, 101, 47, 225, 36, 15, 33, 53, 147, 142, 218, 240, 18, 130, 69,
    29, 181, 194, 125, 106, 39, 249, 185, 201, 154, 9, 120, 77, 228, 114, 166,
    6, 191, 139, 98, 102, 221, 48, 253, 226, 152, 37, 179, 16, 145, 34, 136,
    54, 208, 148, 206, 143, 150, 219, 189, 241, 210, 19, 92, 131, 56, 70, 64,
    30, 66, 182, 163, 195, 72, 126, 110, 107, 58, 40, 84, 250, 133, 186, 61,
    202, 94, 155, 159, 10, 21, 121, 43, 78, 212, 229, 172, 115, 243, 167, 87,
    7, 112, 192, 247, 140, 128, 99, 13, 103, 74, 222, 237, 49, 197, 254, 24,
    227, 165, 153, 119, 38, 184, 180, 124, 17, 68, 146, 217, 35, 32, 137, 46,
    55, 63, 209, 91, 149, 188, 207, 205, 144, 135, 151, 178, 220, 252, 190, 97,
    242, 86, 211, 171, 20, 42, 93, 158, 132, 60, 57, 83, 71, 109, 65, 162,
    31, 45, 67, 216, 183, 123, 164, 118, 196, 23, 73, 236, 127, 12, 111, 246,
    108, 161, 59, 82, 41, 157, 85, 170, 251, 96, 134, 177, 187, 204, 62, 90,
    203, 89, 95, 176, 156, 169, 160, 81, 11, 245, 22, 235, 122, 117, 44, 215,
    79, 174, 213, 233, 230, 231, 173, 232, 116, 214, 244, 234, 168, 80, 88, 175,
];

// ---------------------------------------------------------------------------
// The field, as mathematics
// ---------------------------------------------------------------------------

/// `a` times the polynomial x.
pub open spec fn xtime(a: u8) -> u8 {
    if a & 0x80 != 0 {
        (a << 1) ^ 0x1d
    } else {
        a << 1
    }
}

/// The sum of those `p_i` whose bit is set in `b`.
pub open spec fn select_sum(
    p0: u8,
    p1: u8,
    p2: u8,
    p3: u8,
    p4: u8,
    p5: u8,
    p6: u8,
    p7: u8,
    b: u8,
) -> u8 {
    (if b & 0x01 != 0 { p0 } else { 0 })
    ^ (if b & 0x02 != 0 { p1 } else { 0 })
    ^ (if b & 0x04 != 0 { p2 } else { 0 })
    ^ (if b & 0x08 != 0 { p3 } else { 0 })
    ^ (if b & 0x10 != 0 { p4 } else { 0 })
    ^ (if b & 0x20 != 0 { p5 } else { 0 })
    ^ (if b & 0x40 != 0 { p6 } else { 0 })
    ^ (if b & 0x80 != 0 { p7 } else { 0 })
}

/// The product of `a` and `b`: the sum of `a * x^i` over the terms x^i of `b`.
#[verifier::opaque]
pub open spec fn gf_product(a: u8, b: u8) -> u8 {
    let a1 = xtime(a);
    let a2 = xtime(a1);
    let a3 = xtime(a2);
    let a4 = xtime(a3);
    let a5 = xtime(a4);
    let a6 = xtime(a5);
    let a7 = xtime(a6);
    select_sum(a, a1, a2, a3, a4, a5, a6, a7, b)
}

/// x^n.
pub open spec fn x_pow(n: nat) -> u8
    decreases n,
{
    if n == 0 {
        1
    } else {
        xtime(x_pow((n - 1) as nat))
    }
}

/// Every byte of `v` times `scalar`.
pub open spec fn scaled(v: Seq<u8>, scalar: u8) -> Seq<u8> {
    Seq::new(v.len(), |i: int| gf_product(v[i], scalar))
}

/// `dst` with `scalar * src` added to it, over the bytes that both have.
pub open spec fn add_scaled(dst: Seq<u8>, src: Seq<u8>, scalar: u8) -> Seq<u8> {
    Seq::new(
        dst.len(),
        |i: int|
            if i < src.len() {
                dst[i] ^ gf_product(src[i], scalar)
            } else {
                dst[i]
            },
    )
}

// ---------------------------------------------------------------------------
// XOR
// ---------------------------------------------------------------------------

/// XOR is a commutative group operation in which every element is its own inverse.
pub proof fn lemma_xor_group(a: u8, b: u8, c: u8)
    ensures
        a ^ b == b ^ a,
        (a ^ b) ^ c == a ^ (b ^ c),
        a ^ 0 == a,
        0 ^ a == a,
        a ^ a == 0,
        (a ^ b) ^ b == a,
{
    assert(a ^ b == b ^ a && (a ^ b) ^ c == a ^ (b ^ c) && a ^ 0 == a && 0 ^ a == a && a ^ a == 0
        && (a ^ b) ^ b == a) by (bit_vector);
}

// ---------------------------------------------------------------------------
// Products by the definition
// ---------------------------------------------------------------------------

/// Multiplication by x is linear.
proof fn lemma_xtime_linear(a: u8, b: u8)
    ensures
        xtime(a ^ b) == xtime(a) ^ xtime(b),
        xtime(0) == 0,
{
    assert(xtime(a ^ b) == xtime(a) ^ xtime(b) && xtime(0) == 0) by (bit_vector);
}

proof fn lemma_xtime_of_sum(
    t0: u8,
    t1: u8,
    t2: u8,
    t3: u8,
    t4: u8,
    t5: u8,
    t6: u8,
    t7: u8,
)
    ensures
        xtime(t0 ^ t1 ^ t2 ^ t3 ^ t4 ^ t5 ^ t6 ^ t7) == xtime(t0) ^ xtime(t1) ^ xtime(t2) ^ xtime(t3)
            ^ xtime(t4) ^ xtime(t5) ^ xtime(t6) ^ xtime(t7),
        xtime(0) == 0,
{
    lemma_xtime_linear(t0, t1);
    lemma_xtime_linear(t0 ^ t1, t2);
    lemma_xtime_linear(t0 ^ t1 ^ t2, t3);
    lemma_xtime_linear(t0 ^ t1 ^ t2 ^ t3, t4);
    lemma_xtime_linear(t0 ^ t1 ^ t2 ^ t3 ^ t4, t5);
    lemma_xtime_linear(t0 ^ t1 ^ t2 ^ t3 ^ t4 ^ t5, t6);
    lemma_xtime_linear(t0 ^ t1 ^ t2 ^ t3 ^ t4 ^ t5 ^ t6, t7);
}

proof fn bits_split_right_factor(
    p0: u8,
    p1: u8,
    p2: u8,
    p3: u8,
    p4: u8,
    p5: u8,
    p6: u8,
    p7: u8,
    b: u8,
    c: u8,
)
    by (bit_vector)
    ensures
        select_sum(p0, p1, p2, p3, p4, p5, p6, p7, b ^ c) == select_sum(
            p0,
            p1,
            p2,
            p3,
            p4,
            p5,
            p6,
            p7,
            b,
        ) ^ select_sum(p0, p1, p2, p3, p4, p5, p6, p7, c),
{
}

proof fn bits_units(b: u8)
    by (bit_vector)
    ensures
        xtime(0) == 0,
        xtime(1) == 2,
        xtime(2) == 4,
        xtime(4) == 8,
        xtime(8) == 16,
        xtime(16) == 32,
        xtime(32) == 64,
        xtime(64) == 128,
        select_sum(1, 2, 4, 8, 16, 32, 64, 128, b) == b,
        select_sum(0, 0, 0, 0, 0, 0, 0, 0, b) == 0,
{
}

/// Multiplying the left factor by x multiplies the product by x.
proof fn lemma_product_shift(a: u8, b: u8)
    ensures
        gf_product(xtime(a), b) == xtime(gf_product(a, b)),
{
    reveal(gf_product);
    let a1 = xtime(a);
    let a2 = xtime(a1);
    let a3 = xtime(a2);
    let a4 = xtime(a3);
    let a5 = xtime(a4);
    let a6 = xtime(a5);
    let a7 = xtime(a6);
    lemma_xtime_of_sum(
        if b & 0x01 != 0 { a } else { 0 },
        if b & 0x02 != 0 { a1 } else { 0 },
        if b & 0x04 != 0 { a2 } else { 0 },
        if b & 0x08 != 0 { a3 } else { 0 },
        if b & 0x10 != 0 { a4 } else { 0 },
        if b & 0x20 != 0 { a5 } else { 0 },
        if b & 0x40 != 0 { a6 } else { 0 },
        if b & 0x80 != 0 { a7 } else { 0 },
    );
}

proof fn lemma_product_left_units(b: u8)
    ensures
        gf_product(1, b) == b,
        gf_product(0, b) == 0,
{
    reveal(gf_product);
    bits_units(b);
}

/// Products of powers of x add exponents.
proof fn lemma_product_of_powers(m: nat, n: nat)
    ensures
        gf_product(x_pow(m), x_pow(n)) == x_pow(m + n),
    decreases m,
{
    if m == 0 {
        lemma_product_left_units(x_pow(n));
    } else {
        lemma_product_of_powers((m - 1) as nat, n);
        lemma_product_shift(x_pow((m - 1) as nat), x_pow(n));
        assert(((m - 1) + n) as nat == (m + n - 1) as nat);
    }
}

// ---------------------------------------------------------------------------
// The tables
// ---------------------------------------------------------------------------

/// Entry `i` of the exponential table.
#[verifier::opaque]
pub open spec fn exp_entry(i: int) -> u8 {
    EXP_TABLE@[i]
}

/// Entry `a` of the logarithm table.
#[verifier::opaque]
pub open spec fn log_entry(a: int) -> u8 {
    LOG_TABLE@[a]
}

/// `xtime` in arithmetic: doubling, and beyond degree seven the reduction, which
/// flips bits 0, 2, 3 and 4.
spec fn xtime_arith(a: u8) -> int {
    if a < 128 {
        2 * a
    } else {
        2 * a - 256 + 1 + (if (a / 2) % 2 == 1 {
            -4int
        } else {
            4
        }) + (if (a / 4) % 2 == 1 {
            -8int
        } else {
            8
        }) + (if (a / 8) % 2 == 1 {
            -16int
        } else {
            16
        })
    }
}

proof fn bits_xtime_arith(a: u8)
    by (bit_vector)
    ensures
        xtime(a) == xtime_arith(a),
{
}

#[verifier::spinoff_prover]
#[verifier::rlimit(60)]
proof fn lemma_exp_entries_double(i: int)
    requires
        0 <= i < 254,
    ensures
        exp_entry(i + 1) == xtime_arith(exp_entry(i)),
{
    reveal(exp_entry);
}

#[verifier::spinoff_prover]
proof fn lemma_exp_entries_ends()
    ensures
        exp_entry(0) == 1,
        exp_entry(254) == 142,
        exp_entry(255) == 0,
        log_entry(0) == 0,
{
    reveal(exp_entry);
    reveal(log_entry);
}

#[verifier::spinoff_prover]
#[verifier::rlimit(60)]
proof fn lemma_exp_of_log(a: int)
    requires
        0 < a < 256,
    ensures
        log_entry(a) < 255,
        exp_entry(log_entry(a) as int) == a,
{
    reveal(exp_entry);
    reveal(log_entry);
}

#[verifier::spinoff_prover]
#[verifier::rlimit(60)]
proof fn lemma_log_of_exp(i: int)
    requires
        0 <= i < 255,
    ensures
        log_entry(exp_entry(i) as int) == i,
        exp_entry(i) != 0,
{
    reveal(exp_entry);
    reveal(log_entry);
}

/// The exponential table holds the powers of x.
proof fn lemma_exp_entry_is_power(i: int)
    requires
        0 <= i < 255,
    ensures
        exp_entry(i) == x_pow(i as nat),
    decreases i,
{
    if i == 0 {
        lemma_exp_entries_ends();
    } else {
        lemma_exp_entry_is_power(i - 1);
        lemma_exp_entries_double(i - 1);
        bits_xtime_arith(exp_entry(i - 1));
    }
}

/// The tables are the exponential and the logarithm to the base x, and undo each other.
pub proof fn lemma_tables()
    ensures
        forall|i: int| 0 <= i < 255 ==> LOG_TABLE@[#[trigger] EXP_TABLE@[i] as int] == i,
        forall|a: int| 0 < a < 256 ==> EXP_TABLE@[#[trigger] LOG_TABLE@[a] as int] == a,
        forall|i: int| 0 <= i < 255 ==> #[trigger] EXP_TABLE@[i] == x_pow(i as nat),
        forall|a: int|
            0 < a < 256 ==> (#[trigger] LOG_TABLE@[a]) < 255 && x_pow(LOG_TABLE@[a] as nat) == a,
        EXP_TABLE@[255] == 0,
        LOG_TABLE@[0] == 0,
{
    reveal(exp_entry);
    reveal(log_entry);
    lemma_exp_entries_ends();
    assert forall|i: int| 0 <= i < 255 implies #[trigger] EXP_TABLE@[i] == x_pow(i as nat) by {
        lemma_exp_entry_is_power(i);
    }
    assert forall|i: int| 0 <= i < 255 implies LOG_TABLE@[#[trigger] EXP_TABLE@[i] as int] == i by {
        lemma_log_of_exp(i);
    }
    assert forall|a: int| 0 < a < 256 implies EXP_TABLE@[#[trigger] LOG_TABLE@[a] as int] == a by {
        lemma_exp_of_log(a);
    }
    assert forall|a: int| 0 < a < 256 implies (#[trigger] LOG_TABLE@[a]) < 255 && x_pow(
        LOG_TABLE@[a] as nat,
    ) == a by {
        lemma_nonzero_is_power(a as u8);
    }
}

/// The nonzero elements are the powers of x below the 255th.
proof fn lemma_nonzero_is_power(a: u8)
    requires
        a != 0,
    ensures
        log_entry(a as int) < 255,
        a == x_pow(log_entry(a as int) as nat),
{
    lemma_exp_of_log(a as int);
    lemma_exp_entry_is_power(log_entry(a as int) as int);
}

proof fn lemma_full_turn()
    ensures
        x_pow(255) == 1,
{
    lemma_exp_entry_is_power(254);
    lemma_exp_entries_ends();
    bits_xtime_arith(142);
}

/// x^255 = 1, so exponents count modulo 255.
proof fn lemma_power_period(n: nat)
    ensures
        x_pow(n + 255) == x_pow(n),
    decreases n,
{
    if n == 0 {
        lemma_full_turn();
    } else {
        lemma_power_period((n - 1) as nat);
    }
}

/// The exponential table gives the power for a sum of two logarithms.
proof fn lemma_power_from_table(n: nat)
    requires
        n < 510,
    ensures
        x_pow(n) == exp_entry(n as int % 255),
        x_pow(n) != 0,
{
    let i = if n < 255 {
        n as int
    } else {
        n - 255
    };
    assert(i == n as int % 255);
    assert(x_pow(n) == x_pow(i as nat)) by {
        if n >= 255 {
            lemma_power_period(i as nat);
        }
    }
    lemma_exp_entry_is_power(i);
    lemma_log_of_exp(i);
}

/// A product of nonzero elements is read off the tables.
proof fn lemma_product_by_logs(a: u8, b: u8)
    requires
        a != 0,
        b != 0,
    ensures
        log_entry(a as int) < 255,
        log_entry(b as int) < 255,
        gf_product(a, b) == exp_entry((log_entry(a as int) + log_entry(b as int)) % 255),
        gf_product(a, b) != 0,
{
    lemma_nonzero_is_power(a);
    lemma_nonzero_is_power(b);
    let m = log_entry(a as int) as nat;
    let n = log_entry(b as int) as nat;
    lemma_product_of_powers(m, n);
    lemma_power_from_table(m + n);
}

// ---------------------------------------------------------------------------
// Laws of the field
// ---------------------------------------------------------------------------

/// Zero absorbs, on either side.
pub proof fn lemma_product_zero(a: u8)
    ensures
        gf_product(a, 0) == 0,
        gf_product(0, a) == 0,
{
    lemma_product_left_units(a);
    lemma_product_distributes(a, 0, 0);
    lemma_xor_group(gf_product(a, 0), 0, 0);
    lemma_xor_group(0, 0, 0);
}

/// A product is zero exactly when a factor is.
pub proof fn lemma_product_nonzero(a: u8, b: u8)
    ensures
        gf_product(a, b) == 0 <==> a == 0 || b == 0,
{
    if a == 0 || b == 0 {
        lemma_product_zero(a);
        lemma_product_zero(b);
    } else {
        lemma_product_by_logs(a, b);
    }
}

/// Multiplication is commutative.
pub proof fn lemma_product_commutes(a: u8, b: u8)
    ensures
        gf_product(a, b) == gf_product(b, a),
{
    if a == 0 || b == 0 {
        lemma_product_zero(a);
        lemma_product_zero(b);
    } else {
        lemma_product_by_logs(a, b);
        lemma_product_by_logs(b, a);
    }
}

/// Multiplication is associative.
pub proof fn lemma_product_associates(a: u8, b: u8, c: u8)
    ensures
        gf_product(gf_product(a, b), c) == gf_product(a, gf_product(b, c)),
{
    if a == 0 || b == 0 || c == 0 {
        lemma_product_zero(a);
        lemma_product_zero(b);
        lemma_product_zero(c);
        lemma_product_zero(gf_product(a, b));
        lemma_product_zero(gf_product(b, c));
    } else {
        lemma_nonzero_is_power(a);
        lemma_nonzero_is_power(b);
        lemma_nonzero_is_power(c);
        let i = log_entry(a as int) as nat;
        let j = log_entry(b as int) as nat;
        let k = log_entry(c as int) as nat;
        lemma_product_of_powers(i, j);
        lemma_product_of_powers(i + j, k);
        lemma_product_of_powers(j, k);
        lemma_product_of_powers(i, j + k);
        assert(i + j + k == i + (j + k));
    }
}

/// Multiplication distributes over addition.
pub proof fn lemma_product_distributes(a: u8, b: u8, c: u8)
    ensures
        gf_product(a, b ^ c) == gf_product(a, b) ^ gf_product(a, c),
{
    reveal(gf_product);
    let a1 = xtime(a);
    let a2 = xtime(a1);
    let a3 = xtime(a2);
    let a4 = xtime(a3);
    let a5 = xtime(a4);
    let a6 = xtime(a5);
    bits_split_right_factor(a, a1, a2, a3, a4, a5, a6, xtime(a6), b, c);
}

/// Multiplication distributes over addition in the left factor too.
pub proof fn lemma_product_distributes_left(a: u8, b: u8, c: u8)
    ensures
        gf_product(a ^ b, c) == gf_product(a, c) ^ gf_product(b, c),
{
    lemma_product_commutes(a ^ b, c);
    lemma_product_distributes(c, a, b);
    lemma_product_commutes(a, c);
    lemma_product_commutes(b, c);
}

/// One is neutral.
pub proof fn lemma_product_one(a: u8)
    ensures
        gf_product(a, 1) == a,
        gf_product(1, a) == a,
{
    lemma_product_left_units(a);
    lemma_product_commutes(a, 1);
}

/// Every nonzero element has an inverse.
pub proof fn lemma_inverse_exists(a: u8) -> (r: u8)
    requires
        a != 0,
    ensures
        gf_product(a, r) == 1,
{
    lemma_nonzero_is_power(a);
    let n = log_entry(a as int) as nat;
    lemma_product_of_powers(n, (255 - n) as nat);
    lemma_full_turn();
    x_pow((255 - n) as nat)
}

/// A nonzero factor can be cancelled.
pub proof fn lemma_product_cancels(a: u8, b: u8, c: u8)
    requires
        c != 0,
        gf_product(a, c) == gf_product(b, c),
    ensures
        a == b,
{
    lemma_product_distributes_left(a, b, c);
    lemma_xor_group(gf_product(a, c), 0, 0);
    lemma_product_nonzero(a ^ b, c);
    lemma_xor_group(a, b, 0);
    lemma_xor_group(b, 0, 0);
}

// ---------------------------------------------------------------------------
// Executable arithmetic
// ---------------------------------------------------------------------------

/// Reads the exponential table.
fn exp_of(i: usize) -> (r: u8)
    requires
        i < 256,
    ensures
        r == exp_entry(i as int),
{
    reveal(exp_entry);
    EXP_TABLE[i]
}

/// Reads the logarithm table.
fn log_of(a: u8) -> (r: u8)
    ensures
        r == log_entry(a as int),
{
    reveal(log_entry);
    LOG_TABLE[a as usize]
}

proof fn lemma_is_exp_table(t: Seq<u8>)
    requires
        t.len() == 256,
        forall|j: int| 0 <= j < 256 ==> #[trigger] t[j] == exp_entry(j),
    ensures
        t == EXP_TABLE@,
{
    let table = EXP_TABLE@;
    assert forall|j: int| 0 <= j < 256 implies #[trigger] t[j] == table[j] by {
        reveal(exp_entry);
    }
    assert(t =~= table);
}

proof fn lemma_is_log_table(t: Seq<u8>)
    requires
        t.len() == 256,
        forall|j: int| 0 <= j < 256 ==> #[trigger] t[j] == log_entry(j),
    ensures
        t == LOG_TABLE@,
{
    let table = LOG_TABLE@;
    assert forall|j: int| 0 <= j < 256 implies #[trigger] t[j] == table[j] by {
        reveal(log_entry);
    }
    assert(t =~= table);
}

/// Builds the exponential table by repeated multiplication with x.
pub fn build_exp_table() -> (table: [u8; 256])
    ensures
        table@ == EXP_TABLE@,
{
    let mut table: [u8; 256] = [0u8; 256];
    let mut val: u16 = 1;
    let mut i: usize = 0;
    proof {
        lemma_exp_entries_ends();
    }
    while i < 255
        invariant
            i <= 255,
            i < 255 ==> val == exp_entry(i as int),
            forall|j: int| 0 <= j < i ==> table@[j] == exp_entry(j),
            forall|j: int| i <= j < 256 ==> table@[j] == 0,
        decreases 255 - i,
    {
        table[i] = val as u8;
        let ghost before = val;
        val = val << 1;
        if val & 0x100 != 0 {
            val = val ^ POLY;
        }
        proof {
            assert(before < 256 ==> (if (before << 1) & 0x100 != 0 {
                (before << 1) ^ 0x11D
            } else {
                before << 1
            }) == xtime(before as u8)) by (bit_vector);
            if i < 254 {
                lemma_exp_entries_double(i as int);
                bits_xtime_arith(exp_entry(i as int));
            }
        }
        i = i + 1;
    }
    proof {
        lemma_exp_entries_ends();
        assert forall|j: int| 0 <= j < 256 implies #[trigger] table@[j] == exp_entry(j) by {}
        lemma_is_exp_table(table@);
    }
    table
}

/// Builds the logarithm table from the exponential table.
pub fn build_log_table() -> (table: [u8; 256])
    ensures
        table@ == LOG_TABLE@,
{
    let exp: [u8; 256] = build_exp_table();
    let mut table: [u8; 256] = [0u8; 256];
    let mut i: usize = 0;
    proof {
        reveal(exp_entry);
    }
    assert(forall|j: int| 0 <= j < 256 ==> exp@[j] == exp_entry(j));
    while i < 255
        invariant
            i <= 255,
            forall|j: int| 0 <= j < 256 ==> exp@[j] == exp_entry(j),
            forall|j: int| 0 <= j < i ==> table@[#[trigger] exp_entry(j) as int] == j,
            table@[0] == 0,
        decreases 255 - i,
    {
        table[exp[i] as usize] = i as u8;
        proof {
            lemma_log_of_exp(i as int);
            assert forall|j: int| 0 <= j < i + 1 implies table@[#[trigger] exp_entry(j) as int]
                == j by {
                lemma_log_of_exp(j);
            }
        }
        i = i + 1;
    }
    proof {
        assert forall|a: int| 0 <= a < 256 implies table@[a] == log_entry(a) by {
            if a > 0 {
                lemma_exp_of_log(a);
            } else {
                lemma_exp_entries_ends();
            }
        }
        lemma_is_log_table(table@);
    }
    table
}

/// Addition in GF(2^8).
pub fn gf_add(a: u8, b: u8) -> (r: u8)
    ensures
        r == a ^ b,
{
    a ^ b
}

/// Multiplication in GF(2^8).
pub fn gf_mul(a: u8, b: u8) -> (r: u8)
    ensures
        r == gf_product(a, b),
{
    if a == 0 || b == 0 {
        proof {
            lemma_product_zero(a);
            lemma_product_zero(b);
        }
        return 0;
    }
    proof {
        lemma_product_by_logs(a, b);
    }
    let log_sum: u16 = log_of(a) as u16 + log_of(b) as u16;
    exp_of((log_sum % 255) as usize)
}

/// Multiplicative inverse in GF(2^8). Zero has none; it is mapped to zero.
pub fn gf_inv(a: u8) -> (r: u8)
    ensures
        a == 0 ==> r == 0,
        a != 0 ==> gf_product(a, r) == 1,
{
    if a == 0 {
        return 0;
    }
    proof {
        lemma_nonzero_is_power(a);
        let n = log_entry(a as int) as nat;
        lemma_power_from_table((255 - n) as nat);
        lemma_product_of_powers(n, (255 - n) as nat);
        lemma_full_turn();
    }
    let neg_log: u16 = (255 - log_of(a) as u16) % 255;
    exp_of(neg_log as usize)
}

/// Division in GF(2^8): the `r` with `r * b == a`. A zero operand gives zero.
pub fn gf_div(a: u8, b: u8) -> (r: u8)
    ensures
        a == 0 || b == 0 ==> r == 0,
        b != 0 ==> gf_product(r, b) == a,
{
    if a == 0 || b == 0 {
        proof {
            lemma_product_zero(b);
        }
        return 0;
    }
    proof {
        lemma_nonzero_is_power(a);
        lemma_nonzero_is_power(b);
    }
    let log_a: u16 = log_of(a) as u16;
    let log_b: u16 = log_of(b) as u16;
    let log_diff: u16 = (log_a + 255 - log_b) % 255;
    proof {
        lemma_exp_entry_is_power(log_diff as int);
        lemma_product_of_powers(log_diff as nat, log_b as nat);
        if log_a < log_b {
            lemma_power_period(log_a as nat);
            assert(log_diff as nat + log_b as nat == log_a as nat + 255);
        } else {
            assert(log_diff as nat + log_b as nat == log_a as nat);
        }
    }
    exp_of(log_diff as usize)
}

/// Multiplies every byte of `vec` by `scalar`, in place.
pub fn gf_vec_mul_scalar(vec: &mut [u8], scalar: u8)
    ensures
        final(vec)@ == scaled(old(vec)@, scalar),
        final(vec)@.len() == old(vec)@.len(),
        forall|i: int|
            0 <= i < old(vec)@.len() ==> #[trigger] final(vec)@[i] == gf_product(
                old(vec)@[i],
                scalar,
            ),
{
    let ghost before = vec@;
    let mut i: usize = 0;
    while i < vec.len()
        invariant
            i <= vec@.len() == before.len(),
            forall|j: int| 0 <= j < i ==> vec@[j] == gf_product(before[j], scalar),
            forall|j: int| i <= j < before.len() ==> vec@[j] == before[j],
        decreases before.len() - i,
    {
        let b: u8 = vec[i];
        vec[i] = gf_mul(b, scalar);
        i = i + 1;
    }
    proof {
        assert(vec@ =~= scaled(before, scalar));
    }
}

/// Adds `scalar * src` to `dst` by way of the tables.
///
/// The logarithm of zero reads as zero, so a zero scalar counts as one here;
/// [`gf_vec_add_mul`] deals with it before it comes this far.
pub fn gf_vec_add_mul_scalar(dst: &mut [u8], src: &[u8], scalar: u8)
    requires
        old(dst)@.len() <= src@.len(),
    ensures
        final(dst)@ == add_scaled(
            old(dst)@,
            src@,
            if scalar == 0 {
                1
            } else {
                scalar
            },
        ),
{
    let ghost before = dst@;
    let ghost factor: u8 = if scalar == 0 {
        1
    } else {
        scalar
    };
    let log_s: u16 = log_of(scalar) as u16;
    proof {
        lemma_exp_entries_ends();
        lemma_log_of_exp(0);
        lemma_nonzero_is_power(factor);
    }
    let mut i: usize = 0;
    while i < dst.len()
        invariant
            i <= dst@.len() == before.len() <= src@.len(),
            factor != 0,
            log_s == log_entry(factor as int),
            log_s < 255,
            forall|j: int|
                0 <= j < i ==> dst@[j] == before[j] ^ gf_product(src@[j], factor),
            forall|j: int| i <= j < before.len() ==> dst@[j] == before[j],
        decreases before.len() - i,
    {
        let b: u8 = src[i];
        if b != 0 {
            proof {
                lemma_product_by_logs(b, factor);
            }
            let log_sum: u16 = log_of(b) as u16 + log_s;
            let d: u8 = dst[i];
            dst[i] = d ^ exp_of((log_sum % 255) as usize);
        } else {
            proof {
                lemma_product_zero(factor);
                lemma_xor_group(before[i as int], 0, 0);
            }
        }
        i = i + 1;
    }
    proof {
        assert(dst@ =~= add_scaled(before, src@, factor));
    }
}

proof fn bits_nibbles(b: u8)
    by (bit_vector)
    ensures
        (b & 0x0f) ^ ((b >> 4) << 4) == b,
        b & 0x0f < 16,
        b >> 4 < 16,
{
}

/// Adds `scalar * src` to `dst` by way of two sixteen-entry tables, one for the
/// low half of a byte and one for the high half: whole blocks of 32 bytes first,
/// then the tail through [`gf_vec_add_mul_scalar`].
fn gf_vec_add_mul_split(dst: &mut [u8], src: &[u8], scalar: u8)
    requires
        old(dst)@.len() <= src@.len(),
        scalar != 0,
    ensures
        final(dst)@ == add_scaled(old(dst)@, src@, scalar),
{
    let ghost before = dst@;
    let len: usize = dst.len();
    let mut lo: [u8; 16] = [0u8; 16];
    let mut hi: [u8; 16] = [0u8; 16];
    let mut n: u8 = 0;
    while n < 16
        invariant
            n <= 16,
            forall|m: u8| m < n ==> #[trigger] lo@[m as int] == gf_product(m, scalar),
            forall|m: u8| m < n ==> #[trigger] hi@[m as int] == gf_product(m << 4, scalar),
        decreases 16 - n,
    {
        lo[n as usize] = gf_mul(n, scalar);
        hi[n as usize] = gf_mul(n << 4, scalar);
        n = n + 1;
    }

    let mut i: usize = 0;
    while len - i >= 32
        invariant
            i <= len == dst@.len() == before.len() <= src@.len(),
            forall|m: u8| m < 16 ==> #[trigger] lo@[m as int] == gf_product(m, scalar),
            forall|m: u8| m < 16 ==> #[trigger] hi@[m as int] == gf_product(m << 4, scalar),
            forall|j: int|
                0 <= j < i ==> dst@[j] == before[j] ^ gf_product(src@[j], scalar),
            forall|j: int| i <= j < before.len() ==> dst@[j] == before[j],
        decreases len - i,
    {
        let end: usize = i + 32;
        while i < end
            invariant
                i <= end <= len == dst@.len() == before.len() <= src@.len(),
                forall|m: u8| m < 16 ==> #[trigger] lo@[m as int] == gf_product(m, scalar),
                forall|m: u8| m < 16 ==> #[trigger] hi@[m as int] == gf_product(m << 4, scalar),
                forall|j: int|
                    0 <= j < i ==> dst@[j] == before[j] ^ gf_product(src@[j], scalar),
                forall|j: int| i <= j < before.len() ==> dst@[j] == before[j],
            decreases end - i,
        {
            let b: u8 = src[i];
            let low: u8 = b & 0x0f;
            let high: u8 = b >> 4;
            proof {
                bits_nibbles(b);
                lemma_product_distributes_left(low, high << 4, scalar);
            }
            let product: u8 = lo[low as usize] ^ hi[high as usize];
            let d: u8 = dst[i];
            dst[i] = d ^ product;
            i = i + 1;
        }
    }

    if i < len {
        let (_, tail) = dst.split_at_mut(i);
        gf_vec_add_mul_scalar(tail, &src[i..len], scalar);
        proof {
            assert(dst@ =~= add_scaled(before, src@, scalar));
        }
    } else {
        proof {
            assert(dst@ =~= add_scaled(before, src@, scalar));
        }
    }
}

/// Adds `scalar * src` to `dst`, over the bytes that both have.
pub fn gf_vec_add_mul(dst: &mut [u8], src: &[u8], scalar: u8)
    ensures
        final(dst)@ == add_scaled(old(dst)@, src@, scalar),
        final(dst)@.len() == old(dst)@.len(),
        forall|i: int|
            0 <= i < old(dst)@.len() && i < src@.len() ==> #[trigger] final(dst)@[i] == old(dst)@[i]
                ^ gf_product(src@[i], scalar),
        forall|i: int|
            src@.len() <= i < old(dst)@.len() ==> #[trigger] final(dst)@[i] == old(dst)@[i],
{
    let ghost before = dst@;
    let len: usize = if dst.len() < src.len() {
        dst.len()
    } else {
        src.len()
    };
    if scalar == 0 {
        proof {
            assert forall|i: int| 0 <= i < before.len() implies before[i] == #[trigger] add_scaled(
                before,
                src@,
                scalar,
            )[i] by {
                if i < src@.len() {
                    lemma_product_zero(src@[i]);
                    lemma_xor_group(before[i], 0, 0);
                }
            }
            assert(dst@ =~= add_scaled(before, src@, scalar));
        }
        return ;
    }
    if scalar == 1 {
        let mut i: usize = 0;
        while i < len
            invariant
                i <= len <= dst@.len() == before.len(),
                len <= src@.len(),
                forall|j: int| 0 <= j < i ==> dst@[j] == before[j] ^ gf_product(src@[j], 1),
                forall|j: int| i <= j < before.len() ==> dst@[j] == before[j],
            decreases len - i,
        {
            proof {
                lemma_product_one(src@[i as int]);
            }
            let d: u8 = dst[i];
            dst[i] = d ^ src[i];
            i = i + 1;
        }
        proof {
            assert(dst@ =~= add_scaled(before, src@, scalar));
        }
        return ;
    }
    let (head, _) = dst.split_at_mut(len);
    gf_vec_add_mul_split(head, &src[0..len], scalar);
    proof {
        assert(dst@ =~= add_scaled(before, src@, scalar));
    }
}

// ---------------------------------------------------------------------------
// Laws of vectors
// ---------------------------------------------------------------------------

/// Multiplying by x doubles, and beyond degree seven takes the reduction polynomial off.
pub proof fn lemma_times_x(a: u8)
    ensures
        gf_product(a, 2) == (if a < 0x80 {
            (2 * a) as u8
        } else {
            (2 * a - 0x100) as u8 ^ 0x1d
        }),
{
    lemma_product_commutes(a, 2);
    bits_times_x(a);
    lemma_product_shift(1, a);
    lemma_product_one(a);
}

proof fn bits_times_x(a: u8)
    by (bit_vector)
    ensures
        xtime(1) == 2,
        xtime(a) == (if a < 0x80 {
            (2 * a) as u8
        } else {
            (2 * a - 0x100) as u8 ^ 0x1d
        }),
{
}

/// Adding a multiple of a vector twice changes nothing.
pub proof fn lemma_added_twice(dst: Seq<u8>, src: Seq<u8>, scalar: u8)
    ensures
        add_scaled(add_scaled(dst, src, scalar), src, scalar) == dst,
{
    let once = add_scaled(dst, src, scalar);
    let twice = add_scaled(once, src, scalar);
    assert forall|i: int| 0 <= i < dst.len() implies twice[i] == dst[i] by {
        if i < src.len() {
            lemma_xor_group(dst[i], gf_product(src[i], scalar), 0);
        }
    }
    assert(twice =~= dst);
}

/// Multiplying a vector by an element and then by its inverse gives it back.
pub proof fn lemma_scaled_back(v: Seq<u8>, a: u8, r: u8)
    requires
        gf_product(a, r) == 1,
    ensures
        scaled(scaled(v, a), r) == v,
{
    let out = scaled(scaled(v, a), r);
    assert forall|i: int| 0 <= i < v.len() implies out[i] == v[i] by {
        lemma_product_associates(v[i], a, r);
        lemma_product_one(v[i]);
    }
    assert(out =~= v);
}

} // verus!
