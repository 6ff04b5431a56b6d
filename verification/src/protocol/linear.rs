//! Linear equations over GF(2^8), solved by Gauss-Jordan elimination.
//!
//! A row of a system holds `k` coefficients followed by the right-hand sides, one
//! for each byte position of a packet.

use crate::protocol::gf;
use vstd::prelude::*;

verus! {

/// The sum of `c[i] * v[i]` over the first `n` positions.
pub open spec fn dot(c: Seq<u8>, v: Seq<u8>, n: nat) -> u8
    decreases n,
{
    if n == 0 {
        0
    } else {
        dot(c, v, (n - 1) as nat) ^ gf::gf_product(c[n - 1], v[n - 1])
    }
}

/// Byte `j` of every row.
pub open spec fn column(rows: Seq<Seq<u8>>, j: int) -> Seq<u8> {
    Seq::new(rows.len(), |i: int| rows[i][j])
}

/// The row's equation for right-hand side `j` holds of `v`: the coefficients times
/// `v` make up entry `k + j`.
pub open spec fn holds(row: Seq<u8>, v: Seq<u8>, k: nat, j: int) -> bool {
    dot(row, v, k) == row[k + j]
}

/// `v` satisfies the row with zero for its right-hand side.
pub open spec fn annihilates(row: Seq<u8>, v: Seq<u8>, k: nat) -> bool {
    dot(row, v, k) == 0
}

/// The first `k` columns determine their vector: only the zero vector satisfies all
/// rows with zero on the right.
pub open spec fn independent(m: Seq<Seq<u8>>, k: nat) -> bool {
    forall|v: Seq<u8>|
        v.len() == k && (forall|r: int|
            0 <= r < m.len() ==> #[trigger] annihilates(m[r], v, k)) ==> v == Seq::new(
            k,
            |i: int| 0u8,
        )
}

/// The multiplicative inverse of a nonzero element.
pub open spec fn inverse(a: u8) -> u8 {
    choose|r: u8| gf::gf_product(a, r) == 1
}

/// The first row from `from` on with a nonzero entry in column `col`; the number of
/// rows if there is none.
pub open spec fn first_nonzero(m: Seq<Seq<u8>>, col: int, from: int) -> int
    decreases m.len() - from,
{
    if from >= m.len() {
        m.len() as int
    } else if m[from][col] != 0 {
        from
    } else {
        first_nonzero(m, col, from + 1)
    }
}

/// Rows `i` and `j` exchanged.
pub open spec fn swapped<A>(m: Seq<A>, i: int, j: int) -> Seq<A> {
    m.update(i, m[j]).update(j, m[i])
}

/// Column `col` cleared by row `col`: that row is divided by its entry there, and
/// its multiples take the entry out of all other rows.
pub open spec fn cleared(m: Seq<Seq<u8>>, col: int) -> Seq<Seq<u8>> {
    let lead = gf::scaled(m[col], inverse(m[col][col]));
    Seq::new(
        m.len(),
        |r: int|
            if r == col {
                lead
            } else {
                gf::add_scaled(m[r], lead, m[r][col])
            },
    )
}

/// One step of the elimination: the first row at or below `col` with a nonzero entry
/// in that column comes to position `col` and clears the column.
pub open spec fn pivoted(m: Seq<Seq<u8>>, col: int) -> Seq<Seq<u8>> {
    cleared(swapped(m, col, first_nonzero(m, col, col)), col)
}

/// The system after elimination of the first `n` columns, `None` where a column has
/// no pivot.
pub open spec fn reduced(m: Seq<Seq<u8>>, n: nat) -> Option<Seq<Seq<u8>>>
    decreases n,
{
    if n == 0 {
        Some(m)
    } else {
        match reduced(m, (n - 1) as nat) {
            None => None,
            Some(t) => if first_nonzero(t, n - 1, n - 1) < t.len() {
                Some(pivoted(t, n - 1))
            } else {
                None
            },
        }
    }
}

/// All rows have the same length.
pub open spec fn rectangular(m: Seq<Seq<u8>>, width: nat) -> bool {
    forall|r: int| 0 <= r < m.len() ==> (#[trigger] m[r]).len() == width
}

/// The first `n` columns are those of the unit matrix.
pub open spec fn unit_columns(m: Seq<Seq<u8>>, n: int) -> bool {
    forall|r: int, c: int|
        0 <= r < m.len() && 0 <= c < n ==> #[trigger] m[r][c] == (if r == c {
            1u8
        } else {
            0u8
        })
}

// ---------------------------------------------------------------------------
// Linearity
// ---------------------------------------------------------------------------

/// The inverse is one.
pub proof fn lemma_inverse(a: u8, r: u8)
    requires
        gf::gf_product(a, r) == 1,
    ensures
        inverse(a) == r,
        inverse(a) != 0,
        a != 0,
{
    let i = inverse(a);
    assert(gf::gf_product(a, i) == 1);
    gf::lemma_product_nonzero(a, i);
    gf::lemma_product_commutes(a, i);
    gf::lemma_product_commutes(a, r);
    gf::lemma_product_cancels(i, r, a);
}

/// `dot` reads the first `n` entries only.
pub proof fn lemma_dot_ext(c: Seq<u8>, d: Seq<u8>, v: Seq<u8>, w: Seq<u8>, n: nat)
    requires
        forall|i: int| 0 <= i < n ==> c[i] == d[i] && v[i] == w[i],
    ensures
        dot(c, v, n) == dot(d, w, n),
    decreases n,
{
    if n > 0 {
        lemma_dot_ext(c, d, v, w, (n - 1) as nat);
    }
}

/// A multiple of a row has the multiple of its value.
pub proof fn lemma_dot_scaled(c: Seq<u8>, v: Seq<u8>, s: u8, n: nat)
    requires
        n <= c.len(),
    ensures
        dot(gf::scaled(c, s), v, n) == gf::gf_product(dot(c, v, n), s),
    decreases n,
{
    if n == 0 {
        gf::lemma_product_zero(s);
    } else {
        let i = n - 1;
        lemma_dot_scaled(c, v, s, (n - 1) as nat);
        gf::lemma_product_distributes_left(
            dot(c, v, (n - 1) as nat),
            gf::gf_product(c[i], v[i]),
            s,
        );
        gf::lemma_product_associates(c[i], s, v[i]);
        gf::lemma_product_commutes(s, v[i]);
        gf::lemma_product_associates(c[i], v[i], s);
    }
}

/// The value of a sum of rows is the sum of their values.
pub proof fn lemma_dot_add_scaled(c: Seq<u8>, d: Seq<u8>, v: Seq<u8>, s: u8, n: nat)
    requires
        n <= c.len(),
        n <= d.len(),
    ensures
        dot(gf::add_scaled(c, d, s), v, n) == dot(c, v, n) ^ gf::gf_product(dot(d, v, n), s),
    decreases n,
{
    if n == 0 {
        gf::lemma_product_zero(s);
        gf::lemma_xor_group(0, 0, 0);
    } else {
        let i = n - 1;
        let m = (n - 1) as nat;
        lemma_dot_add_scaled(c, d, v, s, m);
        let cv = gf::gf_product(c[i], v[i]);
        let dv = gf::gf_product(d[i], v[i]);
        let dvs = gf::gf_product(dv, s);
        gf::lemma_product_distributes_left(c[i], gf::gf_product(d[i], s), v[i]);
        gf::lemma_product_associates(d[i], s, v[i]);
        gf::lemma_product_commutes(s, v[i]);
        gf::lemma_product_associates(d[i], v[i], s);
        gf::lemma_product_distributes_left(dot(d, v, m), dv, s);
        let a = dot(c, v, m);
        let b = gf::gf_product(dot(d, v, m), s);
        assert((a ^ b) ^ (cv ^ dvs) == (a ^ cv) ^ (b ^ dvs)) by (bit_vector);
    }
}

/// What is left of the row's equation when `v` is put in; without a right-hand side
/// where `j` is negative.
spec fn residue(row: Seq<u8>, v: Seq<u8>, k: nat, j: int) -> u8 {
    if j < 0 {
        dot(row, v, k)
    } else {
        dot(row, v, k) ^ row[k + j]
    }
}

spec fn all_vanish(m: Seq<Seq<u8>>, v: Seq<u8>, k: nat, j: int) -> bool {
    forall|r: int| 0 <= r < m.len() ==> #[trigger] residue(m[r], v, k, j) == 0
}

proof fn lemma_residue_holds(row: Seq<u8>, v: Seq<u8>, k: nat, j: int)
    ensures
        j >= 0 ==> (residue(row, v, k, j) == 0 <==> holds(row, v, k, j)),
        j < 0 ==> (residue(row, v, k, j) == 0 <==> annihilates(row, v, k)),
{
    let a = dot(row, v, k);
    let b = row[k + j];
    assert((a ^ b == 0) <==> a == b) by (bit_vector);
}

proof fn lemma_residue_scaled(row: Seq<u8>, v: Seq<u8>, s: u8, k: nat, j: int)
    requires
        k + j < row.len(),
        k <= row.len(),
    ensures
        residue(gf::scaled(row, s), v, k, j) == gf::gf_product(residue(row, v, k, j), s),
{
    lemma_dot_scaled(row, v, s, k);
    gf::lemma_product_distributes_left(dot(row, v, k), row[k + j], s);
}

proof fn lemma_residue_add_scaled(a: Seq<u8>, b: Seq<u8>, v: Seq<u8>, s: u8, k: nat, j: int)
    requires
        k + j < a.len() == b.len(),
        k <= a.len(),
    ensures
        residue(gf::add_scaled(a, b, s), v, k, j) == residue(a, v, k, j) ^ gf::gf_product(
            residue(b, v, k, j),
            s,
        ),
{
    lemma_dot_add_scaled(a, b, v, s, k);
    gf::lemma_product_distributes_left(dot(b, v, k), b[k + j], s);
    let p = dot(a, v, k);
    let q = gf::gf_product(dot(b, v, k), s);
    let x = a[k + j];
    let y = gf::gf_product(b[k + j], s);
    assert((p ^ q) ^ (x ^ y) == (p ^ x) ^ (q ^ y)) by (bit_vector);
}

// ---------------------------------------------------------------------------
// Elimination keeps the solutions
// ---------------------------------------------------------------------------

proof fn lemma_first_nonzero(m: Seq<Seq<u8>>, col: int, from: int)
    requires
        0 <= from <= m.len(),
    ensures
        from <= first_nonzero(m, col, from) <= m.len(),
        first_nonzero(m, col, from) < m.len() ==> m[first_nonzero(m, col, from)][col] != 0,
        forall|r: int| from <= r < first_nonzero(m, col, from) ==> #[trigger] m[r][col] == 0,
    decreases m.len() - from,
{
    if from < m.len() && m[from][col] == 0 {
        lemma_first_nonzero(m, col, from + 1);
    }
}

proof fn lemma_cleared_vanish(
    m: Seq<Seq<u8>>,
    col: int,
    v: Seq<u8>,
    width: nat,
    k: nat,
    j: int,
)
    requires
        rectangular(m, width),
        0 <= col < m.len(),
        col < k <= width,
        k + j < width,
        m[col][col] != 0,
    ensures
        all_vanish(m, v, k, j) <==> all_vanish(cleared(m, col), v, k, j),
{
    let t = cleared(m, col);
    let pivot = m[col][col];
    let inv = inverse(pivot);
    lemma_has_inverse(pivot);
    let lead = gf::scaled(m[col], inv);
    assert(m[col].len() == width);
    lemma_residue_scaled(m[col], v, inv, k, j);
    gf::lemma_product_nonzero(residue(m[col], v, k, j), inv);
    assert(t[col] == lead);
    assert forall|r: int| 0 <= r < m.len() && r != col implies (#[trigger] residue(t[r], v, k, j))
        == residue(m[r], v, k, j) ^ gf::gf_product(residue(lead, v, k, j), m[r][col]) by {
        assert(m[r].len() == width);
        lemma_residue_add_scaled(m[r], lead, v, m[r][col], k, j);
    }
    if all_vanish(m, v, k, j) {
        assert(residue(m[col], v, k, j) == 0);
        assert forall|r: int| 0 <= r < t.len() implies #[trigger] residue(t[r], v, k, j) == 0 by {
            if r != col {
                gf::lemma_product_zero(m[r][col]);
                gf::lemma_xor_group(0, 0, 0);
                assert(residue(m[r], v, k, j) == 0);
            }
        }
    }
    if all_vanish(t, v, k, j) {
        assert(residue(t[col], v, k, j) == 0);
        assert forall|r: int| 0 <= r < m.len() implies #[trigger] residue(m[r], v, k, j) == 0 by {
            if r != col {
                gf::lemma_product_zero(m[r][col]);
                gf::lemma_xor_group(residue(m[r], v, k, j), 0, 0);
                assert(residue(t[r], v, k, j) == 0);
            }
        }
    }
}

proof fn lemma_has_inverse(a: u8)
    requires
        a != 0,
    ensures
        gf::gf_product(a, inverse(a)) == 1,
        inverse(a) != 0,
{
    let r = gf::lemma_inverse_exists(a);
    lemma_inverse(a, r);
}

proof fn lemma_swapped_vanish(
    m: Seq<Seq<u8>>,
    a: int,
    b: int,
    v: Seq<u8>,
    k: nat,
    j: int,
)
    requires
        0 <= a < m.len(),
        0 <= b < m.len(),
    ensures
        all_vanish(m, v, k, j) <==> all_vanish(swapped(m, a, b), v, k, j),
{
    let t = swapped(m, a, b);
    if all_vanish(m, v, k, j) {
        assert forall|r: int| 0 <= r < t.len() implies #[trigger] residue(t[r], v, k, j) == 0 by {
            let q = if r == a {
                b
            } else if r == b {
                a
            } else {
                r
            };
            assert(residue(m[q], v, k, j) == 0);
        }
    }
    if all_vanish(t, v, k, j) {
        assert forall|r: int| 0 <= r < m.len() implies #[trigger] residue(m[r], v, k, j) == 0 by {
            let q = if r == a {
                b
            } else if r == b {
                a
            } else {
                r
            };
            assert(residue(t[q], v, k, j) == 0);
        }
    }
}

/// What one step makes of the system: its shape stays, one more column is a unit
/// column.
proof fn lemma_pivoted(m: Seq<Seq<u8>>, col: int, width: nat)
    requires
        rectangular(m, width),
        0 <= col < width,
        col < m.len(),
        unit_columns(m, col),
        first_nonzero(m, col, col) < m.len(),
    ensures
        pivoted(m, col).len() == m.len(),
        rectangular(pivoted(m, col), width),
        unit_columns(pivoted(m, col), col + 1),
{
    lemma_first_nonzero(m, col, col);
    let p = first_nonzero(m, col, col);
    let s = swapped(m, col, p);
    let t = pivoted(m, col);
    assert(rectangular(s, width)) by {
        assert forall|r: int| 0 <= r < s.len() implies (#[trigger] s[r]).len() == width by {
            assert(m[r].len() == width);
            assert(m[p].len() == width);
            assert(m[col].len() == width);
        }
    }
    let pivot = s[col][col];
    lemma_has_inverse(pivot);
    let lead = gf::scaled(s[col], inverse(pivot));
    assert forall|r: int| 0 <= r < t.len() implies (#[trigger] t[r]).len() == width by {
        assert(s[r].len() == width);
        assert(s[col].len() == width);
    }
    assert forall|r: int, c: int| 0 <= r < t.len() && 0 <= c < col + 1 implies #[trigger] t[r][c]
        == (if r == c {
        1u8
    } else {
        0u8
    }) by {
        assert(s[r].len() == width);
        assert(s[col].len() == width);
        let f = s[r][col];
        if c < col {
            assert(s[col][c] == m[p][c] == 0);
            assert(s[r][c] == (if r == c {
                1u8
            } else {
                0u8
            })) by {
                assert(m[r][c] == (if r == c {
                    1u8
                } else {
                    0u8
                }));
                assert(m[col][c] == 0);
            }
            gf::lemma_product_zero(inverse(pivot));
            assert(lead[c] == 0);
            gf::lemma_product_zero(f);
            gf::lemma_xor_group(s[r][c], 0, 0);
        } else {
            assert(lead[col] == 1);
            gf::lemma_product_one(f);
            gf::lemma_xor_group(f, 0, 0);
        }
    }
}

proof fn lemma_pivoted_vanish(
    m: Seq<Seq<u8>>,
    col: int,
    v: Seq<u8>,
    width: nat,
    k: nat,
    j: int,
)
    requires
        rectangular(m, width),
        0 <= col < m.len(),
        col < k <= width,
        k + j < width,
        first_nonzero(m, col, col) < m.len(),
    ensures
        all_vanish(m, v, k, j) <==> all_vanish(pivoted(m, col), v, k, j),
{
    lemma_first_nonzero(m, col, col);
    let p = first_nonzero(m, col, col);
    let s = swapped(m, col, p);
    lemma_swapped_vanish(m, col, p, v, k, j);
    assert(rectangular(s, width)) by {
        assert forall|r: int| 0 <= r < s.len() implies (#[trigger] s[r]).len() == width by {
            assert(m[r].len() == width);
            assert(m[p].len() == width);
            assert(m[col].len() == width);
        }
    }
    lemma_cleared_vanish(s, col, v, width, k, j);
}

/// The shape of the system after `n` columns.
pub proof fn lemma_reduced_shape(m: Seq<Seq<u8>>, n: nat, width: nat)
    requires
        rectangular(m, width),
        n <= m.len(),
        n <= width,
    ensures
        reduced(m, n) matches Some(t) ==> t.len() == m.len() && rectangular(t, width)
            && unit_columns(t, n as int),
    decreases n,
{
    if n > 0 {
        lemma_reduced_shape(m, (n - 1) as nat, width);
        if let Some(t) = reduced(m, (n - 1) as nat) {
            if first_nonzero(t, n - 1, n - 1) < t.len() {
                lemma_pivoted(t, n - 1, width);
            }
        }
    }
}

proof fn lemma_reduced_vanish(
    m: Seq<Seq<u8>>,
    n: nat,
    v: Seq<u8>,
    width: nat,
    k: nat,
    j: int,
)
    requires
        rectangular(m, width),
        n <= k <= width,
        n <= m.len(),
        k + j < width,
        reduced(m, n) is Some,
    ensures
        all_vanish(m, v, k, j) <==> all_vanish(reduced(m, n)->0, v, k, j),
    decreases n,
{
    if n > 0 {
        lemma_reduced_vanish(m, (n - 1) as nat, v, width, k, j);
        lemma_reduced_shape(m, (n - 1) as nat, width);
        let t = reduced(m, (n - 1) as nat)->0;
        lemma_pivoted_vanish(t, n - 1, v, width, k, j);
    }
}

/// A row of the unit matrix picks out one entry.
pub proof fn lemma_dot_unit(row: Seq<u8>, v: Seq<u8>, r: int, n: nat)
    requires
        forall|c: int|
            0 <= c < n ==> #[trigger] row[c] == (if r == c {
                1u8
            } else {
                0u8
            }),
    ensures
        dot(row, v, n) == (if 0 <= r < n {
            v[r]
        } else {
            0u8
        }),
    decreases n,
{
    if n > 0 {
        lemma_dot_unit(row, v, r, (n - 1) as nat);
        gf::lemma_product_one(v[n - 1]);
        gf::lemma_product_zero(v[n - 1]);
        gf::lemma_xor_group(v[n - 1], 0, 0);
        gf::lemma_xor_group(0, 0, 0);
        if 0 <= r < n - 1 {
            gf::lemma_xor_group(v[r], 0, 0);
        }
        assert(row[n - 1] == (if r == n - 1 {
            1u8
        } else {
            0u8
        }));
    }
}

/// `dot` does not change where the further entries of `v` are zero.
proof fn lemma_dot_tail(row: Seq<u8>, v: Seq<u8>, n: nat, k: nat)
    requires
        n <= k,
        forall|i: int| n <= i < k ==> v[i] == 0,
    ensures
        dot(row, v, k) == dot(row, v, n),
    decreases k,
{
    if n < k {
        lemma_dot_tail(row, v, n, (k - 1) as nat);
        gf::lemma_product_zero(row[k - 1]);
        gf::lemma_xor_group(dot(row, v, (k - 1) as nat), 0, 0);
    }
}

/// `dot` does not change where the further coefficients are zero.
pub proof fn lemma_dot_zero_tail(row: Seq<u8>, v: Seq<u8>, n: nat, k: nat)
    requires
        n <= k,
        forall|i: int| n <= i < k ==> row[i] == 0,
    ensures
        dot(row, v, k) == dot(row, v, n),
    decreases k,
{
    if n < k {
        lemma_dot_zero_tail(row, v, n, (k - 1) as nat);
        gf::lemma_product_zero(v[k - 1]);
        gf::lemma_xor_group(dot(row, v, (k - 1) as nat), 0, 0);
    }
}

/// A column without a pivot is a combination of the columns before it.
proof fn lemma_no_pivot(m: Seq<Seq<u8>>, col: int, width: nat, k: nat) -> (v: Seq<u8>)
    requires
        rectangular(m, width),
        0 <= col < k <= width,
        col <= m.len(),
        unit_columns(m, col),
        first_nonzero(m, col, col) == m.len(),
    ensures
        v.len() == k,
        v[col] == 1,
        all_vanish(m, v, k, -1),
{
    lemma_first_nonzero(m, col, col);
    let v = Seq::new(
        k,
        |i: int|
            if i < col {
                m[i][col]
            } else if i == col {
                1u8
            } else {
                0u8
            },
    );
    assert forall|r: int| 0 <= r < m.len() implies #[trigger] residue(m[r], v, k, -1) == 0 by {
        lemma_dot_tail(m[r], v, (col + 1) as nat, k);
        assert forall|c: int| 0 <= c < col implies #[trigger] m[r][c] == (if r == c {
            1u8
        } else {
            0u8
        }) by {}
        lemma_dot_unit(m[r], v, r, col as nat);
        gf::lemma_product_one(m[r][col]);
        gf::lemma_xor_group(m[r][col], 0, 0);
        gf::lemma_xor_group(0, 0, 0);
    }
    v
}

/// Elimination goes through exactly when the coefficients are independent.
pub proof fn lemma_reduced_iff_independent(m: Seq<Seq<u8>>, k: nat, width: nat)
    requires
        rectangular(m, width),
        k <= m.len(),
        k <= width,
    ensures
        reduced(m, k) is Some <==> independent(m, k),
{
    let zero = Seq::new(k, |i: int| 0u8);
    if reduced(m, k) is Some {
        let t = reduced(m, k)->0;
        lemma_reduced_shape(m, k, width);
        assert forall|v: Seq<u8>|
            v.len() == k && (forall|r: int|
                0 <= r < m.len() ==> #[trigger] annihilates(m[r], v, k)) implies v == zero by {
            assert forall|r: int| 0 <= r < m.len() implies #[trigger] residue(m[r], v, k, -1)
                == 0 by {
                assert(annihilates(m[r], v, k));
            }
            lemma_reduced_vanish(m, k, v, width, k, -1);
            assert forall|i: int| 0 <= i < k implies v[i] == 0 by {
                assert(residue(t[i], v, k, -1) == 0);
                assert forall|c: int| 0 <= c < k implies #[trigger] t[i][c] == (if i == c {
                    1u8
                } else {
                    0u8
                }) by {}
                lemma_dot_unit(t[i], v, i, k);
            }
            assert(v =~= zero);
        }
    } else {
        lemma_stuck(m, k, k, width);
    }
}

/// Where a column has no pivot, the coefficients are dependent.
pub proof fn lemma_stuck(m: Seq<Seq<u8>>, n: nat, k: nat, width: nat)
    requires
        rectangular(m, width),
        n <= k <= width,
        n <= m.len(),
        reduced(m, n) is None,
    ensures
        !independent(m, k),
    decreases n,
{
    match reduced(m, (n - 1) as nat) {
        None => {
            lemma_stuck(m, (n - 1) as nat, k, width);
        },
        Some(t) => {
            lemma_reduced_shape(m, (n - 1) as nat, width);
            lemma_first_nonzero(t, n - 1, n - 1);
            let v = lemma_no_pivot(t, n - 1, width, k);
            lemma_reduced_vanish(m, (n - 1) as nat, v, width, k, -1);
            assert forall|r: int| 0 <= r < m.len() implies #[trigger] annihilates(m[r], v, k) by {
                assert(residue(m[r], v, k, -1) == 0);
            }
            let zero = Seq::new(k, |i: int| 0u8);
            assert(zero[n - 1] == 0);
            assert(v != zero);
        },
    }
}

/// Fewer rows than columns are dependent.
pub proof fn lemma_few_rows(m: Seq<Seq<u8>>, k: nat, width: nat)
    requires
        rectangular(m, width),
        m.len() < k <= width,
    ensures
        !independent(m, k),
{
    let n = m.len();
    match reduced(m, n) {
        None => {
            lemma_stuck(m, n, k, width);
        },
        Some(t) => {
            lemma_reduced_shape(m, n, width);
            lemma_first_nonzero(t, n as int, n as int);
            let v = lemma_no_pivot(t, n as int, width, k);
            lemma_reduced_vanish(m, n, v, width, k, -1);
            assert forall|r: int| 0 <= r < m.len() implies #[trigger] annihilates(m[r], v, k) by {
                assert(residue(m[r], v, k, -1) == 0);
            }
            let zero = Seq::new(k, |i: int| 0u8);
            assert(zero[n as int] == 0);
            assert(v != zero);
        },
    }
}

/// A solution of the system stands in the right-hand sides once the elimination is
/// through.
pub proof fn lemma_reduced_solution(
    m: Seq<Seq<u8>>,
    solution: Seq<Seq<u8>>,
    k: nat,
    width: nat,
    j: int,
)
    requires
        rectangular(m, width),
        k <= m.len(),
        solution.len() == k,
        0 <= j < width - k,
        reduced(m, k) is Some,
        forall|r: int|
            0 <= r < m.len() ==> #[trigger] holds(m[r], column(solution, j), k, j),
    ensures
        forall|r: int| 0 <= r < k ==> (#[trigger] (reduced(m, k)->0)[r])[k + j] == solution[r][j],
{
    let v = column(solution, j);
    let t = reduced(m, k)->0;
    lemma_reduced_shape(m, k, width);
    assert forall|r: int| 0 <= r < m.len() implies #[trigger] residue(m[r], v, k, j) == 0 by {
        assert(holds(m[r], v, k, j));
        lemma_residue_holds(m[r], v, k, j);
    }
    lemma_reduced_vanish(m, k, v, width, k, j);
    assert forall|r: int| 0 <= r < k implies (#[trigger] t[r])[k + j] == solution[r][j] by {
        assert(residue(t[r], v, k, j) == 0);
        lemma_residue_holds(t[r], v, k, j);
        assert forall|c: int| 0 <= c < k implies #[trigger] t[r][c] == (if r == c {
            1u8
        } else {
            0u8
        }) by {}
        lemma_dot_unit(t[r], v, r, k);
    }
}

/// Another entry in one place moves the sum by the product of its coefficient and the
/// difference.
pub proof fn lemma_dot_changed(c: Seq<u8>, v: Seq<u8>, i: int, x: u8, n: nat)
    requires
        0 <= i < n <= v.len(),
    ensures
        dot(c, v.update(i, x), n) == dot(c, v, n) ^ gf::gf_product(c[i], v[i] ^ x),
    decreases n,
{
    let w = v.update(i, x);
    let m = (n - 1) as nat;
    let a = dot(c, v, m);
    if i == n - 1 {
        lemma_dot_ext(c, c, w, v, m);
        let p = gf::gf_product(c[i], v[i]);
        let q = gf::gf_product(c[i], x);
        gf::lemma_product_distributes(c[i], v[i], x);
        assert(a ^ q == (a ^ p) ^ (p ^ q)) by (bit_vector);
    } else {
        lemma_dot_changed(c, v, i, x, m);
        let d = gf::gf_product(c[i], v[i] ^ x);
        let p = gf::gf_product(c[n - 1], v[n - 1]);
        assert((a ^ d) ^ p == (a ^ p) ^ d) by (bit_vector);
    }
}

/// Rows with a one in each of the columns and nothing else determine their vector: the
/// coefficients of the packets themselves.
pub proof fn lemma_unit_rows_independent(m: Seq<Seq<u8>>, k: nat, at: Seq<int>)
    requires
        at.len() == k,
        forall|i: int| 0 <= i < k ==> 0 <= #[trigger] at[i] < m.len(),
        forall|i: int, c: int|
            0 <= i < k && 0 <= c < k ==> #[trigger] m[at[i]][c] == (if i == c {
                1u8
            } else {
                0u8
            }),
    ensures
        independent(m, k),
{
    let zero = Seq::new(k, |i: int| 0u8);
    assert forall|v: Seq<u8>|
        v.len() == k && (forall|r: int|
            0 <= r < m.len() ==> #[trigger] annihilates(m[r], v, k)) implies v == zero by {
        assert forall|i: int| 0 <= i < k implies v[i] == 0 by {
            assert(annihilates(m[at[i]], v, k));
            lemma_dot_unit(m[at[i]], v, i, k);
        }
        assert(v =~= zero);
    }
}

} // verus!
