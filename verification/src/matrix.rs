//! Gaussian elimination over the integers modulo 256.
//!
//! The solver reduces an over-determined linear system whose unknowns are
//! whole payloads (vectors modulo 256) to the identity by row operations,
//! choosing odd pivots because only odd residues are invertible modulo a
//! power of two.  Its contract pins the result against every solution of
//! the original system, and a failure exhibits a nonzero kernel vector,
//! so a singular system is the only way to fail.

use vstd::prelude::*;
use vstd::arithmetic::div_mod::*;
use vstd::arithmetic::mul::*;

use crate::error::OmrError;
use crate::payload::{Payload, PAYLOAD_LENGTH};

verus! {

/// The sequence of byte rows of a matrix.
pub open spec fn mat_views(m: Seq<Vec<u8>>) -> Seq<Seq<u8>> {
    m.map_values(|row: Vec<u8>| row@)
}

/// The sequence of byte vectors of a list of payloads.
pub open spec fn payload_views(ps: Seq<Payload>) -> Seq<Seq<u8>> {
    ps.map_values(|p: Payload| p@)
}

/// Sum over `j < n` of `row[j] * xs[j][pos]`, as unbounded integers.
pub open spec fn dot_prefix(row: Seq<u8>, xs: Seq<Seq<u8>>, pos: int, n: int) -> int
    decreases n,
{
    if n <= 0 {
        0
    } else {
        dot_prefix(row, xs, pos, n - 1) + row[n - 1] * xs[n - 1][pos]
    }
}

/// Sum over `j < n` of `row[j] * y[j]`, as unbounded integers.
pub open spec fn scalar_dot(row: Seq<u8>, y: Seq<u8>, n: int) -> int
    decreases n,
{
    if n <= 0 {
        0
    } else {
        scalar_dot(row, y, n - 1) + row[n - 1] * y[n - 1]
    }
}

/// `xs` is a candidate assignment of one payload to each of `num_cols` unknowns.
pub open spec fn wf_unknowns(xs: Seq<Seq<u8>>, num_cols: int) -> bool {
    &&& xs.len() == num_cols
    &&& forall|j: int| 0 <= j < num_cols ==> xs[j].len() == PAYLOAD_LENGTH
}

/// Every equation of the system `m * xs = b` holds modulo 256, slot by slot.
pub open spec fn is_solution(m: Seq<Seq<u8>>, xs: Seq<Seq<u8>>, b: Seq<Seq<u8>>) -> bool {
    forall|r: int, pos: int|
        0 <= r < m.len() && 0 <= pos < PAYLOAD_LENGTH ==> b[r][pos] as int == #[trigger] dot_prefix(
            m[r],
            xs,
            pos,
            m[r].len() as int,
        ) % 256
}

/// `y` is annihilated by every row of `m` modulo 256.
pub open spec fn in_kernel(m: Seq<Seq<u8>>, y: Seq<u8>) -> bool {
    forall|r: int|
        0 <= r < m.len() ==> #[trigger] scalar_dot(m[r], y, y.len() as int) % 256 == 0
}

/// Some entry of `y` is nonzero.
pub open spec fn is_nonzero(y: Seq<u8>) -> bool {
    exists|j: int| 0 <= j < y.len() && y[j] != 0
}

/// Congruence is preserved by an affine combination: if `x1 = y1` and
/// `x2 = y2` modulo `m`, then `x1 + k * x2 = y1 + k * y2` modulo `m`.
proof fn lemma_mod_affine(x1: int, x2: int, y1: int, y2: int, k: int, m: int)
    requires
        m > 0,
        x1 % m == y1 % m,
        x2 % m == y2 % m,
    ensures
        (x1 + k * x2) % m == (y1 + k * y2) % m,
{
    lemma_mul_mod_noop_right(k, x2, m);
    lemma_mul_mod_noop_right(k, y2, m);
    lemma_add_mod_noop(x1, k * x2, m);
    lemma_add_mod_noop(y1, k * y2, m);
}

/// Congruence is preserved by scaling.
proof fn lemma_mod_scale(x: int, y: int, k: int, m: int)
    requires
        m > 0,
        x % m == y % m,
    ensures
        (k * x) % m == (k * y) % m,
{
    lemma_mul_mod_noop_right(k, x, m);
    lemma_mul_mod_noop_right(k, y, m);
}

/// A row congruent to an affine combination of two rows has, against any
/// assignment, a dot product congruent to the same combination of their
/// dot products.
proof fn lemma_dot_affine(
    a: Seq<u8>,
    b2: Seq<u8>,
    c2: Seq<u8>,
    xs: Seq<Seq<u8>>,
    pos: int,
    n: int,
    k: int,
)
    requires
        forall|j: int| 0 <= j < n ==> (#[trigger] c2[j]) as int % 256 == (a[j] + k * b2[j]) % 256,
    ensures
        dot_prefix(c2, xs, pos, n) % 256 == (dot_prefix(a, xs, pos, n) + k * dot_prefix(
            b2,
            xs,
            pos,
            n,
        )) % 256,
    decreases n,
{
    if n > 0 {
        lemma_dot_affine(a, b2, c2, xs, pos, n - 1, k);
        let da = dot_prefix(a, xs, pos, n - 1);
        let db = dot_prefix(b2, xs, pos, n - 1);
        let dc = dot_prefix(c2, xs, pos, n - 1);
        let x = xs[n - 1][pos] as int;
        // The last term of the new row is congruent to the combination of
        // the last terms.
        assert(c2[n - 1] as int % 256 == (a[n - 1] + k * b2[n - 1]) % 256);
        lemma_mul_mod_noop_left(c2[n - 1] as int, x, 256);
        lemma_mul_mod_noop_left((a[n - 1] + k * b2[n - 1]) as int, x, 256);
        assert((c2[n - 1] * x) % 256 == ((a[n - 1] + k * b2[n - 1]) * x) % 256);
        lemma_mul_is_distributive_add_other_way(x, a[n - 1] as int, k * b2[n - 1]);
        lemma_mul_is_associative(k, b2[n - 1] as int, x);
        assert((a[n - 1] + k * b2[n - 1]) * x == a[n - 1] * x + k * (b2[n - 1] * x));
        assert((dc + c2[n - 1] * x) % 256 == (da + k * db + (a[n - 1] * x + k * (b2[n - 1] * x)))
            % 256) by {
            lemma_add_mod_noop(dc, c2[n - 1] * x, 256);
            lemma_add_mod_noop(da + k * db, a[n - 1] * x + k * (b2[n - 1] * x), 256);
        }
        lemma_mul_is_distributive_add(k, db, b2[n - 1] * x);
    }
}

/// The scalar counterpart of `lemma_dot_affine`.
proof fn lemma_scalar_dot_affine(a: Seq<u8>, b2: Seq<u8>, c2: Seq<u8>, y: Seq<u8>, n: int, k: int)
    requires
        forall|j: int| 0 <= j < n ==> (#[trigger] c2[j]) as int % 256 == (a[j] + k * b2[j]) % 256,
    ensures
        scalar_dot(c2, y, n) % 256 == (scalar_dot(a, y, n) + k * scalar_dot(b2, y, n)) % 256,
    decreases n,
{
    if n > 0 {
        lemma_scalar_dot_affine(a, b2, c2, y, n - 1, k);
        let da = scalar_dot(a, y, n - 1);
        let db = scalar_dot(b2, y, n - 1);
        let dc = scalar_dot(c2, y, n - 1);
        let x = y[n - 1] as int;
        assert(c2[n - 1] as int % 256 == (a[n - 1] + k * b2[n - 1]) % 256);
        lemma_mul_mod_noop_left(c2[n - 1] as int, x, 256);
        lemma_mul_mod_noop_left((a[n - 1] + k * b2[n - 1]) as int, x, 256);
        lemma_mul_is_distributive_add_other_way(x, a[n - 1] as int, k * b2[n - 1]);
        lemma_mul_is_associative(k, b2[n - 1] as int, x);
        assert((dc + c2[n - 1] * x) % 256 == (da + k * db + (a[n - 1] * x + k * (b2[n - 1] * x)))
            % 256) by {
            lemma_add_mod_noop(dc, c2[n - 1] * x, 256);
            lemma_add_mod_noop(da + k * db, a[n - 1] * x + k * (b2[n - 1] * x), 256);
        }
        lemma_mul_is_distributive_add(k, db, b2[n - 1] * x);
    }
}

/// Against any assignment, a unit row selects one unknown.
proof fn lemma_dot_unit(row: Seq<u8>, xs: Seq<Seq<u8>>, pos: int, n: int, u: int)
    requires
        0 <= u < n,
        row[u] == 1,
        forall|j: int| 0 <= j < n && j != u ==> row[j] == 0,
    ensures
        dot_prefix(row, xs, pos, n) == xs[u][pos],
    decreases n,
{
    if n - 1 == u {
        lemma_dot_zero(row, xs, pos, n - 1);
    } else {
        lemma_dot_unit(row, xs, pos, n - 1, u);
    }
}

/// Against any assignment, an all-zero prefix contributes nothing.
proof fn lemma_dot_zero(row: Seq<u8>, xs: Seq<Seq<u8>>, pos: int, n: int)
    requires
        forall|j: int| 0 <= j < n ==> row[j] == 0,
    ensures
        dot_prefix(row, xs, pos, n) == 0,
    decreases n,
{
    if n > 0 {
        lemma_dot_zero(row, xs, pos, n - 1);
    }
}

/// A row congruent to a scaled row has, against any assignment, a dot
/// product congruent to the scaled dot product.
proof fn lemma_dot_scale(a: Seq<u8>, c2: Seq<u8>, xs: Seq<Seq<u8>>, pos: int, n: int, k: int)
    requires
        forall|j: int| 0 <= j < n ==> (#[trigger] c2[j]) as int % 256 == (k * a[j]) % 256,
    ensures
        dot_prefix(c2, xs, pos, n) % 256 == (k * dot_prefix(a, xs, pos, n)) % 256,
    decreases n,
{
    if n > 0 {
        lemma_dot_scale(a, c2, xs, pos, n - 1, k);
        let da = dot_prefix(a, xs, pos, n - 1);
        let dc = dot_prefix(c2, xs, pos, n - 1);
        let x = xs[n - 1][pos] as int;
        lemma_mul_mod_noop_left(c2[n - 1] as int, x, 256);
        lemma_mul_mod_noop_left((k * a[n - 1]) as int, x, 256);
        lemma_mul_is_associative(k, a[n - 1] as int, x);
        lemma_add_mod_noop(dc, c2[n - 1] * x, 256);
        lemma_add_mod_noop(k * da, k * (a[n - 1] * x), 256);
        lemma_mul_is_distributive_add(k, da, a[n - 1] * x);
    }
}

/// The scalar counterpart of `lemma_dot_scale`.
proof fn lemma_scalar_dot_scale(a: Seq<u8>, c2: Seq<u8>, y: Seq<u8>, n: int, k: int)
    requires
        forall|j: int| 0 <= j < n ==> (#[trigger] c2[j]) as int % 256 == (k * a[j]) % 256,
    ensures
        scalar_dot(c2, y, n) % 256 == (k * scalar_dot(a, y, n)) % 256,
    decreases n,
{
    if n > 0 {
        lemma_scalar_dot_scale(a, c2, y, n - 1, k);
        let da = scalar_dot(a, y, n - 1);
        let dc = scalar_dot(c2, y, n - 1);
        let x = y[n - 1] as int;
        lemma_mul_mod_noop_left(c2[n - 1] as int, x, 256);
        lemma_mul_mod_noop_left((k * a[n - 1]) as int, x, 256);
        lemma_mul_is_associative(k, a[n - 1] as int, x);
        lemma_add_mod_noop(dc, c2[n - 1] * x, 256);
        lemma_add_mod_noop(k * da, k * (a[n - 1] * x), 256);
        lemma_mul_is_distributive_add(k, da, a[n - 1] * x);
    }
}

/// The row operation `row r := row r + k * row p`, applied to the matrix
/// and the right-hand side together, carries every solution across.
proof fn lemma_row_op_preserves_solution(
    pm: Seq<Seq<u8>>,
    pb: Seq<Seq<u8>>,
    nm: Seq<Seq<u8>>,
    nb: Seq<Seq<u8>>,
    xs: Seq<Seq<u8>>,
    r: int,
    p: int,
    k: int,
    ncols: int,
)
    requires
        0 <= r < pm.len(),
        0 <= p < pm.len(),
        p != r,
        nm.len() == pm.len(),
        pb.len() == pm.len(),
        nb.len() == pb.len(),
        forall|t: int| 0 <= t < pm.len() ==> (#[trigger] pm[t]).len() == ncols,
        forall|t: int| 0 <= t < nm.len() ==> (#[trigger] nm[t]).len() == ncols,
        forall|t: int| 0 <= t < pb.len() ==> (#[trigger] pb[t]).len() == PAYLOAD_LENGTH,
        forall|t: int| 0 <= t < nb.len() ==> (#[trigger] nb[t]).len() == PAYLOAD_LENGTH,
        forall|t: int| 0 <= t < pm.len() && t != r ==> #[trigger] nm[t] == pm[t],
        forall|t: int| 0 <= t < pb.len() && t != r ==> #[trigger] nb[t] == pb[t],
        forall|j: int|
            0 <= j < ncols ==> (#[trigger] nm[r][j]) as int % 256 == (pm[r][j] + k * pm[p][j])
                % 256,
        forall|pos: int|
            0 <= pos < PAYLOAD_LENGTH ==> (#[trigger] nb[r][pos]) as int % 256 == (pb[r][pos] + k
                * pb[p][pos]) % 256,
        is_solution(pm, xs, pb),
    ensures
        is_solution(nm, xs, nb),
{
    assert forall|t: int, pos: int|
        0 <= t < nm.len() && 0 <= pos < PAYLOAD_LENGTH implies nb[t][pos] as int
        == #[trigger] dot_prefix(nm[t], xs, pos, nm[t].len() as int) % 256 by {
        assert(pb[t][pos] as int == dot_prefix(pm[t], xs, pos, pm[t].len() as int) % 256);
        assert(pb[p][pos] as int == dot_prefix(pm[p], xs, pos, pm[p].len() as int) % 256);
        if t == r {
            lemma_dot_affine(pm[r], pm[p], nm[r], xs, pos, ncols, k);
            lemma_mod_affine(
                dot_prefix(pm[r], xs, pos, ncols),
                dot_prefix(pm[p], xs, pos, ncols),
                pb[r][pos] as int,
                pb[p][pos] as int,
                k,
                256,
            );
            lemma_small_mod(nb[r][pos] as nat, 256);
        }
    }
}

/// The reverse of one row operation carries kernel membership back to the
/// previous matrix.
proof fn lemma_row_op_preserves_kernel(
    pm: Seq<Seq<u8>>,
    nm: Seq<Seq<u8>>,
    y: Seq<u8>,
    r: int,
    p: int,
    k: int,
    ncols: int,
)
    requires
        0 <= r < pm.len(),
        0 <= p < pm.len(),
        p != r,
        nm.len() == pm.len(),
        y.len() == ncols,
        forall|t: int| 0 <= t < pm.len() ==> (#[trigger] pm[t]).len() == ncols,
        forall|t: int| 0 <= t < nm.len() ==> (#[trigger] nm[t]).len() == ncols,
        forall|t: int| 0 <= t < pm.len() && t != r ==> #[trigger] nm[t] == pm[t],
        forall|j: int|
            0 <= j < ncols ==> (#[trigger] pm[r][j]) as int % 256 == (nm[r][j] + k * nm[p][j])
                % 256,
        in_kernel(nm, y),
    ensures
        in_kernel(pm, y),
{
    assert forall|t: int| 0 <= t < pm.len() implies #[trigger] scalar_dot(pm[t], y, y.len() as int)
        % 256 == 0 by {
        assert(scalar_dot(nm[t], y, y.len() as int) % 256 == 0);
        assert(scalar_dot(nm[p], y, y.len() as int) % 256 == 0);
        if t == r {
            lemma_scalar_dot_affine(nm[r], nm[p], pm[r], y, ncols, k);
            lemma_mod_affine(
                scalar_dot(nm[r], y, ncols),
                scalar_dot(nm[p], y, ncols),
                0,
                0,
                k,
                256,
            );
            lemma_mul_basics_2(k);
        }
    }
}

/// An owned copy of a byte row.
fn copy_bytes(v: &Vec<u8>) -> (r: Vec<u8>)
    ensures
        r@ == v@,
{
    let mut data: Vec<u8> = Vec::new();
    let mut k: usize = 0;
    let n = v.len();
    while k < n
        invariant
            k <= n,
            n == v@.len(),
            data@.len() == k,
            forall|i: int| 0 <= i < k ==> data@[i] == v@[i],
        decreases n - k,
    {
        data.push(v[k]);
        k = k + 1;
    }
    proof {
        assert(data@ =~= v@);
    }
    data
}

/// A wrapped subtraction of a wrapped product agrees, modulo 256, with the
/// exact subtraction of the exact product.
proof fn lemma_byte_sub_mul(a: u8, b: u8, c: u8)
    ensures
        (a.wrapping_sub(b.wrapping_mul(c)) as int) % 256 == (a + (-(c as int)) * b) % 256,
{
    let t = (b as nat * c as nat) % 256;
    lemma_sub_mod_noop_right(a as int, b as int * c as int, 256);
    assert((a - t) % 256 == (a - b * c) % 256);
    assert(a.wrapping_sub(b.wrapping_mul(c)) as int % 256 == (a - t) % 256) by {
        if a as int - t < 0 {
            lemma_mod_add_multiples_vanish((a - t) as int, 256);
        }
        lemma_small_mod(a.wrapping_sub(b.wrapping_mul(c)) as nat, 256);
    }
    assert((-(c as int)) * b == -(c as int * b as int)) by {
        lemma_mul_unary_negation(c as int, b as int);
    }
    lemma_mul_is_commutative(b as int, c as int);
}

/// If `v * w = 1` modulo 256, a byte is recovered from its product with `w`
/// by multiplying with `v`.
proof fn lemma_byte_scale_inverse(a: u8, v: u8, w: u8)
    requires
        (v as int * w as int) % 256 == 1,
    ensures
        a as int % 256 == (v as int * (a.wrapping_mul(w) as int)) % 256,
{
    let aw = a as int * w as int;
    lemma_small_mod(a.wrapping_mul(w) as nat, 256);
    assert(a.wrapping_mul(w) as int == aw % 256);
    lemma_mul_mod_noop_right(v as int, aw, 256);
    assert((v as int * (aw % 256)) % 256 == (v as int * aw) % 256);
    lemma_mul_is_associative(v as int, a as int, w as int);
    lemma_mul_is_commutative(v as int, a as int);
    lemma_mul_is_associative(a as int, v as int, w as int);
    assert(v as int * aw == a as int * (v as int * w as int));
    lemma_mul_mod_noop_right(a as int, v as int * w as int, 256);
    lemma_small_mod(a as nat, 256);
}

/// The row operation `row r := k * row r`, applied to the matrix and the
/// right-hand side together, carries every solution across.
proof fn lemma_row_scale_preserves_solution(
    pm: Seq<Seq<u8>>,
    pb: Seq<Seq<u8>>,
    nm: Seq<Seq<u8>>,
    nb: Seq<Seq<u8>>,
    xs: Seq<Seq<u8>>,
    r: int,
    k: int,
    ncols: int,
)
    requires
        0 <= r < pm.len(),
        nm.len() == pm.len(),
        pb.len() == pm.len(),
        nb.len() == pb.len(),
        forall|t: int| 0 <= t < pm.len() ==> (#[trigger] pm[t]).len() == ncols,
        forall|t: int| 0 <= t < nm.len() ==> (#[trigger] nm[t]).len() == ncols,
        forall|t: int| 0 <= t < pb.len() ==> (#[trigger] pb[t]).len() == PAYLOAD_LENGTH,
        forall|t: int| 0 <= t < nb.len() ==> (#[trigger] nb[t]).len() == PAYLOAD_LENGTH,
        forall|t: int| 0 <= t < pm.len() && t != r ==> #[trigger] nm[t] == pm[t],
        forall|t: int| 0 <= t < pb.len() && t != r ==> #[trigger] nb[t] == pb[t],
        forall|j: int|
            0 <= j < ncols ==> (#[trigger] nm[r][j]) as int % 256 == (k * pm[r][j]) % 256,
        forall|pos: int|
            0 <= pos < PAYLOAD_LENGTH ==> (#[trigger] nb[r][pos]) as int % 256 == (k
                * pb[r][pos]) % 256,
        is_solution(pm, xs, pb),
    ensures
        is_solution(nm, xs, nb),
{
    assert forall|t: int, pos: int|
        0 <= t < nm.len() && 0 <= pos < PAYLOAD_LENGTH implies nb[t][pos] as int
        == #[trigger] dot_prefix(nm[t], xs, pos, nm[t].len() as int) % 256 by {
        assert(pb[t][pos] as int == dot_prefix(pm[t], xs, pos, pm[t].len() as int) % 256);
        if t == r {
            lemma_dot_scale(pm[r], nm[r], xs, pos, ncols, k);
            lemma_mod_scale(dot_prefix(pm[r], xs, pos, ncols), pb[r][pos] as int, k, 256);
            lemma_small_mod(nb[r][pos] as nat, 256);
        }
    }
}

/// The reverse of one row scaling carries kernel membership back to the
/// previous matrix.
proof fn lemma_row_scale_preserves_kernel(
    pm: Seq<Seq<u8>>,
    nm: Seq<Seq<u8>>,
    y: Seq<u8>,
    r: int,
    k: int,
    ncols: int,
)
    requires
        0 <= r < pm.len(),
        nm.len() == pm.len(),
        y.len() == ncols,
        forall|t: int| 0 <= t < pm.len() ==> (#[trigger] pm[t]).len() == ncols,
        forall|t: int| 0 <= t < nm.len() ==> (#[trigger] nm[t]).len() == ncols,
        forall|t: int| 0 <= t < pm.len() && t != r ==> #[trigger] nm[t] == pm[t],
        forall|j: int|
            0 <= j < ncols ==> (#[trigger] pm[r][j]) as int % 256 == (k * nm[r][j]) % 256,
        in_kernel(nm, y),
    ensures
        in_kernel(pm, y),
{
    assert forall|t: int| 0 <= t < pm.len() implies #[trigger] scalar_dot(pm[t], y, y.len() as int)
        % 256 == 0 by {
        assert(scalar_dot(nm[t], y, y.len() as int) % 256 == 0);
        if t == r {
            lemma_scalar_dot_scale(nm[r], pm[r], y, ncols, k);
            lemma_mod_scale(scalar_dot(nm[r], y, ncols), 0, k, 256);
            lemma_mul_basics_2(k);
        }
    }
}

/// Shape of the working matrix and right-hand side during elimination.
spec fn wf_state(m: Seq<Vec<u8>>, b: Seq<Payload>, nr: int, nc: int) -> bool {
    &&& m.len() == nr
    &&& b.len() == nr
    &&& 1 <= nr
    &&& nc <= nr
    &&& forall|t: int| 0 <= t < nr ==> (#[trigger] m[t])@.len() == nc
    &&& forall|t: int| 0 <= t < nr ==> (#[trigger] b[t]).wf()
}

/// Every solution of the original system solves the current one.
spec fn preserved(
    m0: Seq<Seq<u8>>,
    b0: Seq<Seq<u8>>,
    m: Seq<Seq<u8>>,
    b: Seq<Seq<u8>>,
    nc: int,
) -> bool {
    forall|xs: Seq<Seq<u8>>|
        wf_unknowns(xs, nc) && #[trigger] is_solution(m0, xs, b0) ==> is_solution(m, xs, b)
}

/// Every kernel vector of the current matrix lies in the kernel of the
/// original one.
spec fn kernel_back(m0: Seq<Seq<u8>>, m: Seq<Seq<u8>>, nc: int) -> bool {
    forall|y: Seq<u8>| y.len() == nc && #[trigger] in_kernel(m, y) ==> in_kernel(m0, y)
}

/// Every kernel vector of the original matrix lies in the kernel of the
/// current one: row operations only combine rows, so they cannot lose a
/// kernel vector.
spec fn kernel_fwd(m0: Seq<Seq<u8>>, m: Seq<Seq<u8>>, nc: int) -> bool {
    forall|y: Seq<u8>| y.len() == nc && #[trigger] in_kernel(m0, y) ==> in_kernel(m, y)
}

/// The inverse modulo 256 of an odd byte, by two steps of Newton lifting
/// from the inverse modulo 8.
fn mod256_inv(v: u8) -> (inv: u8)
    requires
        v % 2 == 1,
    ensures
        (v as int * inv as int) % 256 == 1,
{
    let p1: u8 = v.wrapping_mul(v);
    let x1: u8 = v.wrapping_mul(2u8.wrapping_sub(p1));
    let p2: u8 = v.wrapping_mul(x1);
    let x2: u8 = x1.wrapping_mul(2u8.wrapping_sub(p2));
    proof {
        assert(v.wrapping_mul(x2) == 1) by (bit_vector)
            requires
                v % 2 == 1,
                x2 == x1.wrapping_mul(2u8.wrapping_sub(v.wrapping_mul(x1))),
                x1 == v.wrapping_mul(2u8.wrapping_sub(v.wrapping_mul(v))),
        ;
        assert((v as int * x2 as int) % 256 == (v as nat * x2 as nat) % 256);
    }
    x2
}

/// Against any vector, a unit row selects one entry.
proof fn lemma_scalar_dot_unit(row: Seq<u8>, y: Seq<u8>, n: int, u: int)
    requires
        0 <= u < n,
        row[u] == 1,
        forall|j: int| 0 <= j < n && j != u ==> row[j] == 0,
    ensures
        scalar_dot(row, y, n) == y[u],
    decreases n,
{
    if n - 1 == u {
        lemma_scalar_dot_zero(row, y, n - 1);
    } else {
        lemma_scalar_dot_unit(row, y, n - 1, u);
    }
}

/// Entry `j` of the kernel witness built at a failed pivot column `i`:
/// 128 at the column itself, and above it whatever back substitution
/// demands; every entry is a multiple of 128.
spec fn ker_entry(m: Seq<Seq<u8>>, i: int, j: int) -> u8
    decreases i - j, 1int, 0int,
{
    if j == i {
        128u8
    } else if j < i {
        (((256 - ker_sum(m, i, j, j + 1) % 256) % 256) as u8)
    } else {
        0u8
    }
}

/// Sum over `t` in `[k, i]` of `m[j][t] * ker_entry(m, i, t)`.
spec fn ker_sum(m: Seq<Seq<u8>>, i: int, j: int, k: int) -> int
    decreases i - j, 0int, i + 1 - k,
{
    if k > i || k <= j {
        0
    } else {
        m[j][k] * ker_entry(m, i, k) + ker_sum(m, i, j, k + 1)
    }
}

/// Every entry of the kernel witness is a multiple of 128.
proof fn lemma_ker_entry_128(m: Seq<Seq<u8>>, i: int, j: int)
    ensures
        ker_entry(m, i, j) % 128 == 0,
    decreases i - j, 1int, 0int,
{
    if j < i {
        lemma_ker_sum_128(m, i, j, j + 1);
        let s = ker_sum(m, i, j, j + 1);
        lemma_mod_mod(s, 128, 2);
        lemma_mod_bound(s, 256);
        assert(s % 256 == 0 || s % 256 == 128);
    }
}

/// A sum of byte multiples of the 128-valued witness entries is a
/// multiple of 128.
proof fn lemma_ker_sum_128(m: Seq<Seq<u8>>, i: int, j: int, k: int)
    ensures
        ker_sum(m, i, j, k) % 128 == 0,
    decreases i - j, 0int, i + 1 - k,
{
    if k > i || k <= j {
    } else {
        lemma_ker_entry_128(m, i, k);
        lemma_ker_sum_128(m, i, j, k + 1);
        let e = ker_entry(m, i, k) as int;
        let a = m[j][k] as int;
        lemma_mul_mod_noop_right(a, e, 128);
        lemma_mul_basics_2(a);
        lemma_add_mod_noop(a * e, ker_sum(m, i, j, k + 1), 128);
    }
}

/// A prefix of zero coefficients contributes nothing to a scalar dot
/// product.
proof fn lemma_scalar_dot_zero(row: Seq<u8>, y: Seq<u8>, n: int)
    requires
        forall|j: int| 0 <= j < n ==> row[j] == 0,
    ensures
        scalar_dot(row, y, n) == 0,
    decreases n,
{
    if n > 0 {
        lemma_scalar_dot_zero(row, y, n - 1);
    }
}

/// Positions where the vector is zero can be dropped from a scalar dot
/// product.
proof fn lemma_scalar_dot_drop_zeros(row: Seq<u8>, y: Seq<u8>, lo: int, n: int)
    requires
        lo <= n,
        forall|j: int| lo <= j < n ==> y[j] == 0,
    ensures
        scalar_dot(row, y, n) == scalar_dot(row, y, lo),
    decreases n - lo,
{
    if lo < n {
        lemma_scalar_dot_drop_zeros(row, y, lo, n - 1);
    }
}

/// An even byte times 128 vanishes modulo 256.
proof fn lemma_even_times_128(a: u8)
    requires
        a % 2 == 0,
    ensures
        (a as int * 128) % 256 == 0,
{
    let e = a as int / 2;
    lemma_fundamental_div_mod(a as int, 2);
    assert(a as int == 2 * e);
    assert(a as int * 128 == e * 256) by {
        lemma_mul_is_associative(2, e, 128);
        lemma_mul_is_commutative(2, e);
        lemma_mul_is_associative(e, 2, 128);
    }
    lemma_mod_multiples_basic(e, 256);
}

/// A scalar dot product agrees with the witness partial sum on the range
/// `[k, i]`, on top of its own prefix.
proof fn lemma_scalar_dot_split_ker(m: Seq<Seq<u8>>, y: Seq<u8>, i: int, t: int, k: int)
    requires
        0 <= t < k <= i + 1,
        i < y.len(),
        forall|j: int| 0 <= j < y.len() && j <= i ==> y[j] == ker_entry(m, i, j),
    ensures
        scalar_dot(m[t], y, i + 1) == scalar_dot(m[t], y, k) + ker_sum(m, i, t, k),
    decreases i + 1 - k,
{
    if k == i + 1 {
    } else {
        lemma_scalar_dot_split_ker(m, y, i, t, k + 1);
    }
}

/// The product modulo 256 of a matrix with an assignment of payloads to
/// its columns.
pub open spec fn mat_payload_mul(m: Seq<Seq<u8>>, xs: Seq<Seq<u8>>) -> Seq<Seq<u8>> {
    Seq::new(
        m.len(),
        |r: int|
            Seq::new(
                PAYLOAD_LENGTH as nat,
                |pos: int| (dot_prefix(m[r], xs, pos, m[r].len() as int) % 256) as u8,
            ),
    )
}

/// Any assignment solves the system formed from its own product: together
/// with the solver's contract this gives the round trip
/// `solve(a, a * x) = x` whenever the solver accepts `a`.
pub proof fn lemma_product_is_solution(m: Seq<Seq<u8>>, xs: Seq<Seq<u8>>)
    ensures
        is_solution(m, xs, mat_payload_mul(m, xs)),
{
    let b = mat_payload_mul(m, xs);
    assert forall|r: int, pos: int|
        0 <= r < m.len() && 0 <= pos < PAYLOAD_LENGTH implies b[r][pos] as int
        == #[trigger] dot_prefix(m[r], xs, pos, m[r].len() as int) % 256 by {
        lemma_mod_bound(dot_prefix(m[r], xs, pos, m[r].len() as int), 256);
    }
}


/// At a column with no odd entry on or below the diagonal, the matrix
/// kills a nonzero vector whose entries are all 0 or 128: put 128 in that
/// column and solve upward.
proof fn lemma_failed_pivot_kernel(cm: Seq<Seq<u8>>, nr: int, nc: int, i: int)
    requires
        0 <= i < nc <= nr,
        cm.len() == nr,
        forall|t: int| 0 <= t < nr ==> (#[trigger] cm[t]).len() == nc,
        forall|c: int| 0 <= c < i ==> #[trigger] cm[c][c] == 1,
        forall|rr: int, c: int| 0 <= c < i && c < rr < nr ==> #[trigger] cm[rr][c] == 0,
        forall|t: int| i <= t < nr ==> #[trigger] cm[t][i] % 2 == 0,
    ensures
        exists|y: Seq<u8>| y.len() == nc && is_nonzero(y) && in_kernel(cm, y),
{
    let y = Seq::new(nc as nat, |j: int| ker_entry(cm, i, j));
    assert(y[i] == 128);
    assert(is_nonzero(y));
    assert forall|t: int| 0 <= t < nr implies #[trigger] scalar_dot(cm[t], y, y.len() as int)
        % 256 == 0 by {
        assert forall|j: int| i < j < nc implies y[j] == 0 by {}
        lemma_scalar_dot_drop_zeros(cm[t], y, i + 1, nc);
        if t < i {
            lemma_scalar_dot_split_ker(cm, y, i, t, t + 1);
            assert forall|j: int| 0 <= j < t implies cm[t][j] == 0 by {}
            lemma_scalar_dot_zero(cm[t], y, t);
            assert(cm[t][t] == 1);
            assert(scalar_dot(cm[t], y, t + 1) == y[t]);
            let ss = ker_sum(cm, i, t, t + 1);
            assert(scalar_dot(cm[t], y, nc) == y[t] + ss);
            assert(y[t] as int == (256 - ss % 256) % 256);
            lemma_fundamental_div_mod(ss, 256);
            lemma_mod_bound(ss, 256);
            if ss % 256 == 0 {
                assert(y[t] as int == 0);
                assert((y[t] + ss) % 256 == 0) by {
                    lemma_mod_multiples_basic(ss / 256, 256);
                }
            } else {
                assert(y[t] as int == 256 - ss % 256);
                assert(y[t] + ss == 256 * (ss / 256) + 256) by {
                    lemma_mul_is_commutative(256, ss / 256);
                }
                assert((y[t] + ss) % 256 == 0) by {
                    lemma_mod_multiples_basic(ss / 256 + 1, 256);
                    lemma_mul_is_distributive_add_other_way(256, ss / 256, 1);
                }
            }
        } else {
            assert forall|j: int| 0 <= j < i implies cm[t][j] == 0 by {}
            lemma_scalar_dot_zero(cm[t], y, i);
            assert(scalar_dot(cm[t], y, i + 1) == cm[t][i] * y[i]);
            assert(cm[t][i] % 2 == 0);
            lemma_even_times_128(cm[t][i]);
            assert(cm[t][i] * y[i] == cm[t][i] as int * 128);
        }
    }
    assert(in_kernel(cm, y));
}

/// A subtraction of a reduced product agrees, modulo 256, with the exact
/// affine combination.
proof fn lemma_byte_affine_sub(a: u8, p: u8, c: u8)
    ensures
        (a - (p as int * c as int) % 256) % 256 == (a + (-(c as int)) * p) % 256,
{
    lemma_sub_mod_noop_right(a as int, p as int * c as int, 256);
    lemma_mul_unary_negation(c as int, p as int);
    lemma_mul_is_commutative(c as int, p as int);
}

/// Solves `matrix * x = payloads` modulo 256 by Gaussian elimination and
/// back substitution, pivoting on odd entries because only odd residues
/// are invertible modulo a power of two.
///
/// On success the result is pinned against every assignment that solves
/// the original system: whenever a solution exists it is unique and is
/// what is returned.
#[verifier::rlimit(100)]
#[verifier::loop_isolation(false)]
pub fn solve_matrix_mod_256(
    matrix: &mut Vec<Vec<u8>>,
    payloads: &mut Vec<Payload>,
) -> (res: Result<Vec<Payload>, OmrError>)
    requires
        old(matrix)@.len() >= 1,
        old(payloads)@.len() == old(matrix)@.len(),
        old(matrix)@[0]@.len() <= old(matrix)@.len(),
        forall|t: int|
            0 <= t < old(matrix)@.len() ==> (#[trigger] old(matrix)@[t])@.len() == old(
                matrix,
            )@[0]@.len(),
        forall|t: int| 0 <= t < old(payloads)@.len() ==> (#[trigger] old(payloads)@[t]).wf(),
    ensures
        match res {
            Ok(sol) => {
                &&& sol@.len() == old(matrix)@[0]@.len()
                &&& forall|t: int| 0 <= t < sol@.len() ==> (#[trigger] sol@[t]).wf()
                &&& forall|xs: Seq<Seq<u8>>|
                    wf_unknowns(xs, old(matrix)@[0]@.len() as int) && #[trigger] is_solution(
                        mat_views(old(matrix)@),
                        xs,
                        payload_views(old(payloads)@),
                    ) ==> payload_views(sol@) == xs
                &&& forall|y: Seq<u8>|
                    y.len() == old(matrix)@[0]@.len() && #[trigger] in_kernel(
                        mat_views(old(matrix)@),
                        y,
                    ) ==> !is_nonzero(y)
                &&& final(matrix)@.len() == old(matrix)@.len()
                &&& final(payloads)@.len() == old(payloads)@.len()
                &&& forall|j: int, c: int|
                    0 <= j < sol@.len() && 0 <= c < sol@.len()
                        ==> #[trigger] (final(matrix)@[j]@[c]) == (if c == j {
                        1u8
                    } else {
                        0u8
                    })
                &&& forall|j: int| 0 <= j < sol@.len() ==> (#[trigger] final(payloads)@[j])@
                    == sol@[j]@
            },
            Err(e) => {
                &&& e == OmrError::InvertibleMatrix
                &&& exists|y: Seq<u8>|
                    y.len() == old(matrix)@[0]@.len() && is_nonzero(y) && in_kernel(
                        mat_views(old(matrix)@),
                        y,
                    )
            },
        },
{
    let num_rows = matrix.len();
    let num_cols = matrix[0].len();
    let ghost m0 = mat_views(matrix@);
    let ghost b0 = payload_views(payloads@);
    let ghost nr = num_rows as int;
    let ghost nc = num_cols as int;

    // Forward elimination.
    let mut i: usize = 0;
    while i < num_cols
        invariant
            i <= num_cols,
            wf_state(matrix@, payloads@, nr, nc),
            forall|c: int| 0 <= c < i ==> #[trigger] matrix@[c]@[c] == 1,
            forall|rr: int, c: int|
                0 <= c < i && c + 1 < nc && c < rr < nr ==> #[trigger] matrix@[rr]@[c] == 0,
            preserved(m0, b0, mat_views(matrix@), payload_views(payloads@), nc),
            kernel_back(m0, mat_views(matrix@), nc),
            kernel_fwd(m0, mat_views(matrix@), nc),
        decreases num_cols - i,
    {
        let ghost ii = i as int;
        // Find the first row at or below the diagonal with an odd entry in
        // this column; only those are invertible modulo 256.
        let mut found = false;
        let mut odd_index: usize = i;
        let mut j: usize = i;
        while j < num_rows
            invariant
                i <= j <= num_rows,
                found ==> i <= odd_index < num_rows && matrix@[odd_index as int]@[ii] % 2 == 1,
                !found ==> forall|t: int| i <= t < j ==> #[trigger] matrix@[t]@[ii] % 2 == 0,
            decreases num_rows - j,
        {
            if !found && matrix[j][i] % 2 == 1 {
                found = true;
                odd_index = j;
            }
            j = j + 1;
        }
        if !found {
            proof {
                let cm = mat_views(matrix@);
                lemma_failed_pivot_kernel(cm, nr, nc, ii);
                let y = choose|y: Seq<u8>| y.len() == nc && is_nonzero(y) && in_kernel(cm, y);
                assert(in_kernel(m0, y));
            }
            return Err(OmrError::InvertibleMatrix);
        }
        // Swap the pivot row up.
        if odd_index != i {
            let ghost pm = mat_views(matrix@);
            let ghost pb = payload_views(payloads@);
            let ghost oi = odd_index as int;
            let row_i = copy_bytes(&matrix[i]);
            let row_o = copy_bytes(&matrix[odd_index]);
            matrix.set(i, row_o);
            matrix.set(odd_index, row_i);
            let pay_i = payloads[i].duplicate();
            let pay_o = payloads[odd_index].duplicate();
            payloads.set(i, pay_o);
            payloads.set(odd_index, pay_i);
            proof {
                let nm = mat_views(matrix@);
                let nb = payload_views(payloads@);
                assert(nm[ii] == pm[oi]);
                assert(nm[oi] == pm[ii]);
                assert(nb[ii] == pb[oi]);
                assert(nb[oi] == pb[ii]);
                assert forall|xs: Seq<Seq<u8>>|
                    wf_unknowns(xs, nc) && #[trigger] is_solution(m0, xs, b0) implies is_solution(
                    nm,
                    xs,
                    nb,
                ) by {
                    assert(is_solution(pm, xs, pb));
                    assert forall|t: int, pos: int|
                        0 <= t < nr && 0 <= pos < PAYLOAD_LENGTH implies nb[t][pos] as int
                        == #[trigger] dot_prefix(nm[t], xs, pos, nm[t].len() as int) % 256 by {
                        let s = if t == ii {
                            oi
                        } else if t == oi {
                            ii
                        } else {
                            t
                        };
                        assert(nm[t] == pm[s]);
                        assert(nb[t] == pb[s]);
                        assert(pb[s][pos] as int == dot_prefix(
                            pm[s],
                            xs,
                            pos,
                            pm[s].len() as int,
                        ) % 256);
                    }
                }
                assert forall|y: Seq<u8>| y.len() == nc && #[trigger] in_kernel(nm, y) implies
                    in_kernel(m0, y) by {
                    assert forall|t: int| 0 <= t < nr implies #[trigger] scalar_dot(
                        pm[t],
                        y,
                        y.len() as int,
                    ) % 256 == 0 by {
                        let s = if t == ii {
                            oi
                        } else if t == oi {
                            ii
                        } else {
                            t
                        };
                        assert(pm[t] == nm[s]);
                        assert(scalar_dot(nm[s], y, y.len() as int) % 256 == 0);
                    }
                    assert(in_kernel(pm, y));
                }
                assert forall|y: Seq<u8>| y.len() == nc && #[trigger] in_kernel(m0, y) implies
                    in_kernel(nm, y) by {
                    assert(in_kernel(pm, y));
                    assert forall|t: int| 0 <= t < nr implies #[trigger] scalar_dot(
                        nm[t],
                        y,
                        y.len() as int,
                    ) % 256 == 0 by {
                        let s = if t == ii {
                            oi
                        } else if t == oi {
                            ii
                        } else {
                            t
                        };
                        assert(nm[t] == pm[s]);
                        assert(scalar_dot(pm[s], y, y.len() as int) % 256 == 0);
                    }
                }
            }
        }
        proof {
            assert(matrix@[ii]@[ii] % 2 == 1);
            assert forall|c: int| 0 <= c < ii implies matrix@[ii]@[c] == 0 by {}
        }
        // Normalize the pivot row so the diagonal entry is 1.
        let value = matrix[i][i];
        if value != 1 {
            let inv = mod256_inv(value);
            let ghost pm = mat_views(matrix@);
            let ghost pb = payload_views(payloads@);
            let mut new_row = copy_bytes(&matrix[i]);
            let mut k: usize = i;
            while k < num_cols
                invariant
                    i <= k <= num_cols,
                    new_row@.len() == nc,
                    forall|t: int| i <= t < k ==> #[trigger] new_row@[t] == pm[ii][t].wrapping_mul(
                        inv,
                    ),
                    forall|t: int| 0 <= t < i ==> #[trigger] new_row@[t] == pm[ii][t],
                    forall|t: int| k <= t < nc ==> #[trigger] new_row@[t] == pm[ii][t],
                decreases num_cols - k,
            {
                let nv = new_row[k].wrapping_mul(inv);
                new_row.set(k, nv);
                k = k + 1;
            }
            matrix.set(i, new_row);
            let pay = payloads[i].scalar_mul(inv);
            payloads.set(i, pay);
            proof {
                let nm = mat_views(matrix@);
                let nb = payload_views(payloads@);
                assert forall|jj: int| 0 <= jj < nc implies (#[trigger] nm[ii][jj]) as int % 256
                    == (inv as int * pm[ii][jj]) % 256 by {
                    if jj < ii {
                        assert(pm[ii][jj] == 0);
                        assert(nm[ii][jj] == 0);
                        lemma_mul_basics_2(inv as int);
                    } else {
                        assert(nm[ii][jj] == pm[ii][jj].wrapping_mul(inv));
                        lemma_mul_is_commutative(inv as int, pm[ii][jj] as int);
                        lemma_small_mod(nm[ii][jj] as nat, 256);
                    }
                }
                assert forall|pos: int| 0 <= pos < PAYLOAD_LENGTH implies (#[trigger] nb[ii][pos])
                    as int % 256 == (inv as int * pb[ii][pos]) % 256 by {
                    assert(nb[ii][pos] == ((pb[ii][pos] * inv) % 256) as u8);
                    lemma_mul_is_commutative(inv as int, pb[ii][pos] as int);
                    lemma_small_mod(nb[ii][pos] as nat, 256);
                }
                assert forall|xs: Seq<Seq<u8>>|
                    wf_unknowns(xs, nc) && #[trigger] is_solution(m0, xs, b0) implies is_solution(
                    nm,
                    xs,
                    nb,
                ) by {
                    assert(is_solution(pm, xs, pb));
                    lemma_row_scale_preserves_solution(pm, pb, nm, nb, xs, ii, inv as int, nc);
                }
                // The pivot value recovers the previous row from the scaled
                // one, so kernel membership carries back.
                assert forall|jj: int| 0 <= jj < nc implies (#[trigger] pm[ii][jj]) as int % 256
                    == (value as int * nm[ii][jj]) % 256 by {
                    if jj < ii {
                        assert(pm[ii][jj] == 0);
                        assert(nm[ii][jj] == 0);
                        lemma_mul_basics_2(value as int);
                        lemma_small_mod(0nat, 256);
                    } else {
                        assert(nm[ii][jj] == pm[ii][jj].wrapping_mul(inv));
                        lemma_byte_scale_inverse(pm[ii][jj], value, inv);
                    }
                }
                assert forall|y: Seq<u8>| y.len() == nc && #[trigger] in_kernel(nm, y) implies
                    in_kernel(m0, y) by {
                    lemma_row_scale_preserves_kernel(pm, nm, y, ii, value as int, nc);
                    assert(in_kernel(pm, y));
                }
                assert forall|y: Seq<u8>| y.len() == nc && #[trigger] in_kernel(m0, y) implies
                    in_kernel(nm, y) by {
                    assert(in_kernel(pm, y));
                    lemma_row_scale_preserves_kernel(nm, pm, y, ii, inv as int, nc);
                }
                assert(nm[ii][ii] == 1) by {
                    assert(nm[ii][ii] == pm[ii][ii].wrapping_mul(inv));
                }
            }
        }
        proof {
            assert(matrix@[ii]@[ii] == 1);
        }
        // Eliminate the rows below the pivot; the last column has no rows
        // to clear before back substitution reads the result.
        if i + 1 < num_cols {
            let pivot_row = copy_bytes(&matrix[i]);
            let pivot_pay = payloads[i].duplicate();
            let mut r: usize = i + 1;
            while r < num_rows
                invariant
                    i + 1 <= r <= num_rows,
                    i + 1 < num_cols,
                    wf_state(matrix@, payloads@, nr, nc),
                    pivot_row@ == matrix@[ii]@,
                    pivot_pay@ == payloads@[ii]@,
                    pivot_pay.wf(),
                    matrix@[ii]@[ii] == 1,
                    forall|c: int| 0 <= c < i ==> #[trigger] matrix@[c]@[c] == 1,
                    forall|rr: int, c: int|
                        0 <= c < i && c + 1 < nc && c < rr < nr ==> #[trigger] matrix@[rr]@[c]
                            == 0,
                    forall|t: int| i < t < r ==> #[trigger] matrix@[t]@[ii] == 0,
                    preserved(m0, b0, mat_views(matrix@), payload_views(payloads@), nc),
                    kernel_back(m0, mat_views(matrix@), nc),
                    kernel_fwd(m0, mat_views(matrix@), nc),
                decreases num_rows - r,
            {
                let ghost rr = r as int;
                let c = matrix[r][i];
                if c != 0 {
                    let ghost pm = mat_views(matrix@);
                    let ghost pb = payload_views(payloads@);
                    let mut new_row = copy_bytes(&matrix[r]);
                    let mut k: usize = i;
                    while k < num_cols
                        invariant
                            i <= k <= num_cols,
                            new_row@.len() == nc,
                            pivot_row@.len() == nc,
                            forall|t: int|
                                i <= t < k ==> #[trigger] new_row@[t] == pm[rr][t].wrapping_sub(
                                    pivot_row@[t].wrapping_mul(c),
                                ),
                            forall|t: int| 0 <= t < i ==> #[trigger] new_row@[t] == pm[rr][t],
                            forall|t: int| k <= t < nc ==> #[trigger] new_row@[t] == pm[rr][t],
                        decreases num_cols - k,
                    {
                        let nv = new_row[k].wrapping_sub(pivot_row[k].wrapping_mul(c));
                        new_row.set(k, nv);
                        k = k + 1;
                    }
                    matrix.set(r, new_row);
                    let scaled = pivot_pay.scalar_mul(c);
                    let np = payloads[r].sub(&scaled);
                    payloads.set(r, np);
                    proof {
                        let nm = mat_views(matrix@);
                        let nb = payload_views(payloads@);
                        assert forall|jj: int| 0 <= jj < nc implies (#[trigger] nm[rr][jj]) as int
                            % 256 == (pm[rr][jj] + (-(c as int)) * pm[ii][jj]) % 256 by {
                            if jj < ii {
                                assert(pm[rr][jj] == 0);
                                assert(pm[ii][jj] == 0);
                                assert(nm[rr][jj] == 0);
                                lemma_mul_basics_2(-(c as int));
                            } else {
                                assert(nm[rr][jj] == pm[rr][jj].wrapping_sub(
                                    pm[ii][jj].wrapping_mul(c),
                                ));
                                lemma_byte_sub_mul(pm[rr][jj], pm[ii][jj], c);
                            }
                        }
                        assert forall|pos: int| 0 <= pos < PAYLOAD_LENGTH implies (
                        #[trigger] nb[rr][pos]) as int % 256 == (pb[rr][pos] + (-(c as int))
                            * pb[ii][pos]) % 256 by {
                            assert(nb[rr][pos] == ((pb[rr][pos] - (pb[ii][pos] * c) % 256)
                                % 256) as u8);
                            lemma_byte_affine_sub(pb[rr][pos], pb[ii][pos], c);
                            lemma_small_mod(nb[rr][pos] as nat, 256);
                        }
                        assert forall|xs: Seq<Seq<u8>>|
                            wf_unknowns(xs, nc) && #[trigger] is_solution(m0, xs, b0) implies
                            is_solution(nm, xs, nb) by {
                            assert(is_solution(pm, xs, pb));
                            lemma_row_op_preserves_solution(
                                pm,
                                pb,
                                nm,
                                nb,
                                xs,
                                rr,
                                ii,
                                -(c as int),
                                nc,
                            );
                        }
                        assert forall|jj: int| 0 <= jj < nc implies (#[trigger] pm[rr][jj]) as int
                            % 256 == (nm[rr][jj] + (c as int) * nm[ii][jj]) % 256 by {
                            assert(nm[ii][jj] == pm[ii][jj]);
                            lemma_mod_affine(
                                nm[rr][jj] as int,
                                pm[ii][jj] as int,
                                pm[rr][jj] + (-(c as int)) * pm[ii][jj],
                                pm[ii][jj] as int,
                                c as int,
                                256,
                            );
                            lemma_mul_unary_negation(c as int, pm[ii][jj] as int);
                            lemma_small_mod(pm[rr][jj] as nat, 256);
                        }
                        assert forall|y: Seq<u8>| y.len() == nc && #[trigger] in_kernel(nm, y)
                            implies in_kernel(m0, y) by {
                            lemma_row_op_preserves_kernel(pm, nm, y, rr, ii, c as int, nc);
                            assert(in_kernel(pm, y));
                        }
                        assert forall|y: Seq<u8>| y.len() == nc && #[trigger] in_kernel(m0, y)
                            implies in_kernel(nm, y) by {
                            assert(in_kernel(pm, y));
                            lemma_row_op_preserves_kernel(nm, pm, y, rr, ii, -(c as int), nc);
                        }
                        assert(nm[rr][ii] == 0) by {
                            assert(nm[rr][ii] == pm[rr][ii].wrapping_sub(
                                pm[ii][ii].wrapping_mul(c),
                            ));
                            assert(pm[ii][ii] == 1);
                            assert(pm[rr][ii] == c);
                        }
                    }
                }
                r = r + 1;
            }
        }
        i = i + 1;
    }

    // Back substitution: clear the strict upper triangle, highest column
    // first, updating the right-hand side alongside.
    let mut ic: usize = num_cols;
    while ic > 0
        invariant
            ic <= num_cols,
            wf_state(matrix@, payloads@, nr, nc),
            forall|c: int| 0 <= c < nc ==> #[trigger] matrix@[c]@[c] == 1,
            forall|rr: int, c: int|
                0 <= c < nc && c + 1 < nc && c < rr < nr ==> #[trigger] matrix@[rr]@[c] == 0,
            forall|rr: int, c: int| ic <= c < nc && 0 <= rr < c ==> #[trigger] matrix@[rr]@[c]
                == 0,
            preserved(m0, b0, mat_views(matrix@), payload_views(payloads@), nc),
            kernel_fwd(m0, mat_views(matrix@), nc),
        decreases ic,
    {
        ic = ic - 1;
        let ghost cc = ic as int;
        if ic > 0 {
            let pivot_pay = payloads[ic].duplicate();
            let mut r: usize = 0;
            while r < ic
                invariant
                    r <= ic,
                    0 < ic < num_cols,
                    wf_state(matrix@, payloads@, nr, nc),
                    pivot_pay@ == payloads@[cc]@,
                    pivot_pay.wf(),
                    forall|c: int| 0 <= c < nc ==> #[trigger] matrix@[c]@[c] == 1,
                    forall|rr: int, c: int|
                        0 <= c < nc && c + 1 < nc && c < rr < nr ==> #[trigger] matrix@[rr]@[c]
                            == 0,
                    forall|rr: int, c: int|
                        ic + 1 <= c < nc && 0 <= rr < c ==> #[trigger] matrix@[rr]@[c] == 0,
                    forall|t: int| 0 <= t < r ==> #[trigger] matrix@[t]@[cc] == 0,
                    preserved(m0, b0, mat_views(matrix@), payload_views(payloads@), nc),
                    kernel_fwd(m0, mat_views(matrix@), nc),
                decreases ic - r,
            {
                let ghost rr = r as int;
                let c = matrix[r][ic];
                if c != 0 {
                    let ghost pm = mat_views(matrix@);
                    let ghost pb = payload_views(payloads@);
                    let scaled = pivot_pay.scalar_mul(c);
                    let np = payloads[r].sub(&scaled);
                    payloads.set(r, np);
                    let mut new_row = copy_bytes(&matrix[r]);
                    new_row.set(ic, 0);
                    matrix.set(r, new_row);
                    proof {
                        let nm = mat_views(matrix@);
                        let nb = payload_views(payloads@);
                        assert forall|jj: int| 0 <= jj < nc implies (#[trigger] nm[rr][jj]) as int
                            % 256 == (pm[rr][jj] + (-(c as int)) * pm[cc][jj]) % 256 by {
                            if jj == cc {
                                assert(nm[rr][jj] == 0);
                                assert(pm[cc][cc] == 1);
                                assert(pm[rr][cc] == c);
                                lemma_mul_basics_3(-(c as int));
                            } else {
                                assert(nm[rr][jj] == pm[rr][jj]);
                                assert(pm[cc][jj] == 0);
                                lemma_mul_basics_2(-(c as int));
                                lemma_small_mod(pm[rr][jj] as nat, 256);
                            }
                        }
                        assert forall|pos: int| 0 <= pos < PAYLOAD_LENGTH implies (
                        #[trigger] nb[rr][pos]) as int % 256 == (pb[rr][pos] + (-(c as int))
                            * pb[cc][pos]) % 256 by {
                            assert(nb[rr][pos] == ((pb[rr][pos] - (pb[cc][pos] * c) % 256)
                                % 256) as u8);
                            lemma_byte_affine_sub(pb[rr][pos], pb[cc][pos], c);
                            lemma_small_mod(nb[rr][pos] as nat, 256);
                        }
                        assert forall|xs: Seq<Seq<u8>>|
                            wf_unknowns(xs, nc) && #[trigger] is_solution(m0, xs, b0) implies
                            is_solution(nm, xs, nb) by {
                            assert(is_solution(pm, xs, pb));
                            lemma_row_op_preserves_solution(
                                pm,
                                pb,
                                nm,
                                nb,
                                xs,
                                rr,
                                cc,
                                -(c as int),
                                nc,
                            );
                        }
                        assert forall|y: Seq<u8>| y.len() == nc && #[trigger] in_kernel(m0, y)
                            implies in_kernel(nm, y) by {
                            assert(in_kernel(pm, y));
                            lemma_row_op_preserves_kernel(nm, pm, y, rr, cc, -(c as int), nc);
                        }
                    }
                }
                r = r + 1;
            }
        }
    }

    // The matrix is now the identity on its first `num_cols` rows, so the
    // first `num_cols` right-hand sides are the unknowns themselves.
    let mut sol: Vec<Payload> = Vec::new();
    let mut t: usize = 0;
    while t < num_cols
        invariant
            t <= num_cols,
            sol@.len() == t,
            forall|s: int| 0 <= s < t ==> (#[trigger] sol@[s])@ == payloads@[s]@,
            forall|s: int| 0 <= s < t ==> (#[trigger] sol@[s]).wf(),
        decreases num_cols - t,
    {
        let p = payloads[t].duplicate();
        sol.push(p);
        t = t + 1;
    }
    proof {
        let fm = mat_views(matrix@);
        let fb = payload_views(payloads@);
        assert forall|xs: Seq<Seq<u8>>|
            wf_unknowns(xs, nc) && #[trigger] is_solution(m0, xs, b0) implies payload_views(sol@)
            == xs by {
            assert(is_solution(fm, xs, fb));
            assert forall|jj: int, pos: int|
                0 <= jj < nc && 0 <= pos < PAYLOAD_LENGTH implies sol@[jj]@[pos] == xs[jj][pos] by {
                assert(fb[jj][pos] as int == dot_prefix(fm[jj], xs, pos, fm[jj].len() as int)
                    % 256);
                assert forall|c2: int| 0 <= c2 < nc && c2 != jj implies fm[jj][c2] == 0 by {}
                lemma_dot_unit(fm[jj], xs, pos, nc, jj);
                lemma_small_mod(xs[jj][pos] as nat, 256);
            }
            assert(payload_views(sol@) =~~= xs);
        }
        // The identity block also rules out any nonzero kernel vector of
        // the original matrix: it would survive the row operations, yet a
        // unit row annihilates only a zero entry.
        assert forall|y: Seq<u8>|
            y.len() == nc && #[trigger] in_kernel(m0, y) implies !is_nonzero(y) by {
            assert(in_kernel(fm, y));
            assert forall|jj: int| 0 <= jj < nc implies y[jj] == 0 by {
                assert(scalar_dot(fm[jj], y, y.len() as int) % 256 == 0);
                assert forall|c2: int| 0 <= c2 < nc && c2 != jj implies fm[jj][c2] == 0 by {}
                lemma_scalar_dot_unit(fm[jj], y, nc, jj);
                lemma_small_mod(y[jj] as nat, 256);
            }
            if is_nonzero(y) {
                let j = choose|j: int| 0 <= j < y.len() && y[j] != 0;
                assert(false);
            }
        }
        assert forall|j: int, c: int|
            0 <= j < nc && 0 <= c < nc implies matrix@[j]@[c] == (if c == j {
            1u8
        } else {
            0u8
        }) by {}
    }
    Ok(sol)
}

} // verus!
