use vstd::prelude::*;
use crate::matrix::{RagMatrix, matrix_rows, matrix_width, row_count, copy_row};
use crate::wide::{square_times, wide_less};

verus! {

/// The sum of the products of the first `n` entries of `a` and `b`.
pub open spec fn dot_upto(a: Seq<u32>, b: Seq<u32>, n: int) -> int
    decreases n,
{
    if n <= 0 {
        0
    } else {
        dot_upto(a, b, n - 1) + a[n - 1] * b[n - 1]
    }
}

/// The dot product of two vectors of one width.
pub open spec fn dot(a: Seq<u32>, b: Seq<u32>) -> int
    recommends
        a.len() == b.len(),
{
    dot_upto(a, b, a.len() as int)
}

/// The square of the Euclidean norm.
pub open spec fn norm_sq(a: Seq<u32>) -> int {
    dot(a, a)
}

/// The numerator of the squared cosine similarity of `q` and `r`.
pub open spec fn cosine_sq_num(q: Seq<u32>, r: Seq<u32>) -> int {
    dot(q, r) * dot(q, r)
}

/// The denominator of the squared cosine similarity of `q` and `r`, which is positive.
///
/// Both vectors are scaled to unit length before their dot product is taken, except
/// that a vector of norm zero is left as it is. So where either norm is zero the
/// similarity is the plain dot product, which is then zero, over one.
pub open spec fn cosine_sq_den(q: Seq<u32>, r: Seq<u32>) -> int {
    if norm_sq(q) == 0 || norm_sq(r) == 0 {
        1
    } else {
        norm_sq(q) * norm_sq(r)
    }
}

/// Whether `a` is strictly more similar to `q` than `b` is.
///
/// No entry is negative, so no cosine is, and cosines are ordered as their squares
/// are. The two squares are compared as fractions, exactly.
pub open spec fn more_similar(q: Seq<u32>, a: Seq<u32>, b: Seq<u32>) -> bool
    recommends
        q.len() == a.len(),
        q.len() == b.len(),
{
    cosine_sq_num(q, a) * cosine_sq_den(q, b) > cosine_sq_num(q, b) * cosine_sq_den(q, a)
}

/// Whether row `i` is the first row of greatest similarity to `q`: it is strictly more
/// similar than every row before it, and no row after it is more similar.
pub open spec fn is_nearest(q: Seq<u32>, rows: Seq<Seq<u32>>, i: int) -> bool {
    &&& 0 <= i < rows.len()
    &&& forall|j: int| 0 <= j < i ==> more_similar(q, rows[i], #[trigger] rows[j])
    &&& forall|j: int| i < j < rows.len() ==> !more_similar(q, #[trigger] rows[j], rows[i])
}

/// Whether every row has the width of `q`.
pub open spec fn rows_match(q: Seq<u32>, rows: Seq<Seq<u32>>) -> bool {
    forall|i: int| 0 <= i < rows.len() ==> (#[trigger] rows[i]).len() == q.len()
}

/// The largest product of two `u32` values.
pub open spec fn term_bound() -> int {
    0xffff_fffe_0000_0001
}

/// A sum of `n` products of `u32` values is not negative and at most `n` times the
/// largest product.
pub proof fn lemma_dot_bounds(a: Seq<u32>, b: Seq<u32>, n: int)
    requires
        0 <= n <= a.len(),
        n <= b.len(),
    ensures
        0 <= dot_upto(a, b, n) <= n * term_bound(),
    decreases n,
{
    if n > 0 {
        lemma_dot_bounds(a, b, n - 1);
        let x = a[n - 1];
        let y = b[n - 1];
        assert(0 <= x * y <= 0xffff_fffe_0000_0001) by (nonlinear_arith)
            requires
                0 <= x <= 0xffff_ffff,
                0 <= y <= 0xffff_ffff,
        ;
    }
}

/// The dot product of two vectors of one width.
pub fn dot_product(a: &Vec<u32>, b: &Vec<u32>) -> (d: u128)
    requires
        a@.len() == b@.len(),
    ensures
        d == dot(a@, b@),
{
    let n: usize = a.len();
    let mut acc: u128 = 0;
    let mut i: usize = 0;
    while i < n
        invariant
            n == a@.len(),
            n == b@.len(),
            i <= n,
            acc == dot_upto(a@, b@, i as int),
        decreases n - i,
    {
        proof {
            lemma_dot_bounds(a@, b@, i as int);
            lemma_dot_bounds(a@, b@, i as int + 1);
        }
        let x: u128 = a[i] as u128;
        let y: u128 = b[i] as u128;
        assert(x * y <= 0xffff_fffe_0000_0001) by (nonlinear_arith)
            requires
                0 <= x <= 0xffff_ffff,
                0 <= y <= 0xffff_ffff,
        ;
        acc = acc + x * y;
        i += 1;
    }
    acc
}

/// The squared norm of a row, or one where the row is all zero: the denominator left
/// when the query's norm is cancelled from both sides of a comparison.
pub open spec fn reduced_den(r: Seq<u32>) -> int {
    if norm_sq(r) == 0 {
        1
    } else {
        norm_sq(r)
    }
}

proof fn lemma_zero_norm(v: Seq<u32>, n: int)
    requires
        0 <= n <= v.len(),
        dot_upto(v, v, n) == 0,
    ensures
        forall|i: int| 0 <= i < n ==> v[i] == 0,
    decreases n,
{
    if n > 0 {
        lemma_dot_bounds(v, v, n - 1);
        let x = v[n - 1];
        assert(x * x >= 0 && (x * x == 0 ==> x == 0)) by (nonlinear_arith)
            requires
                x >= 0,
        ;
        lemma_zero_norm(v, n - 1);
    }
}

proof fn lemma_dot_with_zero(a: Seq<u32>, b: Seq<u32>, n: int)
    requires
        0 <= n <= a.len(),
        n <= b.len(),
        (forall|i: int| 0 <= i < n ==> a[i] == 0) || (forall|i: int| 0 <= i < n ==> b[i] == 0),
    ensures
        dot_upto(a, b, n) == 0,
    decreases n,
{
    if n > 0 {
        lemma_dot_with_zero(a, b, n - 1);
        let x = a[n - 1];
        let y = b[n - 1];
        assert(x * y == 0) by (nonlinear_arith)
            requires
                x == 0 || y == 0,
        ;
    }
}

/// A vector of norm zero has dot product zero with every vector of its width.
pub proof fn lemma_zero_norm_zero_dot(q: Seq<u32>, r: Seq<u32>)
    requires
        q.len() == r.len(),
        norm_sq(q) == 0 || norm_sq(r) == 0,
    ensures
        dot(q, r) == 0,
{
    if norm_sq(q) == 0 {
        lemma_zero_norm(q, q.len() as int);
    } else {
        lemma_zero_norm(r, r.len() as int);
    }
    lemma_dot_with_zero(q, r, q.len() as int);
}

/// The denominator of a squared cosine is positive, its numerator not negative.
pub proof fn lemma_cosine_signs(q: Seq<u32>, r: Seq<u32>)
    requires
        q.len() == r.len(),
    ensures
        cosine_sq_num(q, r) >= 0,
        cosine_sq_den(q, r) > 0,
        reduced_den(r) > 0,
        dot(q, r) >= 0,
{
    lemma_dot_bounds(q, r, q.len() as int);
    lemma_dot_bounds(q, q, q.len() as int);
    lemma_dot_bounds(r, r, r.len() as int);
    let d = dot(q, r);
    let nq = norm_sq(q);
    let nr = norm_sq(r);
    assert(d * d >= 0) by (nonlinear_arith);
    assert(nq > 0 && nr > 0 ==> nq * nr > 0) by (nonlinear_arith);
}

/// With the query's norm cancelled, two rows compare as their squared dot products
/// over their own squared norms.
pub proof fn lemma_reduced_order(q: Seq<u32>, a: Seq<u32>, b: Seq<u32>)
    requires
        q.len() == a.len(),
        q.len() == b.len(),
    ensures
        more_similar(q, a, b) <==> dot(q, a) * dot(q, a) * reduced_den(b) > dot(q, b) * dot(q, b)
            * reduced_den(a),
{
    lemma_cosine_signs(q, a);
    lemma_cosine_signs(q, b);
    lemma_dot_bounds(q, q, q.len() as int);
    let nq = norm_sq(q);
    let na = norm_sq(a);
    let nb = norm_sq(b);
    let da = dot(q, a);
    let db = dot(q, b);
    if nq == 0 {
        lemma_zero_norm_zero_dot(q, a);
        lemma_zero_norm_zero_dot(q, b);
        assert(da * da * reduced_den(b) == 0) by (nonlinear_arith)
            requires
                da == 0,
        ;
        assert(db * db * reduced_den(a) == 0) by (nonlinear_arith)
            requires
                db == 0,
        ;
        assert(cosine_sq_num(q, a) * cosine_sq_den(q, b) == 0) by (nonlinear_arith)
            requires
                cosine_sq_num(q, a) == da * da,
                da == 0,
        ;
        assert(cosine_sq_num(q, b) * cosine_sq_den(q, a) == 0) by (nonlinear_arith)
            requires
                cosine_sq_num(q, b) == db * db,
                db == 0,
        ;
    } else {
        if na == 0 {
            lemma_zero_norm_zero_dot(q, a);
        }
        if nb == 0 {
            lemma_zero_norm_zero_dot(q, b);
        }
        let ra = reduced_den(a);
        let rb = reduced_den(b);
        let ca = cosine_sq_den(q, a);
        let cb = cosine_sq_den(q, b);
        assert(((da * da) * cb > (db * db) * ca) <==> (da * da * rb > db * db * ra))
            by (nonlinear_arith)
            requires
                nq > 0,
                ra > 0,
                rb > 0,
                na == 0 ==> da == 0 && ra == 1 && ca == 1,
                nb == 0 ==> db == 0 && rb == 1 && cb == 1,
                na != 0 ==> ra == na && ca == nq * na,
                nb != 0 ==> rb == nb && cb == nq * nb,
        {
            if na != 0 && nb != 0 {
                assert((da * da) * (nq * nb) == nq * (da * da * nb));
                assert((db * db) * (nq * na) == nq * (db * db * na));
            } else if na == 0 && nb != 0 {
                assert((da * da) * cb == 0);
                assert(da * da * rb == 0);
            } else if na != 0 && nb == 0 {
                assert((db * db) * ca == 0);
                assert(db * db * ra == 0);
            } else {
            }
        }
    }
}

/// Fractions with positive denominators: from `a/da <= b/db` and `b/db < c/dc`
/// follows `a/da < c/dc`.
proof fn lemma_fraction_chain(a: int, da: int, b: int, db: int, c: int, dc: int)
    by (nonlinear_arith)
    requires
        da > 0,
        db > 0,
        dc > 0,
        a * db <= b * da,
        b * dc < c * db,
    ensures
        a * dc < c * da,
{
    assert((a * db) * dc <= (b * da) * dc);
    assert((b * dc) * da < (c * db) * da);
    assert((a * dc) * db < (c * da) * db);
}

/// Similarity to one query orders rows: a row that is not more similar than a second,
/// which a third is more similar than, is less similar than the third.
pub proof fn lemma_similarity_chain(q: Seq<u32>, a: Seq<u32>, b: Seq<u32>, c: Seq<u32>)
    requires
        q.len() == a.len(),
        q.len() == b.len(),
        q.len() == c.len(),
        !more_similar(q, a, b),
        more_similar(q, c, b),
    ensures
        more_similar(q, c, a),
{
    lemma_cosine_signs(q, a);
    lemma_cosine_signs(q, b);
    lemma_cosine_signs(q, c);
    lemma_fraction_chain(
        cosine_sq_num(q, a),
        cosine_sq_den(q, a),
        cosine_sq_num(q, b),
        cosine_sq_den(q, b),
        cosine_sq_num(q, c),
        cosine_sq_den(q, c),
    );
}

proof fn lemma_square_order(u: int, v: int)
    by (nonlinear_arith)
    requires
        0 <= u,
        0 <= v,
        v * v <= u * u,
    ensures
        v <= u,
{
    if u < v {
        assert(u * u < v * v);
    }
}

proof fn lemma_mean_step(p: int, q: int, r: int)
    requires
        0 <= p,
        0 <= q,
        0 <= r,
        r * r <= p * q,
    ensures
        2 * r <= p + q,
{
    assert((p + q) * (p + q) >= 4 * (p * q)) by (nonlinear_arith) {
        assert((p - q) * (p - q) >= 0);
        assert((p + q) * (p + q) == (p - q) * (p - q) + 4 * (p * q));
    }
    assert((2 * r) * (2 * r) == 4 * (r * r)) by (nonlinear_arith);
    lemma_square_order(p + q, 2 * r);
}

proof fn lemma_cauchy_step(d: int, a: int, b: int, x: int, y: int)
    requires
        0 <= d,
        0 <= a,
        0 <= b,
        0 <= x,
        0 <= y,
        d * d <= a * b,
    ensures
        (d + x * y) * (d + x * y) <= (a + x * x) * (b + y * y),
{
    let p = a * (y * y);
    let q = b * (x * x);
    let r = d * (x * y);
    let xy = x * y;
    assert(0 <= p && 0 <= q && 0 <= r && 0 <= xy) by (nonlinear_arith)
        requires
            0 <= d,
            0 <= a,
            0 <= b,
            0 <= x,
            0 <= y,
            p == a * (y * y),
            q == b * (x * x),
            r == d * (x * y),
            xy == x * y,
    ;
    assert(p * q == (a * b) * (xy * xy)) by (nonlinear_arith)
        requires
            p == a * (y * y),
            q == b * (x * x),
            xy == x * y,
    ;
    assert(r * r == (d * d) * (xy * xy)) by (nonlinear_arith)
        requires
            r == d * xy,
    ;
    assert((d * d) * (xy * xy) <= (a * b) * (xy * xy)) by (nonlinear_arith)
        requires
            d * d <= a * b,
    ;
    lemma_mean_step(p, q, r);
    let xx = x * x;
    let yy = y * y;
    assert((a + xx) * (b + yy) == a * b + a * yy + b * xx + xx * yy) by (nonlinear_arith);
    assert((d + xy) * (d + xy) == d * d + 2 * (d * xy) + xy * xy) by (nonlinear_arith);
    assert(xx * yy == xy * xy) by (nonlinear_arith)
        requires
            xx == x * x,
            yy == y * y,
            xy == x * y,
    ;
}

proof fn lemma_cauchy_upto(a: Seq<u32>, b: Seq<u32>, n: int)
    requires
        0 <= n <= a.len(),
        n <= b.len(),
    ensures
        dot_upto(a, b, n) * dot_upto(a, b, n) <= dot_upto(a, a, n) * dot_upto(b, b, n),
    decreases n,
{
    if n > 0 {
        lemma_cauchy_upto(a, b, n - 1);
        lemma_dot_bounds(a, b, n - 1);
        lemma_dot_bounds(a, a, n - 1);
        lemma_dot_bounds(b, b, n - 1);
        lemma_cauchy_step(
            dot_upto(a, b, n - 1),
            dot_upto(a, a, n - 1),
            dot_upto(b, b, n - 1),
            a[n - 1] as int,
            b[n - 1] as int,
        );
    } else {
        assert(0 * 0 <= 0 * 0) by (nonlinear_arith);
    }
}

/// The inequality of Cauchy and Schwarz: the square of a dot product is at most the
/// product of the two squared norms.
pub proof fn lemma_cauchy_schwarz(a: Seq<u32>, b: Seq<u32>)
    requires
        a.len() == b.len(),
    ensures
        dot(a, b) * dot(a, b) <= norm_sq(a) * norm_sq(b),
{
    lemma_cauchy_upto(a, b, a.len() as int);
}

/// No vector is more similar to a query than the query itself: its similarity to
/// itself is the greatest there is.
pub proof fn law_self_similarity_is_greatest(q: Seq<u32>, r: Seq<u32>)
    requires
        q.len() == r.len(),
    ensures
        !more_similar(q, r, q),
{
    lemma_cauchy_schwarz(q, r);
    lemma_cosine_signs(q, r);
    lemma_cosine_signs(q, q);
    let nq = norm_sq(q);
    let nr = norm_sq(r);
    let d = dot(q, r);
    if nq == 0 || nr == 0 {
        lemma_zero_norm_zero_dot(q, r);
        assert(cosine_sq_num(q, r) * cosine_sq_den(q, q) == 0) by (nonlinear_arith)
            requires
                cosine_sq_num(q, r) == d * d,
                d == 0,
        ;
        assert(cosine_sq_num(q, q) * cosine_sq_den(q, r) >= 0) by (nonlinear_arith)
            requires
                cosine_sq_num(q, q) >= 0,
                cosine_sq_den(q, r) > 0,
        ;
    } else {
        assert((d * d) * (nq * nq) <= (nq * nq) * (nq * nr)) by (nonlinear_arith)
            requires
                d * d <= nq * nr,
                nq > 0,
        ;
    }
}

/// At most one row is the first row of greatest similarity.
pub proof fn law_nearest_is_unique(q: Seq<u32>, rows: Seq<Seq<u32>>, i: int, j: int)
    requires
        is_nearest(q, rows, i),
        is_nearest(q, rows, j),
    ensures
        i == j,
{
    if i < j {
        assert(more_similar(q, rows[j], rows[i]));
    } else if j < i {
        assert(more_similar(q, rows[i], rows[j]));
    }
}

/// Where row `k` is the query's own embedding, the nearest row does not come after
/// row `k`, and row `k` is not more similar to the query than the nearest row is.
pub proof fn law_nearest_not_after_own_row(q: Seq<u32>, rows: Seq<Seq<u32>>, k: int, i: int)
    requires
        rows_match(q, rows),
        0 <= k < rows.len(),
        rows[k] == q,
        is_nearest(q, rows, i),
    ensures
        i <= k,
        !more_similar(q, rows[k], rows[i]),
{
    law_self_similarity_is_greatest(q, rows[i]);
    if k < i {
        assert(more_similar(q, rows[i], rows[k]));
    }
    if i < k {
        assert(!more_similar(q, rows[k], rows[i]));
    }
}

/// A search of a matrix that holds the query's own embedding as row `k` finds row `k`,
/// where no row before it is as similar to the query as the query is to itself.
pub proof fn law_nearest_finds_own_row(q: Seq<u32>, rows: Seq<Seq<u32>>, k: int)
    requires
        rows_match(q, rows),
        0 <= k < rows.len(),
        rows[k] == q,
        forall|j: int| 0 <= j < k ==> more_similar(q, q, #[trigger] rows[j]),
    ensures
        is_nearest(q, rows, k),
{
    assert forall|j: int| k < j < rows.len() implies !more_similar(q, #[trigger] rows[j], rows[k]) by {
        law_self_similarity_is_greatest(q, rows[j]);
    }
}

/// Whether `a` times each entry of `r` is `b` times the entry of `q` in its place.
pub open spec fn proportional(r: Seq<u32>, q: Seq<u32>, a: int, b: int) -> bool {
    forall|i: int| 0 <= i < q.len() ==> a * #[trigger] r[i] == b * q[i]
}

/// Whether `r` is `q` multiplied by a positive factor, which may be a fraction.
pub open spec fn is_positive_multiple(r: Seq<u32>, q: Seq<u32>) -> bool {
    &&& r.len() == q.len()
    &&& exists|a: int, b: int| a > 0 && b > 0 && #[trigger] proportional(r, q, a, b)
}

/// The sum of the squares of `a * r[i] - b * q[i]` over the first `n` entries.
spec fn deviation_upto(q: Seq<u32>, r: Seq<u32>, a: int, b: int, n: int) -> int
    decreases n,
{
    if n <= 0 {
        0
    } else {
        deviation_upto(q, r, a, b, n - 1) + (a * r[n - 1] - b * q[n - 1]) * (a * r[n - 1] - b
            * q[n - 1])
    }
}

proof fn lemma_deviation_expand(q: Seq<u32>, r: Seq<u32>, a: int, b: int, n: int)
    requires
        0 <= n <= q.len(),
        n <= r.len(),
    ensures
        deviation_upto(q, r, a, b, n) == a * a * dot_upto(r, r, n) - 2 * (a * b) * dot_upto(
            q,
            r,
            n,
        ) + b * b * dot_upto(q, q, n),
        deviation_upto(q, r, a, b, n) >= 0,
    decreases n,
{
    if n > 0 {
        lemma_deviation_expand(q, r, a, b, n - 1);
        let x = q[n - 1] as int;
        let y = r[n - 1] as int;
        let rr = dot_upto(r, r, n - 1);
        let qr = dot_upto(q, r, n - 1);
        let qq = dot_upto(q, q, n - 1);
        let u = a * y;
        let v = b * x;
        assert((u - v) * (u - v) == u * u - 2 * (u * v) + v * v) by (nonlinear_arith);
        assert(u * u == a * a * (y * y)) by (nonlinear_arith)
            requires
                u == a * y,
        ;
        assert(v * v == b * b * (x * x)) by (nonlinear_arith)
            requires
                v == b * x,
        ;
        assert(u * v == (a * b) * (x * y)) by (nonlinear_arith)
            requires
                u == a * y,
                v == b * x,
        ;
        assert((u - v) * (u - v) >= 0) by (nonlinear_arith);
        assert(2 * (a * b) * (x * y) == 2 * ((a * b) * (x * y))) by (nonlinear_arith);
        assert(a * a * (rr + y * y) == a * a * rr + a * a * (y * y)) by (nonlinear_arith);
        assert(2 * (a * b) * (qr + x * y) == 2 * (a * b) * qr + 2 * (a * b) * (x * y))
            by (nonlinear_arith);
        assert(b * b * (qq + x * x) == b * b * qq + b * b * (x * x)) by (nonlinear_arith);
    } else {
        assert(a * a * 0 - 2 * (a * b) * 0 + b * b * 0 == 0) by (nonlinear_arith);
    }
}

proof fn lemma_deviation_zero(q: Seq<u32>, r: Seq<u32>, a: int, b: int, n: int)
    requires
        0 <= n <= q.len(),
        n <= r.len(),
        deviation_upto(q, r, a, b, n) == 0,
    ensures
        forall|i: int| 0 <= i < n ==> a * #[trigger] r[i] == b * q[i],
    decreases n,
{
    if n > 0 {
        lemma_deviation_expand(q, r, a, b, n - 1);
        let t = a * r[n - 1] - b * q[n - 1];
        assert(t * t >= 0 && (t * t == 0 ==> t == 0)) by (nonlinear_arith);
        lemma_deviation_zero(q, r, a, b, n - 1);
    }
}

/// The case of equality in the inequality of Cauchy and Schwarz: where the square of
/// the dot product is the product of the squared norms, and neither vector is zero,
/// one is the other multiplied by a positive factor.
pub proof fn lemma_equality_means_multiple(q: Seq<u32>, r: Seq<u32>)
    requires
        q.len() == r.len(),
        norm_sq(q) > 0,
        norm_sq(r) > 0,
        dot(q, r) * dot(q, r) == norm_sq(q) * norm_sq(r),
    ensures
        is_positive_multiple(r, q),
{
    let n = q.len() as int;
    let a = norm_sq(q);
    let b = dot(q, r);
    let nr = norm_sq(r);
    lemma_dot_bounds(q, r, n);
    lemma_deviation_expand(q, r, a, b, n);
    assert(a * a * nr - 2 * (a * b) * b + b * b * a == 0) by (nonlinear_arith)
        requires
            b * b == a * nr,
    ;
    lemma_deviation_zero(q, r, a, b, n);
    assert(b != 0) by (nonlinear_arith)
        requires
            b * b == a * nr,
            a > 0,
            nr > 0,
    ;
    assert(proportional(r, q, a, b));
}

/// A row that is not the query multiplied by a positive factor is strictly less
/// similar to the query than the query is to itself.
pub proof fn law_unlike_row_is_less_similar(q: Seq<u32>, r: Seq<u32>)
    requires
        q.len() == r.len(),
        norm_sq(q) > 0,
        !is_positive_multiple(r, q),
    ensures
        more_similar(q, q, r),
{
    lemma_cauchy_schwarz(q, r);
    lemma_cosine_signs(q, r);
    lemma_cosine_signs(q, q);
    lemma_dot_bounds(r, r, r.len() as int);
    let nq = norm_sq(q);
    let nr = norm_sq(r);
    let d = dot(q, r);
    if nr == 0 {
        lemma_zero_norm_zero_dot(q, r);
        assert(cosine_sq_num(q, r) * cosine_sq_den(q, q) == 0) by (nonlinear_arith)
            requires
                cosine_sq_num(q, r) == d * d,
                d == 0,
        ;
        assert(cosine_sq_num(q, q) * cosine_sq_den(q, r) > 0) by (nonlinear_arith)
            requires
                cosine_sq_num(q, q) == nq * nq,
                cosine_sq_den(q, r) == 1,
                nq > 0,
        ;
    } else {
        if d * d == nq * nr {
            lemma_equality_means_multiple(q, r);
        }
        assert((nq * nq) * (nq * nr) > (d * d) * (nq * nq)) by (nonlinear_arith)
            requires
                d * d < nq * nr,
                nq > 0,
        ;
    }
}

/// A search of a matrix that holds the query's own embedding as row `k` finds row `k`,
/// where the query is not all zero and no row before row `k` is the query multiplied
/// by a positive factor.
pub proof fn law_nearest_finds_own_row_among_unlike(q: Seq<u32>, rows: Seq<Seq<u32>>, k: int)
    requires
        rows_match(q, rows),
        0 <= k < rows.len(),
        rows[k] == q,
        norm_sq(q) > 0,
        forall|j: int| 0 <= j < k ==> !is_positive_multiple(#[trigger] rows[j], q),
    ensures
        is_nearest(q, rows, k),
{
    assert forall|j: int| 0 <= j < k implies more_similar(q, q, #[trigger] rows[j]) by {
        law_unlike_row_is_less_similar(q, rows[j]);
    }
    law_nearest_finds_own_row(q, rows, k);
}

/// Whether `long` is `short` with every entry multiplied by `factor`.
pub open spec fn is_scaled(long: Seq<u32>, short: Seq<u32>, factor: int) -> bool {
    &&& long.len() == short.len()
    &&& forall|i: int| 0 <= i < short.len() ==> #[trigger] long[i] == factor * short[i]
}

proof fn lemma_dot_scaled(a: Seq<u32>, long: Seq<u32>, short: Seq<u32>, factor: int, n: int)
    requires
        is_scaled(long, short, factor),
        0 <= n <= short.len(),
        n <= a.len(),
    ensures
        dot_upto(a, long, n) == factor * dot_upto(a, short, n),
        dot_upto(long, a, n) == factor * dot_upto(short, a, n),
        dot_upto(long, long, n) == factor * factor * dot_upto(short, short, n),
    decreases n,
{
    if n > 0 {
        lemma_dot_scaled(a, long, short, factor, n - 1);
        let x = a[n - 1] as int;
        let y = short[n - 1] as int;
        let z = long[n - 1] as int;
        assert(z == factor * y);
        let da = dot_upto(a, short, n - 1);
        let db = dot_upto(short, a, n - 1);
        let dc = dot_upto(short, short, n - 1);
        assert(factor * da + x * z == factor * (da + x * y)) by (nonlinear_arith)
            requires
                z == factor * y,
        ;
        assert(factor * db + z * x == factor * (db + y * x)) by (nonlinear_arith)
            requires
                z == factor * y,
        ;
        assert(factor * factor * dc + z * z == factor * factor * (dc + y * y))
            by (nonlinear_arith)
            requires
                z == factor * y,
        ;
    } else {
        assert(factor * 0 == 0 && factor * factor * 0 == 0) by (nonlinear_arith);
    }
}

proof fn lemma_scaled_fraction(num: int, den: int, other_num: int, other_den: int, square: int)
    by (nonlinear_arith)
    requires
        square > 0,
    ensures
        (square * num) * other_den > other_num * (square * den) <==> num * other_den > other_num
            * den,
        other_num * (square * den) > (square * num) * other_den <==> other_num * den > num
            * other_den,
{
    assert((square * num) * other_den == square * (num * other_den));
    assert(other_num * (square * den) == square * (other_num * den));
}

/// Only the direction of a row counts: a row multiplied by a positive factor compares
/// with every other row as the row itself does. To scale each row to unit length
/// before the comparison therefore changes no ranking.
pub proof fn law_row_scale_changes_nothing(
    q: Seq<u32>,
    long: Seq<u32>,
    short: Seq<u32>,
    factor: int,
    other: Seq<u32>,
)
    requires
        factor > 0,
        is_scaled(long, short, factor),
        q.len() == short.len(),
        q.len() == other.len(),
    ensures
        more_similar(q, long, other) <==> more_similar(q, short, other),
        more_similar(q, other, long) <==> more_similar(q, other, short),
{
    let n = q.len() as int;
    lemma_dot_scaled(q, long, short, factor, n);
    lemma_dot_bounds(short, short, n);
    lemma_dot_bounds(q, q, n);
    let d = dot(q, short);
    let ns = norm_sq(short);
    let nq = norm_sq(q);
    let square = factor * factor;
    assert(square > 0) by (nonlinear_arith)
        requires
            factor > 0,
            square == factor * factor,
    ;
    assert(cosine_sq_num(q, long) == square * cosine_sq_num(q, short)) by (nonlinear_arith)
        requires
            cosine_sq_num(q, long) == (factor * d) * (factor * d),
            cosine_sq_num(q, short) == d * d,
            square == factor * factor,
    ;
    assert(norm_sq(long) == square * ns);
    assert(ns == 0 <==> square * ns == 0) by (nonlinear_arith)
        requires
            square > 0,
    ;
    if nq == 0 || ns == 0 {
        lemma_zero_norm_zero_dot(q, short);
        assert(cosine_sq_num(q, short) == 0) by (nonlinear_arith)
            requires
                cosine_sq_num(q, short) == d * d,
                d == 0,
        ;
        assert(cosine_sq_num(q, long) == 0) by (nonlinear_arith)
            requires
                cosine_sq_num(q, long) == square * cosine_sq_num(q, short),
                cosine_sq_num(q, short) == 0,
        ;
        assert(cosine_sq_den(q, long) == cosine_sq_den(q, short));
    } else {
        assert(cosine_sq_den(q, long) == square * cosine_sq_den(q, short)) by (nonlinear_arith)
            requires
                cosine_sq_den(q, long) == nq * (square * ns),
                cosine_sq_den(q, short) == nq * ns,
        ;
        lemma_scaled_fraction(
            cosine_sq_num(q, short),
            cosine_sq_den(q, short),
            cosine_sq_num(q, other),
            cosine_sq_den(q, other),
            square,
        );
    }
}

/// Only the direction of the query counts: a query multiplied by a positive factor
/// ranks all rows as the query itself does.
pub proof fn law_query_scale_changes_nothing(
    long: Seq<u32>,
    short: Seq<u32>,
    factor: int,
    a: Seq<u32>,
    b: Seq<u32>,
)
    requires
        factor > 0,
        is_scaled(long, short, factor),
        short.len() == a.len(),
        short.len() == b.len(),
    ensures
        more_similar(long, a, b) <==> more_similar(short, a, b),
{
    lemma_reduced_order(long, a, b);
    lemma_reduced_order(short, a, b);
    let n = short.len() as int;
    lemma_dot_scaled(a, long, short, factor, n);
    lemma_dot_scaled(b, long, short, factor, n);
    lemma_cosine_signs(short, a);
    lemma_cosine_signs(short, b);
    let da = dot(short, a);
    let db = dot(short, b);
    let ra = reduced_den(a);
    let rb = reduced_den(b);
    let square = factor * factor;
    assert(square > 0) by (nonlinear_arith)
        requires
            factor > 0,
            square == factor * factor,
    ;
    assert((factor * da) * (factor * da) * rb == square * (da * da * rb)) by (nonlinear_arith)
        requires
            square == factor * factor,
    ;
    assert((factor * db) * (factor * db) * ra == square * (db * db * ra)) by (nonlinear_arith)
        requires
            square == factor * factor,
    ;
    assert(square * (da * da * rb) > square * (db * db * ra) <==> da * da * rb > db * db * ra)
        by (nonlinear_arith)
        requires
            square > 0,
    ;
}

/// There is no passage to match a query against.
#[derive(Debug)]
pub struct EmptyMatrixError;

/// The dot product of a row with the query and the row's squared norm, the latter
/// replaced by one where it is zero.
fn row_score(query: &Vec<u32>, row: &Vec<u32>) -> (s: (u128, u128))
    requires
        query@.len() == row@.len(),
    ensures
        s.0 == dot(query@, row@),
        s.1 == reduced_den(row@),
{
    let d = dot_product(query, row);
    let n = dot_product(row, row);
    if n == 0 {
        (d, 1)
    } else {
        (d, n)
    }
}

/// The index of the row most similar to the query by cosine similarity, the first such
/// row where several are equally similar. A matrix without rows gives an error.
pub fn nearest(query: &Vec<u32>, matrix: &RagMatrix) -> (r: Result<usize, EmptyMatrixError>)
    requires
        query@.len() == matrix_width(*matrix),
    ensures
        r is Err <==> matrix_rows(*matrix).len() == 0,
        r matches Ok(i) ==> is_nearest(query@, matrix_rows(*matrix), i as int),
{
    let count: usize = row_count(matrix);
    if count == 0 {
        return Err(EmptyMatrixError);
    }
    let ghost q = query@;
    let ghost rows = matrix_rows(*matrix);
    let first = copy_row(matrix, 0);
    let (mut best_dot, mut best_den) = row_score(query, &first);
    let mut best: usize = 0;
    let mut i: usize = 1;
    while i < count
        invariant
            q == query@,
            rows == matrix_rows(*matrix),
            q.len() == matrix_width(*matrix),
            count == rows.len(),
            1 <= i <= count,
            best < i,
            rows[best as int].len() == q.len(),
            best_dot == dot(q, rows[best as int]),
            best_den == reduced_den(rows[best as int]),
            forall|j: int| 0 <= j < i ==> (#[trigger] rows[j]).len() == q.len(),
            forall|j: int| 0 <= j < best ==> more_similar(q, rows[best as int], #[trigger] rows[j]),
            forall|j: int| best < j < i ==> !more_similar(q, #[trigger] rows[j], rows[best as int]),
        decreases count - i,
    {
        let row = copy_row(matrix, i);
        let (row_dot, row_den) = row_score(query, &row);
        let held = square_times(best_dot, row_den);
        let offered = square_times(row_dot, best_den);
        proof {
            lemma_reduced_order(q, rows[i as int], rows[best as int]);
        }
        if wide_less(&held, &offered) {
            proof {
                let old_best = best as int;
                assert forall|j: int| 0 <= j < i implies more_similar(
                    q,
                    rows[i as int],
                    #[trigger] rows[j],
                ) by {
                    if j != old_best {
                        lemma_similarity_chain(q, rows[j], rows[old_best], rows[i as int]);
                    }
                }
            }
            best = i;
            best_dot = row_dot;
            best_den = row_den;
        }
        i += 1;
    }
    Ok(best)
}

} // verus!
