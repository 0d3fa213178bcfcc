//! Sparse term vectors in fixed point and their inner product.

use vstd::prelude::*;

verus! {

/// Fixed-point scale of a term weight: a weight `w` stands for `w / WEIGHT_SCALE`.
pub const WEIGHT_SCALE: u64 = 65536;

/// `WEIGHT_SCALE * WEIGHT_SCALE`: the fixed-point value of a cosine of one.
pub const UNIT_COSINE: u64 = 4294967296;

/// Ascending sequence of `(term index, weight)` pairs.
pub struct Vector(pub Vec<(u32, u32)>);

impl View for Vector {
    type V = Seq<(u32, u32)>;

    open spec fn view(&self) -> Seq<(u32, u32)> {
        self.0@
    }
}

/// Term indices strictly ascend.
pub open spec fn ascending(v: Seq<(u32, u32)>) -> bool {
    forall|i: int, j: int| 0 <= i < j < v.len() ==> v[i].0 < v[j].0
}

/// Sum of the squared weights.
pub open spec fn sum_sq(v: Seq<(u32, u32)>) -> int
    decreases v.len(),
{
    if v.len() == 0 {
        0
    } else {
        v[0].1 * v[0].1 + sum_sq(v.drop_first())
    }
}

/// A term vector of norm at most one, in fixed point.
pub open spec fn valid_vector(v: Seq<(u32, u32)>) -> bool {
    &&& ascending(v)
    &&& sum_sq(v) <= UNIT_COSINE
}

/// Inner product of two sparse vectors: the products of the weights of the
/// terms that both hold, summed.
pub open spec fn dot(a: Seq<(u32, u32)>, b: Seq<(u32, u32)>) -> int
    decreases a.len() + b.len(),
{
    if a.len() == 0 || b.len() == 0 {
        0
    } else if a[0].0 < b[0].0 {
        dot(a.drop_first(), b)
    } else if b[0].0 < a[0].0 {
        dot(a, b.drop_first())
    } else {
        a[0].1 * b[0].1 + dot(a.drop_first(), b.drop_first())
    }
}

pub proof fn lemma_sum_sq_nonneg(v: Seq<(u32, u32)>)
    ensures
        sum_sq(v) >= 0,
    decreases v.len(),
{
    if v.len() > 0 {
        lemma_sum_sq_nonneg(v.drop_first());
        assert(v[0].1 * v[0].1 >= 0) by (nonlinear_arith);
    }
}

/// The inner product is symmetric.
pub proof fn lemma_dot_symmetric(a: Seq<(u32, u32)>, b: Seq<(u32, u32)>)
    ensures
        dot(a, b) == dot(b, a),
    decreases a.len() + b.len(),
{
    if a.len() == 0 || b.len() == 0 {
    } else if a[0].0 < b[0].0 {
        lemma_dot_symmetric(a.drop_first(), b);
    } else if b[0].0 < a[0].0 {
        lemma_dot_symmetric(a, b.drop_first());
    } else {
        lemma_dot_symmetric(a.drop_first(), b.drop_first());
        assert(a[0].1 * b[0].1 == b[0].1 * a[0].1) by (nonlinear_arith);
    }
}

/// Twice the inner product is at most the sum of the squared norms.
pub proof fn lemma_dot_bound(a: Seq<(u32, u32)>, b: Seq<(u32, u32)>)
    ensures
        0 <= 2 * dot(a, b) <= sum_sq(a) + sum_sq(b),
    decreases a.len() + b.len(),
{
    lemma_sum_sq_nonneg(a);
    lemma_sum_sq_nonneg(b);
    if a.len() == 0 || b.len() == 0 {
    } else if a[0].0 < b[0].0 {
        lemma_dot_bound(a.drop_first(), b);
        assert(a[0].1 * a[0].1 >= 0) by (nonlinear_arith);
    } else if b[0].0 < a[0].0 {
        lemma_dot_bound(a, b.drop_first());
        assert(b[0].1 * b[0].1 >= 0) by (nonlinear_arith);
    } else {
        lemma_dot_bound(a.drop_first(), b.drop_first());
        let x = a[0].1 as int;
        let y = b[0].1 as int;
        assert(0 <= 2 * (x * y) <= x * x + y * y) by (nonlinear_arith)
            requires
                x >= 0,
                y >= 0,
        ;
    }
}

/// The inner product of two valid vectors lies in `[0, UNIT_COSINE]`.
pub proof fn lemma_dot_valid(a: Seq<(u32, u32)>, b: Seq<(u32, u32)>)
    requires
        valid_vector(a),
        valid_vector(b),
    ensures
        UNIT_COSINE == WEIGHT_SCALE * WEIGHT_SCALE,
        0 <= dot(a, b) <= UNIT_COSINE,
{
    lemma_dot_bound(a, b);
}

/// Cosine of two term vectors in fixed point (scaled by `UNIT_COSINE`), by a
/// single merge walk over both.
pub fn distance(lhs: &Vector, rhs: &Vector) -> (r: u64)
    requires
        valid_vector(lhs@),
        valid_vector(rhs@),
    ensures
        r == dot(lhs@, rhs@),
{
    let a = &lhs.0;
    let b = &rhs.0;
    proof {
        lemma_dot_valid(a@, b@);
    }
    let mut i: usize = 0;
    let mut j: usize = 0;
    let mut acc: u64 = 0;
    assert(a@.skip(0) =~= a@);
    assert(b@.skip(0) =~= b@);
    while i < a.len() && j < b.len()
        invariant
            i <= a.len(),
            j <= b.len(),
            acc + dot(a@.skip(i as int), b@.skip(j as int)) == dot(a@, b@),
            dot(a@, b@) <= UNIT_COSINE,
        decreases a.len() + b.len() - i - j,
    {
        let ghost sa = a@.skip(i as int);
        let ghost sb = b@.skip(j as int);
        assert(sa.drop_first() =~= a@.skip(i + 1));
        assert(sb.drop_first() =~= b@.skip(j + 1));
        proof {
            lemma_dot_bound(sa.drop_first(), sb.drop_first());
        }
        let (ka, wa) = a[i];
        let (kb, wb) = b[j];
        if ka < kb {
            i = i + 1;
        } else if kb < ka {
            j = j + 1;
        } else {
            proof {
                assert(wa as int * wb as int >= 0) by (nonlinear_arith);
            }
            acc = acc + (wa as u64) * (wb as u64);
            i = i + 1;
            j = j + 1;
        }
    }
    assert(a@.skip(i as int).len() == 0 || b@.skip(j as int).len() == 0);
    acc
}

} // verus!
