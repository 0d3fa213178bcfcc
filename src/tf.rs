//! Term frequencies: counting term indices and turning the counts into a
//! normalized fixed-point term vector.

use vstd::prelude::*;

use crate::vector::{ascending, sum_sq, valid_vector, Vector, WEIGHT_SCALE};

verus! {

/// Number of occurrences of `k` in `s`.
pub open spec fn occurrences(s: Seq<u32>, k: u32) -> nat
    decreases s.len(),
{
    if s.len() == 0 {
        0
    } else {
        occurrences(s.drop_last(), k) + if s.last() == k {
            1nat
        } else {
            0nat
        }
    }
}

/// Sum of the counts.
pub open spec fn total(c: Seq<(u32, u32)>) -> int
    decreases c.len(),
{
    if c.len() == 0 {
        0
    } else {
        c[0].1 + total(c.drop_first())
    }
}

/// `c` counts `words`: ascending by term index, one row for each term that
/// occurs, with its number of occurrences.
pub open spec fn counts_of(c: Seq<(u32, u32)>, words: Seq<u32>) -> bool {
    &&& ascending(c)
    &&& forall|i: int|
        0 <= i < c.len() ==> #[trigger] c[i].1 == occurrences(words, c[i].0) && c[i].1 > 0
    &&& forall|k: u32|
        #[trigger] occurrences(words, k) > 0 ==> exists|i: int| 0 <= i < c.len() && c[i].0 == k
}

/// `w` is the largest weight with `w / WEIGHT_SCALE <= count / sqrt(q)`:
/// the count's share of the Euclidean norm `sqrt(q)`, rounded down.
pub open spec fn weight_of(w: int, count: int, q: int) -> bool {
    &&& w * w * q <= WEIGHT_SCALE * WEIGHT_SCALE * (count * count)
    &&& WEIGHT_SCALE * WEIGHT_SCALE * (count * count) < (w + 1) * (w + 1) * q
}

/// `v` is the normalized term-frequency vector of the counts `c`.
pub open spec fn normalized(v: Seq<(u32, u32)>, c: Seq<(u32, u32)>) -> bool {
    &&& v.len() == c.len()
    &&& forall|i: int|
        0 <= i < v.len() ==> #[trigger] v[i].0 == c[i].0 && weight_of(
            v[i].1 as int,
            c[i].1 as int,
            sum_sq(c),
        )
}

pub proof fn lemma_occurrences_push(s: Seq<u32>, x: u32, k: u32)
    ensures
        occurrences(s.push(x), k) == occurrences(s, k) + if x == k {
            1nat
        } else {
            0nat
        },
{
    assert(s.push(x).drop_last() =~= s);
}

pub proof fn lemma_total_push(c: Seq<(u32, u32)>, x: (u32, u32))
    ensures
        total(c.push(x)) == total(c) + x.1,
    decreases c.len(),
{
    if c.len() > 0 {
        assert(c.push(x).drop_first() =~= c.drop_first().push(x));
        lemma_total_push(c.drop_first(), x);
    } else {
        assert(c.push(x).drop_first() =~= c);
    }
}

pub proof fn lemma_sum_sq_push(c: Seq<(u32, u32)>, x: (u32, u32))
    ensures
        sum_sq(c.push(x)) == sum_sq(c) + x.1 * x.1,
    decreases c.len(),
{
    if c.len() > 0 {
        assert(c.push(x).drop_first() =~= c.drop_first().push(x));
        lemma_sum_sq_push(c.drop_first(), x);
    } else {
        assert(c.push(x).drop_first() =~= c);
    }
}

pub proof fn lemma_total_insert(c: Seq<(u32, u32)>, p: int, x: (u32, u32))
    requires
        0 <= p <= c.len(),
    ensures
        total(c.insert(p, x)) == total(c) + x.1,
    decreases c.len(),
{
    if p == 0 {
        assert(c.insert(p, x).drop_first() =~= c);
    } else {
        assert(c.insert(p, x).drop_first() =~= c.drop_first().insert(p - 1, x));
        lemma_total_insert(c.drop_first(), p - 1, x);
    }
}

pub proof fn lemma_total_update(c: Seq<(u32, u32)>, p: int, x: (u32, u32))
    requires
        0 <= p < c.len(),
    ensures
        total(c.update(p, x)) == total(c) - c[p].1 + x.1,
    decreases c.len(),
{
    if p > 0 {
        assert(c.update(p, x).drop_first() =~= c.drop_first().update(p - 1, x));
        lemma_total_update(c.drop_first(), p - 1, x);
    } else {
        assert(c.update(p, x).drop_first() =~= c.drop_first());
    }
}

/// Counts each term index: the rows ascend by index and give the number of
/// occurrences of each index that occurs.
pub fn count_words(words: &Vec<u32>) -> (r: Vec<(u32, u32)>)
    requires
        words.len() <= u32::MAX,
    ensures
        counts_of(r@, words@),
        total(r@) == words.len(),
{
    let mut counter: Vec<(u32, u32)> = Vec::new();
    let mut i: usize = 0;
    while i < words.len()
        invariant
            words.len() <= u32::MAX,
            i <= words.len(),
            counts_of(counter@, words@.take(i as int)),
            total(counter@) == i,
        decreases words.len() - i,
    {
        let w = words[i];
        let ghost before = counter@;
        let ghost prefix = words@.take(i as int);
        let ghost next = words@.take(i as int + 1);
        assert(next =~= prefix.push(w));
        let mut p: usize = 0;
        while p < counter.len() && counter[p].0 < w
            invariant
                p <= counter.len(),
                forall|j: int| 0 <= j < p ==> #[trigger] counter@[j].0 < w,
            decreases counter.len() - p,
        {
            p = p + 1;
        }
        if p < counter.len() && counter[p].0 == w {
            let c = counter[p].1;
            proof {
                lemma_occurrences_push(prefix, w, w);
                lemma_total_update(before, p as int, (w, (c + 1) as u32));
                assert(c <= total(before)) by {
                    lemma_count_le_total(before, p as int);
                }
            }
            counter.set(p, (w, c + 1));
            proof {
                assert forall|k: u32| #[trigger] occurrences(next, k) > 0 implies exists|j: int|
                    0 <= j < counter@.len() && counter@[j].0 == k by {
                    lemma_occurrences_push(prefix, w, k);
                    if k != w {
                        let j = choose|j: int| 0 <= j < before.len() && before[j].0 == k;
                        assert(counter@[j].0 == k);
                    } else {
                        assert(counter@[p as int].0 == k);
                    }
                }
                assert forall|j: int| 0 <= j < counter@.len() implies #[trigger] counter@[j].1
                    == occurrences(next, counter@[j].0) && counter@[j].1 > 0 by {
                    lemma_occurrences_push(prefix, w, counter@[j].0);
                }
            }
        } else {
            proof {
                lemma_total_insert(before, p as int, (w, 1));
                lemma_occurrences_push(prefix, w, w);
                assert(occurrences(prefix, w) == 0) by {
                    if occurrences(prefix, w) > 0 {
                        let j = choose|j: int| 0 <= j < before.len() && before[j].0 == w;
                        if j < p {
                        } else {
                            assert(before[p as int].0 > w);
                            assert(before[p as int].0 <= before[j].0);
                        }
                    }
                }
            }
            counter.insert(p, (w, 1));
            proof {
                let after = counter@;
                assert forall|a: int, b: int| 0 <= a < b < after.len() implies after[a].0
                    < after[b].0 by {
                    if b < p {
                    } else if b == p {
                    } else if a < p {
                        assert(after[b] == before[b - 1]);
                        if (p as int) < before.len() {
                            assert(before[p as int].0 <= before[b - 1].0);
                        }
                    } else if a == p {
                        assert(after[b] == before[b - 1]);
                        assert(before[p as int].0 <= before[b - 1].0);
                        assert(before[p as int].0 >= w);
                    } else {
                        assert(after[a] == before[a - 1]);
                        assert(after[b] == before[b - 1]);
                    }
                }
                assert forall|k: u32| #[trigger] occurrences(next, k) > 0 implies exists|j: int|
                    0 <= j < after.len() && after[j].0 == k by {
                    lemma_occurrences_push(prefix, w, k);
                    if k != w {
                        let j = choose|j: int| 0 <= j < before.len() && before[j].0 == k;
                        if j < p {
                            assert(after[j].0 == k);
                        } else {
                            assert(after[j + 1].0 == k);
                        }
                    } else {
                        assert(after[p as int].0 == k);
                    }
                }
                assert forall|j: int| 0 <= j < after.len() implies #[trigger] after[j].1
                    == occurrences(next, after[j].0) && after[j].1 > 0 by {
                    lemma_occurrences_push(prefix, w, after[j].0);
                    if j < p {
                    } else if j > p {
                        assert(after[j] == before[j - 1]);
                    }
                }
            }
        }
        i = i + 1;
    }
    assert(words@.take(words.len() as int) =~= words@);
    counter
}

pub proof fn lemma_count_le_total(c: Seq<(u32, u32)>, p: int)
    requires
        0 <= p < c.len(),
    ensures
        c[p].1 <= total(c),
    decreases c.len(),
{
    lemma_total_nonneg(c.drop_first());
    if p > 0 {
        lemma_count_le_total(c.drop_first(), p - 1);
    }
}

pub proof fn lemma_total_nonneg(c: Seq<(u32, u32)>)
    ensures
        total(c) >= 0,
    decreases c.len(),
{
    if c.len() > 0 {
        lemma_total_nonneg(c.drop_first());
    }
}

pub proof fn lemma_total_split(c: Seq<(u32, u32)>, i: int)
    requires
        0 <= i <= c.len(),
    ensures
        total(c.take(i)) + total(c.skip(i)) == total(c),
    decreases i,
{
    if i == 0 {
        assert(c.take(0) =~= Seq::<(u32, u32)>::empty());
        assert(c.skip(0) =~= c);
    } else {
        assert(c.take(i).drop_first() =~= c.drop_first().take(i - 1));
        assert(c.skip(i) =~= c.drop_first().skip(i - 1));
        lemma_total_split(c.drop_first(), i - 1);
    }
}

pub proof fn lemma_sq_le_sum_sq(c: Seq<(u32, u32)>, p: int)
    requires
        0 <= p < c.len(),
    ensures
        c[p].1 * c[p].1 <= sum_sq(c),
    decreases c.len(),
{
    crate::vector::lemma_sum_sq_nonneg(c.drop_first());
    assert(c[0].1 * c[0].1 >= 0) by (nonlinear_arith);
    if p > 0 {
        lemma_sq_le_sum_sq(c.drop_first(), p - 1);
    }
}

/// Pointwise bounds on the weights add up over the whole vector.
pub proof fn lemma_weights_bound(v: Seq<(u32, u32)>, c: Seq<(u32, u32)>, q: int)
    requires
        v.len() == c.len(),
        q >= 0,
        forall|i: int|
            0 <= i < v.len() ==> #[trigger] (v[i].1 * v[i].1 * q) <= WEIGHT_SCALE
                * WEIGHT_SCALE * (c[i].1 * c[i].1),
    ensures
        sum_sq(v) * q <= WEIGHT_SCALE * WEIGHT_SCALE * sum_sq(c),
    decreases v.len(),
{
    if v.len() > 0 {
        let v1 = v.drop_first();
        let c1 = c.drop_first();
        assert forall|i: int| 0 <= i < v1.len() implies #[trigger] (v1[i].1 * v1[i].1 * q)
            <= WEIGHT_SCALE * WEIGHT_SCALE * (c1[i].1 * c1[i].1) by {
            assert(v1[i] == v[i + 1]);
            assert(c1[i] == c[i + 1]);
        }
        lemma_weights_bound(v1, c1, q);
        let a = v[0].1 * v[0].1;
        let b = c[0].1 * c[0].1;
        let sv = sum_sq(v1);
        let sc = sum_sq(c1);
        let k = WEIGHT_SCALE * WEIGHT_SCALE;
        assert(v[0].1 * v[0].1 * q == a * q);
        assert((a + sv) * q <= k * (b + sc)) by (nonlinear_arith)
            requires
                a * q <= k * b,
                sv * q <= k * sc,
        ;
    }
}

/// The largest weight `w` with `w * w * q <= WEIGHT_SCALE^2 * c^2`, by
/// bisection.
fn weight(c: u32, q: u128) -> (w: u32)
    requires
        0 < c,
        (c as int) * (c as int) <= q,
        q <= 0x1_0000_0000_0000_0000,
    ensures
        weight_of(w as int, c as int, q as int),
        w <= WEIGHT_SCALE,
{
    let target: u128 = (WEIGHT_SCALE as u128 * WEIGHT_SCALE as u128) * (c as u128 * c as u128);
    let mut lo: u64 = 0;
    let mut hi: u64 = WEIGHT_SCALE + 1;
    proof {
        let s = WEIGHT_SCALE as int;
        let cc = c as int;
        let qq = q as int;
        assert(s * s * (cc * cc) < (s + 1) * (s + 1) * qq) by (nonlinear_arith)
            requires
                cc * cc <= qq,
                cc > 0,
                s > 0,
        ;
        assert(0 * 0 * qq == 0);
    }
    while hi - lo > 1
        invariant
            lo < hi <= WEIGHT_SCALE + 1,
            q <= 0x1_0000_0000_0000_0000,
            target == WEIGHT_SCALE * WEIGHT_SCALE * (c * c),
            lo * lo * q <= target,
            target < hi * hi * q,
        decreases hi - lo,
    {
        let mid: u64 = lo + (hi - lo) / 2;
        assert(mid * mid <= 0x1_0000_0000) by (nonlinear_arith)
            requires
                mid <= 0x1_0000,
        ;
        assert(mid * mid * q <= 0x1_0000_0000 * 0x1_0000_0000_0000_0000) by (nonlinear_arith)
            requires
                mid <= 0x1_0000,
                q <= 0x1_0000_0000_0000_0000,
        ;
        if (mid as u128 * mid as u128) * q <= target {
            lo = mid;
        } else {
            hi = mid;
        }
    }
    assert(hi == lo + 1);
    lo as u32
}

/// The normalized term-frequency vector of the counts: each count divided by
/// the Euclidean norm of all counts, in fixed point and rounded down.
pub fn produce_vector(counter: &Vec<(u32, u32)>) -> (r: Vector)
    requires
        ascending(counter@),
        forall|i: int| 0 <= i < counter.len() ==> #[trigger] counter@[i].1 > 0,
        total(counter@) <= u32::MAX,
    ensures
        normalized(r@, counter@),
        valid_vector(r@),
{
    let mut q: u128 = 0;
    let mut t: u64 = 0;
    let mut i: usize = 0;
    while i < counter.len()
        invariant
            i <= counter.len(),
            total(counter@) <= u32::MAX,
            q == sum_sq(counter@.take(i as int)),
            t == total(counter@.take(i as int)),
            q <= t * t,
        decreases counter.len() - i,
    {
        let c = counter[i].1;
        proof {
            assert(counter@.take(i as int + 1) =~= counter@.take(i as int).push(counter@[i as int]));
            lemma_total_push(counter@.take(i as int), counter@[i as int]);
            lemma_sum_sq_push(counter@.take(i as int), counter@[i as int]);
            lemma_total_split(counter@, i as int + 1);
            lemma_total_nonneg(counter@.skip(i as int + 1));
            let tt = t as int;
            let cc = c as int;
            assert(q + cc * cc <= (tt + cc) * (tt + cc)) by (nonlinear_arith)
                requires
                    q <= tt * tt,
                    tt >= 0,
                    cc >= 0,
            ;
            assert((tt + cc) * (tt + cc) <= 0xffff_ffff * 0xffff_ffff) by (nonlinear_arith)
                requires
                    0 <= tt + cc <= 0xffff_ffff,
            ;
        }
        q = q + c as u128 * c as u128;
        t = t + c as u64;
        i = i + 1;
    }
    assert(counter@.take(counter.len() as int) =~= counter@);
    assert(q <= 0xffff_ffff * 0xffff_ffff) by (nonlinear_arith)
        requires
            q <= t * t,
            t <= 0xffff_ffff,
    ;
    let mut v: Vec<(u32, u32)> = Vec::new();
    let mut j: usize = 0;
    while j < counter.len()
        invariant
            j <= counter.len(),
            q == sum_sq(counter@),
            q <= 0xffff_ffff * 0xffff_ffff,
            forall|k: int| 0 <= k < counter.len() ==> #[trigger] counter@[k].1 > 0,
            v@.len() == j,
            forall|k: int|
                0 <= k < j ==> #[trigger] v@[k].0 == counter@[k].0 && weight_of(
                    v@[k].1 as int,
                    counter@[k].1 as int,
                    q as int,
                ),
        decreases counter.len() - j,
    {
        let (k, c) = counter[j];
        proof {
            lemma_sq_le_sum_sq(counter@, j as int);
        }
        let w = weight(c, q);
        v.push((k, w));
        j = j + 1;
    }
    proof {
        assert forall|i: int| 0 <= i < v@.len() implies #[trigger] (v@[i].1 * v@[i].1 * q)
            <= WEIGHT_SCALE * WEIGHT_SCALE * (counter@[i].1 * counter@[i].1) by {
            assert(v@[i].0 == counter@[i].0);
            assert(weight_of(v@[i].1 as int, counter@[i].1 as int, q as int));
        }
        lemma_weights_bound(v@, counter@, q as int);
        crate::vector::lemma_sum_sq_nonneg(v@);
        if counter.len() > 0 {
            lemma_sq_le_sum_sq(counter@, 0);
            let c0 = counter@[0].1 as int;
            assert(c0 * c0 > 0) by (nonlinear_arith)
                requires
                    c0 > 0,
            ;
            let sv = sum_sq(v@);
            let qq = q as int;
            assert(sv <= WEIGHT_SCALE * WEIGHT_SCALE) by (nonlinear_arith)
                requires
                    sv * qq <= WEIGHT_SCALE * WEIGHT_SCALE * qq,
                    qq > 0,
            ;
        } else {
            assert(v@.len() == 0);
        }
        assert(ascending(v@)) by {
            assert forall|a: int, b: int| 0 <= a < b < v@.len() implies v@[a].0 < v@[b].0 by {
                assert(v@[a].0 == counter@[a].0);
                assert(v@[b].0 == counter@[b].0);
            }
        }
    }
    Vector(v)
}

} // verus!
