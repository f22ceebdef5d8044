//! The selection vector and its set algebra.

use vstd::prelude::*;

use arrow_buffer::BooleanBuffer;

use crate::bits::{
    bits_all_set, bits_all_unset, bits_and, bits_clone, bits_count_set, bits_from_bools,
    bits_or, bits_set_positions, bits_to_bools, bits_value, buffer_bits,
};
use crate::model::{
    all_false, all_true, and_bits, count_true, in_range, lemma_and_associative,
    lemma_and_commutative, lemma_and_identity_absorption, lemma_contains_push,
    lemma_count_true_full, lemma_count_true_zero, lemma_mask_roundtrip, lemma_positions_roundtrip,
    lemma_set_positions_props, lemma_union_intersect_count, mask_of, or_bits, set_positions,
    strictly_increasing, to_ints,
};

verus! {

/// Densities below one tenth of the universe prefer the sparse list.
const SPARSE_BELOW_DENOM: usize = 10;

/// Densities above one half of the universe prefer the dense bitmap.
const DENSE_ABOVE_DENOM: usize = 2;

/// An element-for-element copy of a sparse index list.
fn copy_indices(v: &Vec<usize>) -> (r: Vec<usize>)
    ensures
        r@ == v@,
{
    let mut r: Vec<usize> = Vec::new();
    let mut i: usize = 0;
    while i < v.len()
        invariant
            i <= v.len(),
            r@ == v@.take(i as int),
        decreases v.len() - i,
    {
        r.push(v[i]);
        i = i + 1;
        proof {
            assert(r@ =~= v@.take(i as int));
        }
    }
    proof {
        assert(v@.take(v@.len() as int) =~= v@);
    }
    r
}

/// The boolean mask over `num_total` rows whose set entries are exactly the
/// members of the index list `v`.
fn indices_to_mask(v: &Vec<usize>, num_total: usize) -> (r: Vec<bool>)
    requires
        strictly_increasing(to_ints(v@)),
        in_range(to_ints(v@), num_total as int),
    ensures
        r@ == mask_of(to_ints(v@), num_total as nat),
{
    let ghost tv = to_ints(v@);
    let mut mask: Vec<bool> = vec![false; num_total];
    proof {
        assert(forall|p: int| 0 <= p < num_total ==> !(#[trigger] mask@[p]));
    }
    let mut k: usize = 0;
    while k < v.len()
        invariant
            k <= v.len(),
            tv == to_ints(v@),
            in_range(tv, num_total as int),
            mask@.len() == num_total,
            forall|p: int|
                0 <= p < num_total ==> (#[trigger] mask@[p] <==> tv.take(k as int).contains(p)),
        decreases v.len() - k,
    {
        let idx = v[k];
        proof {
            assert(tv[k as int] == v@[k as int] as int);
        }
        mask[idx] = true;
        k = k + 1;
        proof {
            assert(tv.take(k as int) =~= tv.take(k as int - 1).push(tv[k as int - 1]));
            assert forall|p: int|
                0 <= p < num_total implies (#[trigger] mask@[p] <==> tv.take(k as int).contains(
                p,
            )) by {
                lemma_contains_push(tv.take(k as int - 1), tv[k as int - 1], p);
            }
        }
    }
    proof {
        assert(tv.take(v@.len() as int) =~= tv);
        assert(mask@ =~= mask_of(tv, num_total as nat));
    }
    mask
}

/// The merge-style intersection of two strictly increasing index lists: one
/// linear walk over both, keeping exactly the indices present in both.
fn intersect_sorted(a: &Vec<usize>, b: &Vec<usize>) -> (r: Vec<usize>)
    requires
        strictly_increasing(to_ints(a@)),
        strictly_increasing(to_ints(b@)),
    ensures
        strictly_increasing(to_ints(r@)),
        forall|p: int|
            #[trigger] to_ints(r@).contains(p) <==> to_ints(a@).contains(p) && to_ints(
                b@,
            ).contains(p),
{
    let ghost ta = to_ints(a@);
    let ghost tb = to_ints(b@);
    let mut r: Vec<usize> = Vec::new();
    let mut i: usize = 0;
    let mut j: usize = 0;
    while i < a.len() && j < b.len()
        invariant
            i <= a.len(),
            j <= b.len(),
            ta == to_ints(a@),
            tb == to_ints(b@),
            strictly_increasing(ta),
            strictly_increasing(tb),
            strictly_increasing(to_ints(r@)),
            forall|p: int|
                #[trigger] to_ints(r@).contains(p) <==> ta.take(i as int).contains(p) && tb.take(
                    j as int,
                ).contains(p),
            forall|m: int| 0 <= m < i && j < tb.len() ==> #[trigger] ta[m] < tb[j as int],
            forall|m: int| 0 <= m < j && i < ta.len() ==> #[trigger] tb[m] < ta[i as int],
            forall|m: int|
                0 <= m < r@.len() && i < ta.len() ==> #[trigger] to_ints(r@)[m] < ta[i as int],
            forall|m: int|
                0 <= m < r@.len() && j < tb.len() ==> #[trigger] to_ints(r@)[m] < tb[j as int],
        decreases a.len() + b.len() - i - j,
    {
        let ghost r0 = to_ints(r@);
        let x = a[i];
        let y = b[j];
        proof {
            assert(ta[i as int] == x as int && tb[j as int] == y as int);
        }
        if x < y {
            i = i + 1;
            proof {
                assert(ta.take(i as int) =~= ta.take(i as int - 1).push(x as int));
                assert forall|p: int|
                    #[trigger] to_ints(r@).contains(p) <==> ta.take(i as int).contains(p)
                        && tb.take(j as int).contains(p) by {
                    lemma_contains_push(ta.take(i as int - 1), x as int, p);
                    if tb.take(j as int).contains(x as int) {
                        let m = choose|m: int|
                            0 <= m < tb.take(j as int).len() && tb.take(j as int)[m] == x as int;
                        assert(tb[m] == x as int);
                    }
                }
            }
        } else if y < x {
            j = j + 1;
            proof {
                assert(tb.take(j as int) =~= tb.take(j as int - 1).push(y as int));
                assert forall|p: int|
                    #[trigger] to_ints(r@).contains(p) <==> ta.take(i as int).contains(p)
                        && tb.take(j as int).contains(p) by {
                    lemma_contains_push(tb.take(j as int - 1), y as int, p);
                    if ta.take(i as int).contains(y as int) {
                        let m = choose|m: int|
                            0 <= m < ta.take(i as int).len() && ta.take(i as int)[m] == y as int;
                        assert(ta[m] == y as int);
                    }
                }
            }
        } else {
            r.push(x);
            i = i + 1;
            j = j + 1;
            proof {
                assert(to_ints(r@) =~= r0.push(x as int));
                assert(ta.take(i as int) =~= ta.take(i as int - 1).push(x as int));
                assert(tb.take(j as int) =~= tb.take(j as int - 1).push(x as int));
                assert forall|m: int, k: int|
                    0 <= m < k < to_ints(r@).len() implies to_ints(r@)[m] < to_ints(r@)[k] by {
                    if k < r0.len() {
                        assert(to_ints(r@)[m] == r0[m] && to_ints(r@)[k] == r0[k]);
                    } else {
                        assert(to_ints(r@)[k] == x as int);
                        assert(to_ints(r@)[m] == r0[m]);
                    }
                }
                assert forall|p: int|
                    #[trigger] to_ints(r@).contains(p) <==> ta.take(i as int).contains(p)
                        && tb.take(j as int).contains(p) by {
                    lemma_contains_push(r0, x as int, p);
                    lemma_contains_push(ta.take(i as int - 1), x as int, p);
                    lemma_contains_push(tb.take(j as int - 1), x as int, p);
                }
            }
        }
    }
    proof {
        assert(ta.take(ta.len() as int) =~= ta);
        assert(tb.take(tb.len() as int) =~= tb);
        assert forall|p: int|
            #[trigger] to_ints(r@).contains(p) <==> ta.contains(p) && tb.contains(p) by {
            if i == a.len() {
                if ta.contains(p) && tb.contains(p) && j < tb.len() {
                    let m = choose|m: int| 0 <= m < tb.len() && tb[m] == p;
                    let k = choose|k: int| 0 <= k < ta.len() && ta[k] == p;
                    if m >= j {
                        assert(tb[j as int] <= tb[m]);
                        assert(ta[k] < tb[j as int]);
                        assert(false);
                    }
                    assert(tb.take(j as int)[m] == p);
                }
                if to_ints(r@).contains(p) {
                    if tb.take(j as int).contains(p) {
                        let m = choose|m: int|
                            0 <= m < tb.take(j as int).len() && tb.take(j as int)[m] == p;
                        assert(tb[m] == p);
                    }
                }
            } else {
                if ta.contains(p) && tb.contains(p) && i < ta.len() {
                    let m = choose|m: int| 0 <= m < ta.len() && ta[m] == p;
                    let k = choose|k: int| 0 <= k < tb.len() && tb[k] == p;
                    if m >= i {
                        assert(ta[i as int] <= ta[m]);
                        assert(tb[k] < ta[i as int]);
                        assert(false);
                    }
                    assert(ta.take(i as int)[m] == p);
                }
                if to_ints(r@).contains(p) {
                    if ta.take(i as int).contains(p) {
                        let m = choose|m: int|
                            0 <= m < ta.take(i as int).len() && ta.take(i as int)[m] == p;
                        assert(ta[m] == p);
                    }
                }
            }
        }
    }
    r
}

/// The merge-style union of two strictly increasing index lists: one linear
/// walk over both, keeping every index present in either, without
/// duplicates.
fn union_sorted(a: &Vec<usize>, b: &Vec<usize>) -> (r: Vec<usize>)
    requires
        strictly_increasing(to_ints(a@)),
        strictly_increasing(to_ints(b@)),
    ensures
        strictly_increasing(to_ints(r@)),
        forall|p: int|
            #[trigger] to_ints(r@).contains(p) <==> to_ints(a@).contains(p) || to_ints(
                b@,
            ).contains(p),
{
    let ghost ta = to_ints(a@);
    let ghost tb = to_ints(b@);
    let mut r: Vec<usize> = Vec::new();
    let mut i: usize = 0;
    let mut j: usize = 0;
    while i < a.len() && j < b.len()
        invariant
            i <= a.len(),
            j <= b.len(),
            ta == to_ints(a@),
            tb == to_ints(b@),
            strictly_increasing(ta),
            strictly_increasing(tb),
            strictly_increasing(to_ints(r@)),
            forall|p: int|
                #[trigger] to_ints(r@).contains(p) <==> ta.take(i as int).contains(p) || tb.take(
                    j as int,
                ).contains(p),
            forall|m: int|
                0 <= m < r@.len() && i < ta.len() ==> #[trigger] to_ints(r@)[m] < ta[i as int],
            forall|m: int|
                0 <= m < r@.len() && j < tb.len() ==> #[trigger] to_ints(r@)[m] < tb[j as int],
        decreases a.len() + b.len() - i - j,
    {
        let ghost r0 = to_ints(r@);
        let x = a[i];
        let y = b[j];
        proof {
            assert(ta[i as int] == x as int && tb[j as int] == y as int);
        }
        if x < y {
            r.push(x);
            i = i + 1;
            proof {
                assert(to_ints(r@) =~= r0.push(x as int));
                union_step_proof(r0, x as int, ta, tb, i as int, j as int, to_ints(r@), true);
            }
        } else if y < x {
            r.push(y);
            j = j + 1;
            proof {
                assert(to_ints(r@) =~= r0.push(y as int));
                union_step_proof(r0, y as int, ta, tb, i as int, j as int, to_ints(r@), false);
            }
        } else {
            r.push(x);
            i = i + 1;
            j = j + 1;
            proof {
                assert(to_ints(r@) =~= r0.push(x as int));
                assert(ta.take(i as int) =~= ta.take(i as int - 1).push(x as int));
                assert(tb.take(j as int) =~= tb.take(j as int - 1).push(x as int));
                lemma_sorted_push(r0, x as int);
                assert forall|p: int|
                    #[trigger] to_ints(r@).contains(p) <==> ta.take(i as int).contains(p)
                        || tb.take(j as int).contains(p) by {
                    lemma_contains_push(r0, x as int, p);
                    lemma_contains_push(ta.take(i as int - 1), x as int, p);
                    lemma_contains_push(tb.take(j as int - 1), x as int, p);
                }
            }
        }
    }
    while i < a.len()
        invariant
            i <= a.len(),
            j <= b.len(),
            i >= a.len() || j >= b.len(),
            ta == to_ints(a@),
            tb == to_ints(b@),
            strictly_increasing(ta),
            strictly_increasing(tb),
            strictly_increasing(to_ints(r@)),
            forall|p: int|
                #[trigger] to_ints(r@).contains(p) <==> ta.take(i as int).contains(p) || tb.take(
                    j as int,
                ).contains(p),
            forall|m: int|
                0 <= m < r@.len() && i < ta.len() ==> #[trigger] to_ints(r@)[m] < ta[i as int],
            forall|m: int|
                0 <= m < r@.len() && j < tb.len() ==> #[trigger] to_ints(r@)[m] < tb[j as int],
        decreases a.len() - i,
    {
        let ghost r0 = to_ints(r@);
        let x = a[i];
        proof {
            assert(ta[i as int] == x as int);
        }
        r.push(x);
        i = i + 1;
        proof {
            assert(to_ints(r@) =~= r0.push(x as int));
            assert(ta.take(i as int) =~= ta.take(i as int - 1).push(x as int));
            lemma_sorted_push(r0, x as int);
            assert forall|p: int|
                #[trigger] to_ints(r@).contains(p) <==> ta.take(i as int).contains(p) || tb.take(
                    j as int,
                ).contains(p) by {
                lemma_contains_push(r0, x as int, p);
                lemma_contains_push(ta.take(i as int - 1), x as int, p);
            }
        }
    }
    while j < b.len()
        invariant
            i <= a.len(),
            j <= b.len(),
            ta == to_ints(a@),
            tb == to_ints(b@),
            strictly_increasing(ta),
            strictly_increasing(tb),
            strictly_increasing(to_ints(r@)),
            forall|p: int|
                #[trigger] to_ints(r@).contains(p) <==> ta.take(i as int).contains(p) || tb.take(
                    j as int,
                ).contains(p),
            forall|m: int|
                0 <= m < r@.len() && j < tb.len() ==> #[trigger] to_ints(r@)[m] < tb[j as int],
        decreases b.len() - j,
    {
        let ghost r0 = to_ints(r@);
        let y = b[j];
        proof {
            assert(tb[j as int] == y as int);
        }
        r.push(y);
        j = j + 1;
        proof {
            assert(to_ints(r@) =~= r0.push(y as int));
            assert(tb.take(j as int) =~= tb.take(j as int - 1).push(y as int));
            lemma_sorted_push(r0, y as int);
            assert forall|p: int|
                #[trigger] to_ints(r@).contains(p) <==> ta.take(i as int).contains(p) || tb.take(
                    j as int,
                ).contains(p) by {
                lemma_contains_push(r0, y as int, p);
                lemma_contains_push(tb.take(j as int - 1), y as int, p);
            }
        }
    }
    proof {
        assert(ta.take(ta.len() as int) =~= ta);
        assert(tb.take(tb.len() as int) =~= tb);
    }
    r
}

/// A sequence whose members all lie in `[0, n)` is in range.
proof fn lemma_in_range_from_contains(s: Seq<int>, n: int)
    requires
        forall|p: int| #[trigger] s.contains(p) ==> 0 <= p < n,
    ensures
        in_range(s, n),
{
    assert forall|m: int| 0 <= m < s.len() implies 0 <= #[trigger] s[m] < n by {
        assert(s.contains(s[m]));
    }
}

/// A member of an in-range sequence lies in `[0, n)`.
proof fn lemma_contains_in_range(s: Seq<int>, n: int, p: int)
    requires
        in_range(s, n),
        s.contains(p),
    ensures
        0 <= p < n,
{
    let k = choose|k: int| 0 <= k < s.len() && s[k] == p;
    assert(s[k] == p);
}

/// Appending an element above a strictly increasing sequence keeps it
/// strictly increasing.
proof fn lemma_sorted_push(s: Seq<int>, x: int)
    requires
        strictly_increasing(s),
        forall|m: int| 0 <= m < s.len() ==> #[trigger] s[m] < x,
    ensures
        strictly_increasing(s.push(x)),
{
    assert forall|m: int, k: int| 0 <= m < k < s.push(x).len() implies s.push(x)[m] < s.push(
        x,
    )[k] by {
        if k < s.len() {
            assert(s.push(x)[m] == s[m] && s.push(x)[k] == s[k]);
        } else {
            assert(s.push(x)[k] == x);
            assert(s.push(x)[m] == s[m]);
        }
    }
}

/// One step of the union merge that consumes one operand: the result so far,
/// extended by that operand's next index, matches the union of the processed
/// prefixes.
proof fn union_step_proof(
    r0: Seq<int>,
    x: int,
    ta: Seq<int>,
    tb: Seq<int>,
    i: int,
    j: int,
    r1: Seq<int>,
    from_a: bool,
)
    requires
        strictly_increasing(r0),
        forall|m: int| 0 <= m < r0.len() ==> #[trigger] r0[m] < x,
        r1 == r0.push(x),
        from_a ==> 0 < i <= ta.len() && ta[i - 1] == x && (forall|p: int|
            #[trigger] r0.contains(p) <==> ta.take(i - 1).contains(p) || tb.take(j).contains(p)),
        !from_a ==> 0 < j <= tb.len() && tb[j - 1] == x && (forall|p: int|
            #[trigger] r0.contains(p) <==> ta.take(i).contains(p) || tb.take(j - 1).contains(p)),
    ensures
        strictly_increasing(r1),
        forall|p: int|
            #[trigger] r1.contains(p) <==> ta.take(i).contains(p) || tb.take(j).contains(p),
{
    lemma_sorted_push(r0, x);
    if from_a {
        assert(ta.take(i) =~= ta.take(i - 1).push(x));
        assert forall|p: int|
            #[trigger] r1.contains(p) <==> ta.take(i).contains(p) || tb.take(j).contains(p) by {
            lemma_contains_push(r0, x, p);
            lemma_contains_push(ta.take(i - 1), x, p);
        }
    } else {
        assert(tb.take(j) =~= tb.take(j - 1).push(x));
        assert forall|p: int|
            #[trigger] r1.contains(p) <==> ta.take(i).contains(p) || tb.take(j).contains(p) by {
            lemma_contains_push(r0, x, p);
            lemma_contains_push(tb.take(j - 1), x, p);
        }
    }
}

/// One pass over a sparse index list, keeping the indices whose bit is set
/// in a dense bitmap: the bitmap is probed per index, never scanned.
fn filter_by_bits(v: &Vec<usize>, bits: &BooleanBuffer) -> (r: Vec<usize>)
    requires
        strictly_increasing(to_ints(v@)),
        in_range(to_ints(v@), buffer_bits(*bits).len() as int),
    ensures
        strictly_increasing(to_ints(r@)),
        forall|p: int|
            #[trigger] to_ints(r@).contains(p) <==> to_ints(v@).contains(p) && 0 <= p
                < buffer_bits(*bits).len() && buffer_bits(*bits)[p],
{
    let ghost tv = to_ints(v@);
    let ghost bb = buffer_bits(*bits);
    let mut r: Vec<usize> = Vec::new();
    let mut k: usize = 0;
    while k < v.len()
        invariant
            k <= v.len(),
            tv == to_ints(v@),
            bb == buffer_bits(*bits),
            strictly_increasing(tv),
            in_range(tv, bb.len() as int),
            strictly_increasing(to_ints(r@)),
            forall|p: int|
                #[trigger] to_ints(r@).contains(p) <==> tv.take(k as int).contains(p) && 0 <= p
                    < bb.len() && bb[p],
            forall|m: int|
                0 <= m < r@.len() && k < tv.len() ==> #[trigger] to_ints(r@)[m] < tv[k as int],
        decreases v.len() - k,
    {
        let ghost r0 = to_ints(r@);
        let x = v[k];
        proof {
            assert(tv[k as int] == x as int);
        }
        if bits_value(bits, x) {
            r.push(x);
            k = k + 1;
            proof {
                assert(to_ints(r@) =~= r0.push(x as int));
                assert(tv.take(k as int) =~= tv.take(k as int - 1).push(x as int));
                lemma_sorted_push(r0, x as int);
                assert forall|p: int|
                    #[trigger] to_ints(r@).contains(p) <==> tv.take(k as int).contains(p) && 0 <= p
                        < bb.len() && bb[p] by {
                    lemma_contains_push(r0, x as int, p);
                    lemma_contains_push(tv.take(k as int - 1), x as int, p);
                }
            }
        } else {
            k = k + 1;
            proof {
                assert(tv.take(k as int) =~= tv.take(k as int - 1).push(x as int));
                assert forall|p: int|
                    #[trigger] to_ints(r@).contains(p) <==> tv.take(k as int).contains(p) && 0 <= p
                        < bb.len() && bb[p] by {
                    lemma_contains_push(tv.take(k as int - 1), x as int, p);
                }
            }
        }
    }
    proof {
        assert(tv.take(tv.len() as int) =~= tv);
    }
    r
}

/// A copy of a dense bitmap as a boolean mask, with the bits of an index
/// list additionally set.
fn set_bits_from(bits: &BooleanBuffer, v: &Vec<usize>) -> (r: Vec<bool>)
    requires
        in_range(to_ints(v@), buffer_bits(*bits).len() as int),
    ensures
        r@.len() == buffer_bits(*bits).len(),
        forall|p: int|
            0 <= p < r@.len() ==> (#[trigger] r@[p] <==> buffer_bits(*bits)[p] || to_ints(
                v@,
            ).contains(p)),
{
    let ghost tv = to_ints(v@);
    let ghost bb = buffer_bits(*bits);
    let mut mask = bits_to_bools(bits);
    let mut k: usize = 0;
    while k < v.len()
        invariant
            k <= v.len(),
            tv == to_ints(v@),
            in_range(tv, bb.len() as int),
            mask@.len() == bb.len(),
            forall|p: int|
                0 <= p < mask@.len() ==> (#[trigger] mask@[p] <==> bb[p] || tv.take(
                    k as int,
                ).contains(p)),
        decreases v.len() - k,
    {
        let idx = v[k];
        proof {
            assert(tv[k as int] == v@[k as int] as int);
        }
        mask[idx] = true;
        k = k + 1;
        proof {
            assert(tv.take(k as int) =~= tv.take(k as int - 1).push(tv[k as int - 1]));
            assert forall|p: int|
                0 <= p < mask@.len() implies (#[trigger] mask@[p] <==> bb[p] || tv.take(
                k as int,
            ).contains(p)) by {
                lemma_contains_push(tv.take(k as int - 1), tv[k as int - 1], p);
            }
        }
    }
    proof {
        assert(tv.take(v@.len() as int) =~= tv);
    }
    mask
}

/// Why a set-algebra operation failed.
#[derive(Clone, Copy, Debug, PartialEq, Eq, Structural)]
pub enum SelectionError {
    /// The operands describe universes of different row counts.
    DimensionMismatch,
    /// An allocation failed while constructing or converting a selection.
    OutOfMemory,
}

/// The representation a selection vector currently holds: a dense bitmap
/// with one bit per row of the universe, or the sparse, strictly increasing
/// list of the selected row indices.
enum SelectionVectorInner {
    Bits(BooleanBuffer),
    Indices(Vec<usize>),
}

/// Which rows of a columnar batch are currently active.
///
/// A value is immutable once constructed: narrowing produces a new instance.
/// The cached totals and the two extreme-case flags always agree with the
/// representation; `wf` states that invariant and every constructor
/// establishes it.
pub struct SelectionVector {
    inner: SelectionVectorInner,
    /// The total number of rows that are selected.
    num_rows: usize,
    /// The row count of the universe the selection describes.
    num_total: usize,
    /// Whether all rows are selected.
    all_selected: bool,
    /// Whether all rows are not selected.
    all_not_selected: bool,
}

impl View for SelectionVector {
    type V = Seq<bool>;

    /// The selection as one bit per row of the universe, whatever the
    /// representation.
    closed spec fn view(&self) -> Seq<bool> {
        match self.inner {
            SelectionVectorInner::Bits(b) => buffer_bits(b),
            SelectionVectorInner::Indices(v) => mask_of(to_ints(v@), self.num_total as nat),
        }
    }
}

impl SelectionVector {
    /// The representation is over the stated universe, a sparse list is
    /// strictly increasing and in range, and the cached totals and flags
    /// agree with the representation.
    pub closed spec fn wf(self) -> bool {
        &&& self@.len() == self.num_total
        &&& match self.inner {
            SelectionVectorInner::Bits(_) => true,
            SelectionVectorInner::Indices(v) => strictly_increasing(to_ints(v@)) && in_range(
                to_ints(v@),
                self.num_total as int,
            ),
        }
        &&& self.num_rows == count_true(self@)
        &&& self.all_selected == (self.num_rows == self.num_total)
        &&& self.all_not_selected == (self.num_rows == 0)
    }

    /// The selection over a universe of `num_total` rows with every row
    /// active: how a fresh batch starts out.
    pub fn select_all(num_total: usize) -> (r: SelectionVector)
        ensures
            r.wf(),
            r@ == all_true(num_total as nat),
    {
        let bits = bits_all_set(num_total);
        proof {
            lemma_count_true_full(buffer_bits(bits));
        }
        SelectionVector {
            inner: SelectionVectorInner::Bits(bits),
            num_rows: num_total,
            num_total,
            all_selected: true,
            all_not_selected: num_total == 0,
        }
    }

    /// The selection over a universe of `num_total` rows with no row active.
    pub fn select_none(num_total: usize) -> (r: SelectionVector)
        ensures
            r.wf(),
            r@ == all_false(num_total as nat),
    {
        let bits = bits_all_unset(num_total);
        proof {
            lemma_count_true_zero(buffer_bits(bits));
        }
        SelectionVector {
            inner: SelectionVectorInner::Bits(bits),
            num_rows: 0,
            num_total,
            all_selected: num_total == 0,
            all_not_selected: true,
        }
    }

    /// The selection given by a boolean mask, one entry per row: how the
    /// result of a boolean predicate enters. Materialized as a dense bitmap.
    pub fn from_bools(bools: &Vec<bool>) -> (r: SelectionVector)
        ensures
            r.wf(),
            r@ == bools@,
    {
        let bits = bits_from_bools(bools);
        let num_rows = bits_count_set(&bits);
        let num_total = bools.len();
        SelectionVector {
            inner: SelectionVectorInner::Bits(bits),
            num_rows,
            num_total,
            all_selected: num_rows == num_total,
            all_not_selected: num_rows == 0,
        }
    }

    /// The selection given by an explicit list of selected row indices, as a
    /// top-k or join operator produces: strictly increasing and within the
    /// universe. Materialized as a sparse index list; converted to a dense
    /// bitmap by the density policy where the list covers most of the
    /// universe.
    pub fn from_indices(indices: Vec<usize>, num_total: usize) -> (r: SelectionVector)
        requires
            strictly_increasing(to_ints(indices@)),
            in_range(to_ints(indices@), num_total as int),
        ensures
            r.wf(),
            r@ == mask_of(to_ints(indices@), num_total as nat),
    {
        Self::from_sparse_parts(indices, num_total)
    }

    /// Wraps a sparse index list, converting to a dense bitmap where the
    /// density policy prefers it (above one half of the universe selected).
    fn from_sparse_parts(indices: Vec<usize>, num_total: usize) -> (r: SelectionVector)
        requires
            strictly_increasing(to_ints(indices@)),
            in_range(to_ints(indices@), num_total as int),
        ensures
            r.wf(),
            r@ == mask_of(to_ints(indices@), num_total as nat),
    {
        proof {
            lemma_positions_roundtrip(to_ints(indices@), num_total as nat);
        }
        let num_rows = indices.len();
        if num_rows > num_total / DENSE_ABOVE_DENOM {
            let mask = indices_to_mask(&indices, num_total);
            let bits = bits_from_bools(&mask);
            SelectionVector {
                inner: SelectionVectorInner::Bits(bits),
                num_rows,
                num_total,
                all_selected: num_rows == num_total,
                all_not_selected: num_rows == 0,
            }
        } else {
            SelectionVector {
                inner: SelectionVectorInner::Indices(indices),
                num_rows,
                num_total,
                all_selected: num_rows == num_total,
                all_not_selected: num_rows == 0,
            }
        }
    }

    /// Wraps a dense bitmap of `num_total` bits with `num_rows` of them set,
    /// converting to a sparse index list where the density policy prefers it
    /// (below one tenth of the universe selected).
    fn from_dense_parts(bits: BooleanBuffer, num_rows: usize, num_total: usize) -> (r:
        SelectionVector)
        requires
            buffer_bits(bits).len() == num_total,
            num_rows == count_true(buffer_bits(bits)),
        ensures
            r.wf(),
            r@ == buffer_bits(bits),
    {
        if num_rows < num_total / SPARSE_BELOW_DENOM {
            let indices = bits_set_positions(&bits);
            proof {
                lemma_set_positions_props(buffer_bits(bits));
                assert(to_ints(indices@) =~= set_positions(buffer_bits(bits)));
                lemma_mask_roundtrip(buffer_bits(bits));
            }
            SelectionVector {
                inner: SelectionVectorInner::Indices(indices),
                num_rows,
                num_total,
                all_selected: num_rows == num_total,
                all_not_selected: num_rows == 0,
            }
        } else {
            SelectionVector {
                inner: SelectionVectorInner::Bits(bits),
                num_rows,
                num_total,
                all_selected: num_rows == num_total,
                all_not_selected: num_rows == 0,
            }
        }
    }

    /// The ordered list of the selected row indices, in strictly increasing
    /// order whatever the representation: for a dense bitmap the chunked
    /// set-bit scan of the storage collaborator, for a sparse list a
    /// pass-through copy.
    pub fn iter(&self) -> (r: Vec<usize>)
        requires
            self.wf(),
        ensures
            to_ints(r@) == set_positions(self@),
            r@.len() == count_true(self@),
    {
        proof {
            lemma_set_positions_props(self@);
        }
        match &self.inner {
            SelectionVectorInner::Bits(b) => {
                let r = bits_set_positions(b);
                proof {
                    assert(to_ints(r@) =~= set_positions(self@));
                }
                r
            },
            SelectionVectorInner::Indices(v) => {
                let r = copy_indices(v);
                proof {
                    lemma_positions_roundtrip(to_ints(v@), self.num_total as nat);
                }
                r
            },
        }
    }

    /// An independent copy describing the same selection.
    pub fn duplicate(&self) -> (r: SelectionVector)
        requires
            self.wf(),
        ensures
            r.wf(),
            r@ == self@,
    {
        let inner = match &self.inner {
            SelectionVectorInner::Bits(b) => SelectionVectorInner::Bits(bits_clone(b)),
            SelectionVectorInner::Indices(v) => SelectionVectorInner::Indices(copy_indices(v)),
        };
        SelectionVector {
            inner,
            num_rows: self.num_rows,
            num_total: self.num_total,
            all_selected: self.all_selected,
            all_not_selected: self.all_not_selected,
        }
    }

    /// The selection of the rows active in both `self` and `other`, over one
    /// universe; pure, with both inputs untouched.
    ///
    /// Operands over different universe sizes fail with
    /// [`SelectionError::DimensionMismatch`], and only those. The extremes
    /// short-circuit without a scan; otherwise the work is chosen by the
    /// representation pair, and the result's representation by the density
    /// policy.
    pub fn intersect(&self, other: &SelectionVector) -> (r: Result<
        SelectionVector,
        SelectionError,
    >)
        requires
            self.wf(),
            other.wf(),
        ensures
            match r {
                Result::Ok(v) => self@.len() == other@.len() && v.wf() && v@ == and_bits(
                    self@,
                    other@,
                ),
                Result::Err(e) => self@.len() != other@.len() && e
                    == SelectionError::DimensionMismatch,
            },
    {
        if self.num_total != other.num_total {
            return Result::Err(SelectionError::DimensionMismatch);
        }
        let n = self.num_total;
        if self.all_not_selected || other.all_not_selected {
            proof {
                lemma_count_true_zero(self@);
                lemma_count_true_zero(other@);
                assert(and_bits(self@, other@) =~= all_false(n as nat));
            }
            return Result::Ok(Self::select_none(n));
        }
        if self.all_selected {
            proof {
                lemma_count_true_full(self@);
                assert(and_bits(self@, other@) =~= other@);
            }
            return Result::Ok(other.duplicate());
        }
        if other.all_selected {
            proof {
                lemma_count_true_full(other@);
                assert(and_bits(self@, other@) =~= self@);
            }
            return Result::Ok(self.duplicate());
        }
        match (&self.inner, &other.inner) {
            (SelectionVectorInner::Bits(x), SelectionVectorInner::Bits(y)) => {
                let bb = bits_and(x, y);
                let cnt = bits_count_set(&bb);
                Result::Ok(Self::from_dense_parts(bb, cnt, n))
            },
            (SelectionVectorInner::Indices(va), SelectionVectorInner::Indices(vb)) => {
                let v = intersect_sorted(va, vb);
                proof {
                    let ghost tv = to_ints(v@);
                    assert forall|p: int| #[trigger] tv.contains(p) implies 0 <= p < n by {
                        lemma_contains_in_range(to_ints(va@), n as int, p);
                    }
                    lemma_in_range_from_contains(tv, n as int);
                    assert(mask_of(tv, n as nat) =~= and_bits(self@, other@));
                }
                Result::Ok(Self::from_sparse_parts(v, n))
            },
            (SelectionVectorInner::Bits(x), SelectionVectorInner::Indices(vb)) => {
                let v = filter_by_bits(vb, x);
                proof {
                    let ghost tv = to_ints(v@);
                    lemma_in_range_from_contains(tv, n as int);
                    assert(mask_of(tv, n as nat) =~= and_bits(self@, other@));
                }
                Result::Ok(Self::from_sparse_parts(v, n))
            },
            (SelectionVectorInner::Indices(va), SelectionVectorInner::Bits(y)) => {
                let v = filter_by_bits(va, y);
                proof {
                    let ghost tv = to_ints(v@);
                    lemma_in_range_from_contains(tv, n as int);
                    assert(mask_of(tv, n as nat) =~= and_bits(self@, other@));
                }
                Result::Ok(Self::from_sparse_parts(v, n))
            },
        }
    }

    /// The selection of the rows active in either `self` or `other`, over
    /// one universe; pure, with both inputs untouched.
    ///
    /// Operands over different universe sizes fail with
    /// [`SelectionError::DimensionMismatch`], and only those. The extremes
    /// short-circuit without a scan; otherwise the work is chosen by the
    /// representation pair, and the result's representation by the density
    /// policy.
    pub fn union(&self, other: &SelectionVector) -> (r: Result<SelectionVector, SelectionError>)
        requires
            self.wf(),
            other.wf(),
        ensures
            match r {
                Result::Ok(v) => self@.len() == other@.len() && v.wf() && v@ == or_bits(
                    self@,
                    other@,
                ),
                Result::Err(e) => self@.len() != other@.len() && e
                    == SelectionError::DimensionMismatch,
            },
    {
        if self.num_total != other.num_total {
            return Result::Err(SelectionError::DimensionMismatch);
        }
        let n = self.num_total;
        if self.all_selected || other.all_selected {
            proof {
                lemma_count_true_full(self@);
                lemma_count_true_full(other@);
                assert(or_bits(self@, other@) =~= all_true(n as nat));
            }
            return Result::Ok(Self::select_all(n));
        }
        if self.all_not_selected {
            proof {
                lemma_count_true_zero(self@);
                assert(or_bits(self@, other@) =~= other@);
            }
            return Result::Ok(other.duplicate());
        }
        if other.all_not_selected {
            proof {
                lemma_count_true_zero(other@);
                assert(or_bits(self@, other@) =~= self@);
            }
            return Result::Ok(self.duplicate());
        }
        match (&self.inner, &other.inner) {
            (SelectionVectorInner::Bits(x), SelectionVectorInner::Bits(y)) => {
                let bb = bits_or(x, y);
                let cnt = bits_count_set(&bb);
                Result::Ok(Self::from_dense_parts(bb, cnt, n))
            },
            (SelectionVectorInner::Indices(va), SelectionVectorInner::Indices(vb)) => {
                let v = union_sorted(va, vb);
                proof {
                    let ghost tv = to_ints(v@);
                    assert forall|p: int| #[trigger] tv.contains(p) implies 0 <= p < n by {
                        if to_ints(va@).contains(p) {
                            lemma_contains_in_range(to_ints(va@), n as int, p);
                        } else {
                            lemma_contains_in_range(to_ints(vb@), n as int, p);
                        }
                    }
                    lemma_in_range_from_contains(tv, n as int);
                    assert(mask_of(tv, n as nat) =~= or_bits(self@, other@));
                }
                Result::Ok(Self::from_sparse_parts(v, n))
            },
            (SelectionVectorInner::Bits(x), SelectionVectorInner::Indices(vb)) => {
                let mask = set_bits_from(x, vb);
                let bits = bits_from_bools(&mask);
                let cnt = bits_count_set(&bits);
                proof {
                    assert(buffer_bits(bits) =~= or_bits(self@, other@));
                }
                Result::Ok(Self::from_dense_parts(bits, cnt, n))
            },
            (SelectionVectorInner::Indices(va), SelectionVectorInner::Bits(y)) => {
                let mask = set_bits_from(y, va);
                let bits = bits_from_bools(&mask);
                let cnt = bits_count_set(&bits);
                proof {
                    assert(buffer_bits(bits) =~= or_bits(self@, other@));
                }
                Result::Ok(Self::from_dense_parts(bits, cnt, n))
            },
        }
    }

    /// The number of rows that are selected.
    pub fn selected_count(&self) -> (r: usize)
        requires
            self.wf(),
        ensures
            r == count_true(self@),
    {
        self.num_rows
    }

    /// The row count of the universe this selection describes.
    pub fn universe_size(&self) -> (r: usize)
        requires
            self.wf(),
        ensures
            r == self@.len(),
    {
        self.num_total
    }

    /// Whether every row of the universe is selected.
    pub fn all_selected(&self) -> (r: bool)
        requires
            self.wf(),
        ensures
            r <==> self@ == all_true(self@.len()),
    {
        proof {
            lemma_count_true_full(self@);
        }
        self.all_selected
    }

    /// Whether no row of the universe is selected.
    pub fn all_not_selected(&self) -> (r: bool)
        requires
            self.wf(),
        ensures
            r <==> self@ == all_false(self@.len()),
    {
        proof {
            lemma_count_true_zero(self@);
        }
        self.all_not_selected
    }
}

/// Law: two well-formed selection vectors over the same logical selection
/// iterate identically, whatever their representations. `iter` returns the
/// list `set_positions` of the view alone, so equal views — a dense bitmap
/// and a sparse list built from one selection — give one ordered sequence,
/// with one count.
pub proof fn lemma_representation_equivalence(a: SelectionVector, b: SelectionVector)
    requires
        a.wf(),
        b.wf(),
        a@ == b@,
    ensures
        set_positions(a@) == set_positions(b@),
        count_true(a@) == count_true(b@),
{
}

/// Law: intersecting with a fully selected vector returns the other
/// operand's selection; intersecting with a fully unselected vector returns
/// the fully unselected selection.
pub proof fn lemma_intersect_identity_absorption(a: SelectionVector, x: SelectionVector)
    requires
        a.wf(),
        x.wf(),
        a@.len() == x@.len(),
    ensures
        a@ == all_true(a@.len()) ==> and_bits(a@, x@) == x@,
        a@ == all_false(a@.len()) ==> and_bits(a@, x@) == all_false(a@.len()),
{
    lemma_and_identity_absorption(x@);
}

/// Law: intersection of selection vectors over one universe is commutative.
pub proof fn lemma_intersect_commutative(a: SelectionVector, b: SelectionVector)
    requires
        a.wf(),
        b.wf(),
        a@.len() == b@.len(),
    ensures
        and_bits(a@, b@) == and_bits(b@, a@),
{
    lemma_and_commutative(a@, b@);
}

/// Law: intersection of selection vectors over one universe is associative.
pub proof fn lemma_intersect_associative(a: SelectionVector, b: SelectionVector, c: SelectionVector)
    requires
        a.wf(),
        b.wf(),
        c.wf(),
        a@.len() == b@.len(),
        b@.len() == c@.len(),
    ensures
        and_bits(and_bits(a@, b@), c@) == and_bits(a@, and_bits(b@, c@)),
{
    lemma_and_associative(a@, b@, c@);
}

/// Law: the selected counts of the union and of the intersection of two
/// selection vectors over one universe add up to the sum of the operands'
/// selected counts.
pub proof fn lemma_union_intersect_duality(a: SelectionVector, b: SelectionVector)
    requires
        a.wf(),
        b.wf(),
        a@.len() == b@.len(),
    ensures
        count_true(or_bits(a@, b@)) + count_true(and_bits(a@, b@)) == count_true(a@) + count_true(
            b@,
        ),
{
    lemma_union_intersect_count(a@, b@);
}

/// Law: converting a selection vector's dense view to its sparse index list
/// and back recovers the view, so the round trip is iteration-equivalent.
/// The sparse-to-dense direction is `lemma_positions_roundtrip`.
pub proof fn lemma_conversion_round_trip(s: SelectionVector)
    requires
        s.wf(),
    ensures
        mask_of(set_positions(s@), s@.len()) == s@,
{
    lemma_mask_roundtrip(s@);
}

} // verus!
