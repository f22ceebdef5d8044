//! Mathematical model of a selection.
//!
//! A selection over a universe of `n` rows is modelled as a `Seq<bool>` of
//! length `n`: entry `i` is `true` iff row `i` is selected. The sparse form is
//! modelled as the strictly increasing sequence of selected positions. The
//! functions here relate the two forms and give the set algebra its meaning.

use vstd::prelude::*;

verus! {

/// Number of selected rows of a selection.
pub open spec fn count_true(s: Seq<bool>) -> nat
    decreases s.len(),
{
    if s.len() == 0 {
        0
    } else {
        count_true(s.drop_last()) + if s.last() {
            1nat
        } else {
            0nat
        }
    }
}

/// Pointwise conjunction: the selection of rows active in both operands.
pub open spec fn and_bits(a: Seq<bool>, b: Seq<bool>) -> Seq<bool> {
    Seq::new(a.len(), |i: int| a[i] && b[i])
}

/// Pointwise disjunction: the selection of rows active in either operand.
pub open spec fn or_bits(a: Seq<bool>, b: Seq<bool>) -> Seq<bool> {
    Seq::new(a.len(), |i: int| a[i] || b[i])
}

/// The selection with every row of a universe of `n` rows active.
pub open spec fn all_true(n: nat) -> Seq<bool> {
    Seq::new(n, |i: int| true)
}

/// The selection with no row of a universe of `n` rows active.
pub open spec fn all_false(n: nat) -> Seq<bool> {
    Seq::new(n, |i: int| false)
}

/// The strictly increasing sequence of selected positions of a selection.
pub open spec fn set_positions(s: Seq<bool>) -> Seq<int>
    decreases s.len(),
{
    if s.len() == 0 {
        Seq::<int>::empty()
    } else if s.last() {
        set_positions(s.drop_last()).push(s.len() - 1)
    } else {
        set_positions(s.drop_last())
    }
}

/// The dense selection over `n` rows whose selected positions are the
/// members of `ps`.
pub open spec fn mask_of(ps: Seq<int>, n: nat) -> Seq<bool> {
    Seq::new(n, |i: int| ps.contains(i))
}

/// A sparse index list as mathematical integers.
pub open spec fn to_ints(s: Seq<usize>) -> Seq<int> {
    s.map_values(|x: usize| x as int)
}

/// Entries are strictly increasing, hence pairwise distinct.
pub open spec fn strictly_increasing(ps: Seq<int>) -> bool {
    forall|i: int, j: int| 0 <= i < j < ps.len() ==> ps[i] < ps[j]
}

/// Every entry lies in the universe `[0, n)`.
pub open spec fn in_range(ps: Seq<int>, n: int) -> bool {
    forall|i: int| 0 <= i < ps.len() ==> 0 <= #[trigger] ps[i] < n
}

/// No selection holds more selected rows than its universe has.
pub proof fn lemma_count_true_le_len(s: Seq<bool>)
    ensures
        count_true(s) <= s.len(),
    decreases s.len(),
{
    if s.len() > 0 {
        lemma_count_true_le_len(s.drop_last());
    }
}

/// A selection has no selected row exactly when it is the empty selection.
pub proof fn lemma_count_true_zero(s: Seq<bool>)
    ensures
        count_true(s) == 0 <==> s == all_false(s.len()),
    decreases s.len(),
{
    if s.len() == 0 {
        assert(s =~= all_false(s.len()));
    } else {
        lemma_count_true_zero(s.drop_last());
        if count_true(s) == 0 {
            assert(s.drop_last() == all_false((s.len() - 1) as nat));
            assert(forall|i: int|
                0 <= i < s.len() - 1 ==> #[trigger] s[i] == s.drop_last()[i]);
            assert(s.last() == s[s.len() - 1]);
            assert(s =~= all_false(s.len()));
        }
        if s == all_false(s.len()) {
            assert(s.drop_last() =~= all_false((s.len() - 1) as nat));
        }
    }
}

/// A selection has every row selected exactly when it is the full selection.
pub proof fn lemma_count_true_full(s: Seq<bool>)
    ensures
        count_true(s) == s.len() <==> s == all_true(s.len()),
    decreases s.len(),
{
    if s.len() == 0 {
        assert(s =~= all_true(s.len()));
    } else {
        lemma_count_true_full(s.drop_last());
        lemma_count_true_le_len(s.drop_last());
        if count_true(s) == s.len() {
            assert(s.drop_last() == all_true((s.len() - 1) as nat));
            assert(forall|i: int|
                0 <= i < s.len() - 1 ==> #[trigger] s[i] == s.drop_last()[i]);
            assert(s.last() == s[s.len() - 1]);
            assert(s =~= all_true(s.len()));
        }
        if s == all_true(s.len()) {
            assert(s.drop_last() =~= all_true((s.len() - 1) as nat));
        }
    }
}

/// Intersection is commutative over selections of one universe.
pub proof fn lemma_and_commutative(a: Seq<bool>, b: Seq<bool>)
    requires
        a.len() == b.len(),
    ensures
        and_bits(a, b) == and_bits(b, a),
{
    assert(and_bits(a, b) =~= and_bits(b, a));
}

/// Intersection is associative over selections of one universe.
pub proof fn lemma_and_associative(a: Seq<bool>, b: Seq<bool>, c: Seq<bool>)
    requires
        a.len() == b.len(),
        b.len() == c.len(),
    ensures
        and_bits(and_bits(a, b), c) == and_bits(a, and_bits(b, c)),
{
    assert(and_bits(and_bits(a, b), c) =~= and_bits(a, and_bits(b, c)));
}

/// Intersecting with the full selection returns the other operand; with the
/// empty selection, the empty selection.
pub proof fn lemma_and_identity_absorption(x: Seq<bool>)
    ensures
        and_bits(all_true(x.len()), x) == x,
        and_bits(x, all_true(x.len())) == x,
        and_bits(all_false(x.len()), x) == all_false(x.len()),
        and_bits(x, all_false(x.len())) == all_false(x.len()),
{
    assert(and_bits(all_true(x.len()), x) =~= x);
    assert(and_bits(x, all_true(x.len())) =~= x);
    assert(and_bits(all_false(x.len()), x) =~= all_false(x.len()));
    assert(and_bits(x, all_false(x.len())) =~= all_false(x.len()));
}

/// Membership in a sequence extended by one element.
pub proof fn lemma_contains_push(s: Seq<int>, x: int, p: int)
    ensures
        s.push(x).contains(p) <==> s.contains(p) || p == x,
{
    if s.contains(p) {
        let i = choose|i: int| 0 <= i < s.len() && s[i] == p;
        assert(s.push(x)[i] == p);
    }
    assert(s.push(x)[s.len() as int] == x);
    if s.push(x).contains(p) && p != x {
        let i = choose|i: int| 0 <= i < s.push(x).len() && s.push(x)[i] == p;
        assert(s[i] == p);
    }
}

/// What the selected positions of a selection are: as many as the selected
/// rows, strictly increasing, within the universe, and containing exactly the
/// selected row indices.
pub proof fn lemma_set_positions_props(s: Seq<bool>)
    ensures
        set_positions(s).len() == count_true(s),
        strictly_increasing(set_positions(s)),
        in_range(set_positions(s), s.len() as int),
        forall|p: int| #[trigger] set_positions(s).contains(p) <==> 0 <= p < s.len() && s[p],
    decreases s.len(),
{
    if s.len() == 0 {
    } else {
        let s0 = s.drop_last();
        let sp0 = set_positions(s0);
        lemma_set_positions_props(s0);
        assert(forall|i: int| 0 <= i < s.len() - 1 ==> #[trigger] s[i] == s0[i]);
        assert(s.last() == s[s.len() - 1]);
        if s.last() {
            let sp = sp0.push(s.len() - 1);
            assert(set_positions(s) == sp);
            assert forall|p: int| #[trigger] sp.contains(p) <==> 0 <= p < s.len() && s[p] by {
                lemma_contains_push(sp0, s.len() - 1, p);
            }
            assert forall|i: int, j: int| 0 <= i < j < sp.len() implies sp[i] < sp[j] by {
                if j < sp0.len() {
                    assert(sp[i] == sp0[i] && sp[j] == sp0[j]);
                } else {
                    assert(sp[j] == s.len() - 1);
                    assert(sp[i] == sp0[i]);
                    assert(sp0[i] < s0.len() as int);
                }
            }
        } else {
            assert forall|p: int| #[trigger] set_positions(s).contains(p) <==> 0 <= p < s.len()
                && s[p] by {
                assert(set_positions(s) == sp0);
                if 0 <= p < s.len() && s[p] {
                    assert(p < s.len() - 1);
                }
            }
        }
    }
}

/// Two strictly increasing sequences with the same members are one sequence.
pub proof fn lemma_sorted_unique(a: Seq<int>, b: Seq<int>)
    requires
        strictly_increasing(a),
        strictly_increasing(b),
        forall|p: int| #[trigger] a.contains(p) <==> b.contains(p),
    ensures
        a == b,
    decreases a.len(),
{
    if a.len() == 0 {
        if b.len() > 0 {
            assert(!a.contains(b[0]));
            assert(b.contains(b[0]));
        }
        assert(a =~= b);
    } else if b.len() == 0 {
        assert(a.contains(a[0]));
        assert(!b.contains(a[0]));
    } else {
        let la = a[a.len() - 1];
        let lb = b[b.len() - 1];
        assert(a.contains(la));
        assert(b.contains(la));
        assert(a.contains(lb));
        assert(b.contains(lb));
        let i = choose|i: int| 0 <= i < b.len() && b[i] == la;
        assert(la <= lb);
        let j = choose|j: int| 0 <= j < a.len() && a[j] == lb;
        assert(lb <= la);
        assert(la == lb);
        assert forall|p: int| #[trigger] a.drop_last().contains(p) <==> b.drop_last().contains(
            p,
        ) by {
            lemma_drop_last_contains(a, p);
            lemma_drop_last_contains(b, p);
        }
        lemma_sorted_unique(a.drop_last(), b.drop_last());
        assert(a.len() == b.len());
        assert(forall|i: int|
            0 <= i < a.len() - 1 ==> #[trigger] a[i] == a.drop_last()[i] && b[i]
                == b.drop_last()[i]);
        assert(a =~= b);
    }
}

/// Membership in a strictly increasing sequence without its greatest entry.
proof fn lemma_drop_last_contains(a: Seq<int>, p: int)
    requires
        strictly_increasing(a),
        a.len() > 0,
    ensures
        a.drop_last().contains(p) <==> a.contains(p) && p != a[a.len() - 1],
{
    if a.drop_last().contains(p) {
        let i = choose|i: int| 0 <= i < a.drop_last().len() && a.drop_last()[i] == p;
        assert(a[i] == p);
        assert(a[i] < a[a.len() - 1]);
    }
    if a.contains(p) && p != a[a.len() - 1] {
        let i = choose|i: int| 0 <= i < a.len() && a[i] == p;
        assert(i < a.len() - 1);
        assert(a.drop_last()[i] == p);
    }
}

/// Dense to sparse and back: recovering a bitmap from its selected positions
/// yields the same selection.
pub proof fn lemma_mask_roundtrip(s: Seq<bool>)
    ensures
        mask_of(set_positions(s), s.len()) == s,
{
    lemma_set_positions_props(s);
    assert(mask_of(set_positions(s), s.len()) =~= s);
}

/// Sparse to dense and back: the selected positions of the bitmap built from
/// a valid index list are that list; the bitmap's count is the list's length.
pub proof fn lemma_positions_roundtrip(ps: Seq<int>, n: nat)
    requires
        strictly_increasing(ps),
        in_range(ps, n as int),
    ensures
        set_positions(mask_of(ps, n)) == ps,
        count_true(mask_of(ps, n)) == ps.len(),
{
    let m = mask_of(ps, n);
    lemma_set_positions_props(m);
    assert forall|p: int| #[trigger] set_positions(m).contains(p) <==> ps.contains(p) by {
        if ps.contains(p) {
            let i = choose|i: int| 0 <= i < ps.len() && ps[i] == p;
            assert(0 <= p < n);
            assert(m[p]);
        }
    }
    lemma_sorted_unique(set_positions(m), ps);
}

/// The counts of the union and of the intersection of two selections add up
/// to the sum of the operands' counts.
pub proof fn lemma_union_intersect_count(a: Seq<bool>, b: Seq<bool>)
    requires
        a.len() == b.len(),
    ensures
        count_true(or_bits(a, b)) + count_true(and_bits(a, b)) == count_true(a) + count_true(b),
    decreases a.len(),
{
    if a.len() == 0 {
        assert(or_bits(a, b) =~= Seq::<bool>::empty());
        assert(and_bits(a, b) =~= Seq::<bool>::empty());
    } else {
        lemma_union_intersect_count(a.drop_last(), b.drop_last());
        assert(or_bits(a, b).drop_last() =~= or_bits(a.drop_last(), b.drop_last()));
        assert(and_bits(a, b).drop_last() =~= and_bits(a.drop_last(), b.drop_last()));
        assert(or_bits(a, b).last() == (a.last() || b.last()));
        assert(and_bits(a, b).last() == (a.last() && b.last()));
    }
}

} // verus!
