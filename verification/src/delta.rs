//! Per-axis neighbour offsets and the mixed-radix cursor arithmetic that
//! drives neighbour enumeration.
//!
//! A cell's neighbour cursor is a vector with one `DeltaCoordinate` per axis.
//! Reading each entry as a base-3 digit (`SameCoordinate` = 0, `Positive` = 1,
//! `Negative` = 2, least significant axis first) gives every cursor a unique
//! index in `[0, 3^dim)`; advancing the cursor adds exactly one to that index.

use vstd::prelude::*;
use vstd::pervasive::VecAdditionalExecFns;

verus! {

/// One axis of a relative neighbour offset.
#[derive(Clone, Copy, PartialEq, Eq, Structural, Debug)]
pub enum DeltaCoordinate {
    SameCoordinate,
    Positive,
    Negative,
}

/// The offset a delta applies to one coordinate component.
pub open spec fn delta_offset(d: DeltaCoordinate) -> int {
    match d {
        DeltaCoordinate::SameCoordinate => 0,
        DeltaCoordinate::Positive => 1,
        DeltaCoordinate::Negative => -1,
    }
}

/// The position of a delta in the per-axis enumeration cycle.
pub open spec fn delta_digit(d: DeltaCoordinate) -> int {
    match d {
        DeltaCoordinate::SameCoordinate => 0,
        DeltaCoordinate::Positive => 1,
        DeltaCoordinate::Negative => 2,
    }
}

pub open spec fn pow3(n: nat) -> nat
    decreases n,
{
    if n == 0 {
        1
    } else {
        3 * pow3((n - 1) as nat)
    }
}

/// A delta vector read as a little-endian base-3 number.
pub open spec fn cursor_index(d: Seq<DeltaCoordinate>) -> int
    decreases d.len(),
{
    if d.len() == 0 {
        0
    } else {
        delta_digit(d[0]) + 3 * cursor_index(d.drop_first())
    }
}

/// The delta whose digit is `k` (callers pass `k` in `[0, 3)`).
pub open spec fn digit_delta(k: int) -> DeltaCoordinate {
    if k == 0 {
        DeltaCoordinate::SameCoordinate
    } else if k == 1 {
        DeltaCoordinate::Positive
    } else {
        DeltaCoordinate::Negative
    }
}

/// The `k`-th delta vector in the enumeration over `dim` axes.
pub open spec fn delta_of_index(k: int, dim: nat) -> Seq<DeltaCoordinate> {
    Seq::new(dim, |i: int| digit_delta((k / pow3(i as nat) as int) % 3))
}

pub proof fn lemma_pow3_pos(n: nat)
    ensures
        pow3(n) >= 1,
    decreases n,
{
    if n > 0 {
        lemma_pow3_pos((n - 1) as nat);
    }
}

pub proof fn lemma_pow3_mono(a: nat, b: nat)
    requires
        a <= b,
    ensures
        pow3(a) <= pow3(b),
    decreases b,
{
    if a < b {
        lemma_pow3_mono(a, (b - 1) as nat);
        lemma_pow3_pos((b - 1) as nat);
    }
}

pub proof fn lemma_cursor_index_bounds(d: Seq<DeltaCoordinate>)
    ensures
        0 <= cursor_index(d) < pow3(d.len()),
    decreases d.len(),
{
    if d.len() > 0 {
        lemma_cursor_index_bounds(d.drop_first());
    }
}

/// The cursor index is maximal exactly when every axis is `Negative`.
pub proof fn lemma_cursor_index_max(d: Seq<DeltaCoordinate>)
    ensures
        (cursor_index(d) == pow3(d.len()) - 1) <==> (forall|i: int|
            0 <= i < d.len() ==> d[i] is Negative),
    decreases d.len(),
{
    if d.len() > 0 {
        lemma_cursor_index_max(d.drop_first());
        lemma_cursor_index_bounds(d.drop_first());
        if cursor_index(d) == pow3(d.len()) - 1 {
            assert(forall|i: int| 0 <= i < d.drop_first().len() ==> d.drop_first()[i] == d[i + 1]);
            assert(forall|i: int| 0 <= i < d.len() ==> d[i] is Negative) by {
                assert(forall|i: int|
                    1 <= i < d.len() ==> d[i] == d.drop_first()[i - 1]);
            }
        }
        if forall|i: int| 0 <= i < d.len() ==> d[i] is Negative {
            assert(forall|i: int|
                0 <= i < d.drop_first().len() ==> d.drop_first()[i] is Negative);
        }
    }
}

/// An all-`SameCoordinate` cursor has index 0.
pub proof fn lemma_cursor_index_zero(d: Seq<DeltaCoordinate>)
    requires
        forall|i: int| 0 <= i < d.len() ==> d[i] is SameCoordinate,
    ensures
        cursor_index(d) == 0,
    decreases d.len(),
{
    if d.len() > 0 {
        assert(forall|i: int|
            0 <= i < d.drop_first().len() ==> d.drop_first()[i] is SameCoordinate);
        lemma_cursor_index_zero(d.drop_first());
    }
}

/// Appending a digit adds its value times the weight of its position.
pub proof fn lemma_cursor_index_push(s: Seq<DeltaCoordinate>, x: DeltaCoordinate)
    ensures
        cursor_index(s.push(x)) == cursor_index(s) + delta_digit(x) * pow3(s.len()),
    decreases s.len(),
{
    if s.len() == 0 {
        assert(s.push(x).drop_first() =~= Seq::<DeltaCoordinate>::empty());
        assert(s.push(x)[0] == x);
        assert(cursor_index(Seq::<DeltaCoordinate>::empty()) == 0);
        assert(cursor_index(s.push(x)) == delta_digit(x));
        assert(cursor_index(s) == 0);
        assert(pow3(s.len()) == 1);
        assert(cursor_index(s.push(x)) == cursor_index(s) + delta_digit(x) * pow3(s.len()));
    } else {
        assert(s.push(x).drop_first() =~= s.drop_first().push(x));
        assert(s.push(x)[0] == s[0]);
        lemma_cursor_index_push(s.drop_first(), x);
        let g = delta_digit(x);
        let t = cursor_index(s.drop_first());
        let p = pow3(s.drop_first().len());
        assert(cursor_index(s.push(x)) == delta_digit(s[0]) + 3 * (t + g * p));
        assert(cursor_index(s) == delta_digit(s[0]) + 3 * t);
        assert(pow3(s.len()) == 3 * p);
        assert(cursor_index(s.push(x)) == cursor_index(s) + g * pow3(s.len())) by (nonlinear_arith)
            requires
                cursor_index(s.push(x)) == delta_digit(s[0]) + 3 * (t + g * p),
                cursor_index(s) == delta_digit(s[0]) + 3 * t,
                pow3(s.len()) == 3 * p,
        ;
    }
}

/// A cursor splits around position `j` into a prefix and a weighted suffix.
pub proof fn lemma_cursor_index_split(d: Seq<DeltaCoordinate>, j: int)
    requires
        0 <= j <= d.len(),
    ensures
        cursor_index(d) == cursor_index(d.take(j)) + pow3(j as nat) * cursor_index(d.skip(j)),
    decreases j,
{
    if j == 0 {
        assert(d.take(0) =~= Seq::<DeltaCoordinate>::empty());
        assert(d.skip(0) =~= d);
        assert(cursor_index(Seq::<DeltaCoordinate>::empty()) == 0);
        assert(pow3(j as nat) * cursor_index(d.skip(j)) == cursor_index(d.skip(j)))
            by (nonlinear_arith)
            requires
                pow3(j as nat) == 1,
        ;
        assert(cursor_index(d) == cursor_index(d.take(j)) + pow3(j as nat) * cursor_index(
            d.skip(j),
        ));
    } else {
        lemma_cursor_index_split(d, j - 1);
        assert(d.take(j) =~= d.take(j - 1).push(d[j - 1]));
        lemma_cursor_index_push(d.take(j - 1), d[j - 1]);
        assert(d.skip(j - 1)[0] == d[j - 1]);
        assert(d.skip(j - 1).drop_first() =~= d.skip(j));
        let p = pow3((j - 1) as nat);
        let g = delta_digit(d[j - 1]);
        let t = cursor_index(d.skip(j));
        assert(cursor_index(d.skip(j - 1)) == g + 3 * t);
        assert(cursor_index(d) == cursor_index(d.take(j - 1)) + p * (g + 3 * t));
        assert(cursor_index(d.take(j)) == cursor_index(d.take(j - 1)) + g * p);
        assert(pow3(j as nat) == 3 * p);
        assert(cursor_index(d) == cursor_index(d.take(j)) + pow3(j as nat) * cursor_index(
            d.skip(j),
        )) by (nonlinear_arith)
            requires
                cursor_index(d) == cursor_index(d.take(j - 1)) + p * (g + 3 * t),
                cursor_index(d.take(j)) == cursor_index(d.take(j - 1)) + g * p,
                pow3(j as nat) == 3 * p,
                t == cursor_index(d.skip(j)),
        ;
    }
}

/// Recover each digit of a cursor from its index.
pub proof fn lemma_delta_of_cursor_index(d: Seq<DeltaCoordinate>)
    ensures
        delta_of_index(cursor_index(d), d.len()) =~= d,
    decreases d.len(),
{
    if d.len() > 0 {
        let k = cursor_index(d);
        let g = delta_digit(d[0]);
        let t = cursor_index(d.drop_first());
        lemma_cursor_index_bounds(d.drop_first());
        lemma_delta_of_cursor_index(d.drop_first());
        assert forall|i: int| 0 <= i < d.len() implies delta_of_index(k, d.len())[i] == d[i] by {
            if i == 0 {
                assert(k % 3 == g) by (nonlinear_arith)
                    requires
                        k == g + 3 * t,
                        0 <= g < 3,
                        0 <= t,
                ;
                assert(pow3(0) == 1);
                assert(k / 1 == k);
            } else {
                let p = pow3((i - 1) as nat);
                lemma_pow3_pos((i - 1) as nat);
                assert(pow3(i as nat) == 3 * p);
                assert(k / (3 * p as int) == t / p as int) by (nonlinear_arith)
                    requires
                        k == g + 3 * t,
                        0 <= g < 3,
                        0 <= t,
                        p >= 1,
                ;
                assert(delta_of_index(t, d.drop_first().len())[i - 1] == d.drop_first()[i - 1]);
                assert(d.drop_first()[i - 1] == d[i]);
            }
        }
    }
}

/// Runtime `3^n`.
pub fn pow3_exec(n: usize) -> (r: usize)
    requires
        pow3(n as nat) <= usize::MAX,
    ensures
        r == pow3(n as nat),
{
    let mut acc: usize = 1;
    let mut i: usize = 0;
    while i < n
        invariant
            i <= n,
            acc == pow3(i as nat),
            pow3(n as nat) <= usize::MAX,
        decreases n - i,
    {
        proof {
            lemma_pow3_mono((i + 1) as nat, n as nat);
        }
        acc = acc * 3;
        i = i + 1;
    }
    acc
}

/// Advance a neighbour cursor to its successor in the mixed-radix order.
pub fn advance_delta(v: &mut Vec<DeltaCoordinate>)
    requires
        cursor_index(old(v)@) < pow3(old(v)@.len()) - 1,
    ensures
        final(v)@.len() == old(v)@.len(),
        cursor_index(final(v)@) == cursor_index(old(v)@) + 1,
{
    let ghost orig = old(v)@;
    let mut i: usize = 0;
    while i < v.len() && v[i] == DeltaCoordinate::Negative
        invariant
            0 <= i <= v@.len(),
            v@.len() == orig.len(),
            forall|j: int| 0 <= j < i ==> orig[j] is Negative,
            forall|j: int| 0 <= j < i ==> v@[j] is SameCoordinate,
            forall|j: int| i <= j < v@.len() ==> v@[j] == orig[j],
            cursor_index(orig) < pow3(orig.len()) - 1,
        decreases v@.len() - i,
    {
        v.set(i, DeltaCoordinate::SameCoordinate);
        i = i + 1;
    }
    proof {
        if i == v@.len() {
            lemma_cursor_index_max(orig);
            assert(false);
        }
    }
    let bumped = if v[i] == DeltaCoordinate::SameCoordinate {
        DeltaCoordinate::Positive
    } else {
        DeltaCoordinate::Negative
    };
    proof {
        if orig[i as int] is Negative {
            lemma_cursor_index_max(orig);
            assert(false);
        }
    }
    v.set(i, bumped);
    proof {
        let new = v@;
        let j = i as int;
        lemma_cursor_index_split(orig, j);
        lemma_cursor_index_split(new, j);
        assert(forall|m: int| 0 <= m < j ==> orig.take(j)[m] is Negative);
        lemma_cursor_index_max(orig.take(j));
        lemma_cursor_index_bounds(orig.take(j));
        assert(cursor_index(orig.take(j)) == pow3(j as nat) - 1);
        lemma_cursor_index_zero(new.take(j));
        assert(new.skip(j)[0] == bumped);
        assert(orig.skip(j)[0] == orig[j]);
        assert(new.skip(j).drop_first() =~= orig.skip(j).drop_first());
        assert(delta_digit(bumped) == delta_digit(orig[j]) + 1);
        assert(cursor_index(new.skip(j)) == cursor_index(orig.skip(j)) + 1);
        let p = pow3(j as nat);
        let t = cursor_index(orig.skip(j));
        assert(p * (t + 1) == p * t + p) by (nonlinear_arith);
    }
}

} // verus!
