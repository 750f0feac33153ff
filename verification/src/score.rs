//! Scores, and ranking by them.
//!
//! A score is a single-precision floating-point number, held here as its IEEE
//! 754 bit pattern: the sign in the top bit, the magnitude below it. That is all
//! that ordering takes.
use vstd::prelude::*;

verus! {

/// The bit that is set in negative numbers.
pub const SIGN: u32 = 0x8000_0000;

/// The pattern of infinity. Larger magnitudes are those of NaNs.
pub const INFINITY: u32 = 0x7f80_0000;

/// The pattern of the least finite number.
pub const LEAST: u32 = 0xff7f_ffff;

/// Where a bit pattern stands in the IEEE 754 total order: -NaN, -infinity, the
/// negative numbers, -0, +0, the positive numbers, +infinity, +NaN.
pub open spec fn rank_of(bits: u32) -> int {
    if bits < SIGN {
        bits as int
    } else {
        SIGN - 1 - bits
    }
}

/// Where a bit pattern stands in the total order.
fn rank(bits: u32) -> (r: i64)
    ensures
        r == rank_of(bits),
{
    if bits < SIGN {
        bits as i64
    } else {
        SIGN as i64 - 1 - bits as i64
    }
}

/// An item and the bits of its score.
pub type Scored = (usize, u32);

/// How many of `best` come before an item of score `bits`: up to the last one
/// that scores no less.
pub open spec fn place_of(best: Seq<Scored>, bits: u32) -> nat
    decreases best.len(),
{
    if best.len() == 0 || rank_of(best.last().1) >= rank_of(bits) {
        best.len()
    } else {
        place_of(best.drop_last(), bits)
    }
}

/// The items in descending order of their scores; equal scores stay in order.
pub open spec fn ranked(items: Seq<Scored>) -> Seq<Scored>
    decreases items.len(),
{
    if items.len() == 0 {
        Seq::empty()
    } else {
        let best = ranked(items.drop_last());
        best.insert(place_of(best, items.last().1) as int, items.last())
    }
}

/// The `k` best of the items, or all of them where there are fewer.
pub open spec fn top_of(items: Seq<Scored>, k: int) -> Seq<Scored> {
    if ranked(items).len() <= k {
        ranked(items)
    } else {
        ranked(items).take(k)
    }
}

/// Whether scores never rise from one item to the next.
pub open spec fn is_descending(s: Seq<Scored>) -> bool {
    forall|i: int, j: int| 0 <= i < j < s.len() ==> rank_of(s[i].1) >= rank_of(s[j].1)
}

proof fn lemma_place(best: Seq<Scored>, bits: u32)
    requires
        is_descending(best),
    ensures
        place_of(best, bits) <= best.len(),
        forall|i: int|
            0 <= i < place_of(best, bits) ==> rank_of(#[trigger] best[i].1) >= rank_of(bits),
        forall|i: int|
            place_of(best, bits) <= i < best.len() ==> rank_of(#[trigger] best[i].1) < rank_of(
                bits,
            ),
    decreases best.len(),
{
    if best.len() > 0 && rank_of(best.last().1) < rank_of(bits) {
        lemma_place(best.drop_last(), bits);
        assert forall|i: int| 0 <= i < place_of(best, bits) implies rank_of(
            #[trigger] best[i].1,
        ) >= rank_of(bits) by {
            assert(best.drop_last()[i].1 == best[i].1);
        }
        assert forall|i: int| place_of(best, bits) <= i < best.len() implies rank_of(
            #[trigger] best[i].1,
        ) < rank_of(bits) by {
            if i < best.len() - 1 {
                assert(best.drop_last()[i].1 == best[i].1);
            }
        }
    } else if best.len() > 0 {
        assert forall|i: int| 0 <= i < best.len() implies rank_of(#[trigger] best[i].1) >= rank_of(
            bits,
        ) by {
            if i < best.len() - 1 {
                assert(rank_of(best[i].1) >= rank_of(best[best.len() - 1].1));
            }
        }
    }
}

/// A place is the only one with the better scores before it and the worse ones
/// behind.
proof fn lemma_place_unique(best: Seq<Scored>, bits: u32, p: int)
    requires
        is_descending(best),
        0 <= p <= best.len(),
        p > 0 ==> rank_of(best[p - 1].1) >= rank_of(bits),
        p < best.len() ==> rank_of(best[p].1) < rank_of(bits),
    ensures
        place_of(best, bits) == p,
{
    lemma_place(best, bits);
    let q = place_of(best, bits) as int;
    if q < p {
        assert(rank_of(best[p - 1].1) < rank_of(bits));
    } else if q > p {
        assert(rank_of(best[p].1) >= rank_of(bits));
    }
}

/// Ranking gives a descending order.
pub proof fn law_ranked_descends(items: Seq<Scored>)
    ensures
        is_descending(ranked(items)),
    decreases items.len(),
{
    if items.len() > 0 {
        let best = ranked(items.drop_last());
        let x = items.last();
        law_ranked_descends(items.drop_last());
        lemma_place(best, x.1);
        let p = place_of(best, x.1) as int;
        let s = best.insert(p, x);
        assert forall|i: int, j: int| 0 <= i < j < s.len() implies rank_of(s[i].1) >= rank_of(
            s[j].1,
        ) by {
            let bi = if i < p {
                best[i]
            } else {
                best[i - 1]
            };
            let bj = if j < p {
                best[j]
            } else {
                best[j - 1]
            };
        }
    }
}

/// Ranking keeps the items.
pub proof fn law_ranked_keeps_items(items: Seq<Scored>)
    ensures
        ranked(items).to_multiset() == items.to_multiset(),
        ranked(items).len() == items.len(),
    decreases items.len(),
{
    if items.len() > 0 {
        let best = ranked(items.drop_last());
        let x = items.last();
        law_ranked_keeps_items(items.drop_last());
        law_ranked_descends(items.drop_last());
        lemma_place(best, x.1);
        vstd::seq_lib::to_multiset_insert(best, place_of(best, x.1) as int, x);
        vstd::seq_lib::to_multiset_build(items.drop_last(), x);
        assert(items.drop_last().push(x) =~= items);
    } else {
        assert(ranked(items) =~= items);
    }
}

proof fn lemma_none_left(s: Seq<Scored>, keep: spec_fn(Scored) -> bool)
    requires
        forall|i: int| 0 <= i < s.len() ==> !keep(#[trigger] s[i]),
    ensures
        s.filter(keep) == Seq::<Scored>::empty(),
    decreases s.len(),
{
    reveal(Seq::filter);
    if s.len() > 0 {
        assert forall|i: int| 0 <= i < s.drop_last().len() implies !keep(
            #[trigger] s.drop_last()[i],
        ) by {
            assert(!keep(s[i]));
        }
        lemma_none_left(s.drop_last(), keep);
        assert(!keep(s[s.len() - 1]));
    }
}

/// Items with the same score stay in the order in which they came.
pub proof fn law_ranking_is_stable(items: Seq<Scored>, bits: u32)
    ensures
        ranked(items).filter(|x: Scored| x.1 == bits) == items.filter(|x: Scored| x.1 == bits),
    decreases items.len(),
{
    let same = |x: Scored| x.1 == bits;
    reveal(Seq::filter);
    if items.len() > 0 {
        let best = ranked(items.drop_last());
        let x = items.last();
        law_ranking_is_stable(items.drop_last(), bits);
        law_ranked_descends(items.drop_last());
        lemma_place(best, x.1);
        let p = place_of(best, x.1) as int;
        let front = best.take(p);
        let back = best.skip(p);
        assert(best =~= front + back);
        assert(ranked(items) =~= front.push(x) + back);
        Seq::filter_distributes_over_add(front, back, same);
        Seq::filter_distributes_over_add(front.push(x), back, same);
        assert(front.push(x).drop_last() =~= front);
        if x.1 == bits {
            assert forall|i: int| 0 <= i < back.len() implies !same(#[trigger] back[i]) by {
                assert(best[p + i] == back[i]);
            }
            lemma_none_left(back, same);
            assert(ranked(items).filter(same) =~= items.filter(same));
        }
    }
}

/// The `k` best of `items`, best first; equal scores stay in order.
pub fn top(items: &Vec<Scored>, k: usize) -> (r: Vec<Scored>)
    ensures
        r@ == top_of(items@, k as int),
{
    let mut best: Vec<Scored> = Vec::new();
    let mut i: usize = 0;
    while i < items.len()
        invariant
            i <= items.len(),
            best@ == top_of(items@.take(i as int), k as int),
        decreases items.len() - i,
    {
        let ghost all = ranked(items@.take(i as int));
        let ghost held = best@;
        let x: Scored = items[i];
        assert(items@.take(i + 1).drop_last() =~= items@.take(i as int));
        proof {
            law_ranked_descends(items@.take(i as int));
            lemma_place(all, x.1);
        }
        let ghost p = place_of(all, x.1) as int;
        let mut at: usize = best.len();
        while at > 0 && rank(best[at - 1].1) < rank(x.1)
            invariant
                at <= best@.len(),
                forall|j: int| at <= j < best@.len() ==> rank_of(#[trigger] best@[j].1) < rank_of(
                    x.1,
                ),
            decreases at,
        {
            at -= 1;
        }
        proof {
            if at > 0 {
                assert(rank_of(best@[at - 1].1) >= rank_of(x.1));
                assert(all[at - 1] == best@[at - 1]);
            }
            if at < best@.len() {
                assert(rank_of(best@[at as int].1) < rank_of(x.1));
                assert(all[at as int] == best@[at as int]);
                lemma_place_unique(all, x.1, at as int);
            } else if best@.len() == all.len() {
                lemma_place_unique(all, x.1, at as int);
            } else {
                assert(p >= at);
            }
        }
        best.insert(at, x);
        if best.len() > k {
            best.truncate(k);
        }
        proof {
            let next = ranked(items@.take(i + 1));
            assert(next == all.insert(p, x));
            assert(best@ =~= top_of(items@.take(i + 1), k as int));
        }
        i += 1;
    }
    assert(items@.take(i as int) =~= items@);
    best
}

// ---------------------------------------------------------------------------
// The greatest score
// ---------------------------------------------------------------------------

/// Whether a bit pattern is that of a NaN.
pub open spec fn is_nan(bits: u32) -> bool {
    if bits < SIGN {
        bits > INFINITY
    } else {
        bits - SIGN > INFINITY
    }
}

/// What a bit pattern is ordered by as a number: both zeros are equal.
pub open spec fn size_of(bits: u32) -> int {
    if bits < SIGN {
        bits as int
    } else {
        SIGN - bits
    }
}

/// Whether the first number is greater than the second; never so for a NaN.
pub open spec fn is_greater(a: u32, b: u32) -> bool {
    !is_nan(a) && !is_nan(b) && size_of(a) > size_of(b)
}

fn greater(a: u32, b: u32) -> (r: bool)
    ensures
        r == is_greater(a, b),
{
    let a_size: u32 = if a < SIGN {
        a
    } else {
        a - SIGN
    };
    let b_size: u32 = if b < SIGN {
        b
    } else {
        b - SIGN
    };
    if a_size > INFINITY || b_size > INFINITY {
        return false;
    }
    if a < SIGN {
        b >= SIGN && (a > 0 || b > SIGN) || b < SIGN && a > b
    } else {
        b > SIGN && a < b
    }
}

/// The position of the first of the greatest scores; 0 where no score is above
/// the least finite number.
pub fn argmax(v: &Vec<u32>) -> (r: usize)
    ensures
        (exists|i: int| 0 <= i < v@.len() && is_greater(#[trigger] v@[i], LEAST)) ==> {
            &&& r < v@.len()
            &&& is_greater(v@[r as int], LEAST)
            &&& forall|i: int| 0 <= i < v@.len() ==> !is_greater(#[trigger] v@[i], v@[r as int])
            &&& forall|i: int|
                0 <= i < r ==> is_nan(#[trigger] v@[i]) || is_greater(v@[r as int], v@[i])
        },
        !(exists|i: int| 0 <= i < v@.len() && is_greater(#[trigger] v@[i], LEAST)) ==> r == 0,
{
    let mut best: usize = 0;
    let mut bits: u32 = LEAST;
    let mut i: usize = 0;
    while i < v.len()
        invariant
            i <= v.len(),
            !is_nan(bits),
            bits == LEAST && best == 0 && (forall|k: int|
                0 <= k < i ==> !is_greater(#[trigger] v@[k], LEAST)) || {
                &&& best < i
                &&& bits == v@[best as int]
                &&& is_greater(bits, LEAST)
                &&& forall|k: int| 0 <= k < i ==> !is_greater(#[trigger] v@[k], bits)
                &&& forall|k: int|
                    0 <= k < best ==> is_nan(#[trigger] v@[k]) || is_greater(bits, v@[k])
            },
        decreases v.len() - i,
    {
        if greater(v[i], bits) {
            bits = v[i];
            best = i;
        }
        i += 1;
    }
    best
}

// ---------------------------------------------------------------------------
// Laws of the order
// ---------------------------------------------------------------------------

/// The bits below the sign.
pub open spec fn magnitude(bits: u32) -> nat {
    (bits % 0x8000_0000u32) as nat
}

/// The number that a magnitude stands for, in units of the smallest positive
/// number: eight bits of exponent above 23 of fraction. Infinity is counted as
/// the power of two behind the largest finite number.
pub open spec fn units(magnitude: nat) -> nat {
    let exponent = magnitude / 0x80_0000;
    let fraction = magnitude % 0x80_0000;
    if exponent == 0 {
        fraction
    } else {
        (0x80_0000 + fraction) * vstd::arithmetic::power2::pow2((exponent - 1) as nat)
    }
}

/// The number that a bit pattern stands for, in units of the smallest positive
/// number.
pub open spec fn number_of(bits: u32) -> int {
    if bits >= 0x8000_0000 {
        -(units(magnitude(bits)) as int)
    } else {
        units(magnitude(bits)) as int
    }
}

proof fn lemma_units_step(m: nat)
    ensures
        units(m) < units(m + 1),
{
    let e = m / 0x80_0000;
    let f = m % 0x80_0000;
    if f + 1 < 0x80_0000 {
        assert((m + 1) / 0x80_0000 == e && (m + 1) % 0x80_0000 == f + 1);
        if e > 0 {
            let p = vstd::arithmetic::power2::pow2((e - 1) as nat);
            vstd::arithmetic::power2::lemma_pow2_pos((e - 1) as nat);
            assert((0x80_0000 + f) * p < (0x80_0000 + (f + 1)) * p) by (nonlinear_arith)
                requires
                    p > 0,
            ;
        }
    } else {
        assert((m + 1) / 0x80_0000 == e + 1 && (m + 1) % 0x80_0000 == 0);
        let q = vstd::arithmetic::power2::pow2(e);
        assert(units(m + 1) == (0x80_0000 + 0nat) * q);
        if e > 0 {
            let p = vstd::arithmetic::power2::pow2((e - 1) as nat);
            vstd::arithmetic::power2::lemma_pow2_pos((e - 1) as nat);
            vstd::arithmetic::power2::lemma_pow2_unfold(e);
            assert((0x80_0000 + f) * p < (0x80_0000 + 0nat) * q) by (nonlinear_arith)
                requires
                    p > 0,
                    q == 2 * p,
                    f + 1 == 0x80_0000,
            ;
        } else {
            vstd::arithmetic::power2::lemma2_to64();
            assert(q == 1);
        }
    }
}

proof fn lemma_units_rise(a: nat, b: nat)
    requires
        a < b,
    ensures
        units(a) < units(b),
    decreases b - a,
{
    lemma_units_step((b - 1) as nat);
    if a < b - 1 {
        lemma_units_rise(a, (b - 1) as nat);
    }
}

/// Among patterns without the sign bit the larger ranks higher, among patterns
/// with it the smaller does, and all of the latter rank below all of the former.
pub proof fn law_ranks_follow_the_bits(a: u32, b: u32)
    ensures
        a < b < 0x8000_0000 ==> rank_of(a) < rank_of(b),
        0x8000_0000 <= a < b ==> rank_of(a) > rank_of(b),
        a < 0x8000_0000 <= b ==> rank_of(a) > rank_of(b),
        rank_of(a) == rank_of(b) ==> a == b,
{
}

/// Of two patterns that are no NaNs, the one that stands for the greater number
/// ranks higher.
pub proof fn law_ranks_follow_the_numbers(a: u32, b: u32)
    requires
        magnitude(a) <= 0x7f80_0000,
        magnitude(b) <= 0x7f80_0000,
    ensures
        number_of(a) < number_of(b) ==> rank_of(a) < rank_of(b),
        number_of(a) == number_of(b) && a != b ==> magnitude(a) == 0 && magnitude(b) == 0,
{
    lemma_numbers(a, b);
}

proof fn lemma_numbers(a: u32, b: u32)
    ensures
        magnitude(a) < magnitude(b) ==> units(magnitude(a)) < units(magnitude(b)),
        magnitude(b) < magnitude(a) ==> units(magnitude(b)) < units(magnitude(a)),
        magnitude(a) > 0 ==> units(magnitude(a)) > 0,
        magnitude(b) > 0 ==> units(magnitude(b)) > 0,
        units(0) == 0,
        a >= 0x8000_0000 ==> magnitude(a) == a - 0x8000_0000,
        b >= 0x8000_0000 ==> magnitude(b) == b - 0x8000_0000,
        a < 0x8000_0000 ==> magnitude(a) == a,
        b < 0x8000_0000 ==> magnitude(b) == b,
{
    if magnitude(a) < magnitude(b) {
        lemma_units_rise(magnitude(a), magnitude(b));
    }
    if magnitude(b) < magnitude(a) {
        lemma_units_rise(magnitude(b), magnitude(a));
    }
    if magnitude(a) > 0 {
        lemma_units_rise(0, magnitude(a));
    }
    if magnitude(b) > 0 {
        lemma_units_rise(0, magnitude(b));
    }
}

/// A score is greater than another exactly where neither is a NaN and it stands
/// for the greater number.
pub proof fn law_greater_means_greater(a: u32, b: u32)
    ensures
        is_nan(a) <==> magnitude(a) > 0x7f80_0000,
        is_greater(a, b) <==> magnitude(a) <= 0x7f80_0000 && magnitude(b) <= 0x7f80_0000
            && number_of(a) > number_of(b),
{
    lemma_numbers(a, b);
}

/// No number but minus infinity is less than [`LEAST`].
pub proof fn law_least_is_least(bits: u32)
    requires
        magnitude(bits) <= 0x7f80_0000,
    ensures
        number_of(bits) >= number_of(LEAST) || bits == 0xff80_0000,
{
    lemma_numbers(bits, LEAST);
}

/// The best of the items begin the ranking: as many as are asked for, or all of
/// them, and none that is left out scores higher than one that is taken.
pub proof fn law_top_is_the_best(items: Seq<Scored>, k: int)
    requires
        0 <= k,
    ensures
        top_of(items, k).len() == if items.len() <= k {
            items.len() as int
        } else {
            k
        },
        exists|rest: Seq<Scored>| #[trigger]
            (top_of(items, k) + rest) == ranked(items) && (top_of(items, k) + rest).to_multiset()
                == items.to_multiset() && forall|i: int, j: int|
                0 <= i < top_of(items, k).len() && 0 <= j < rest.len() ==> rank_of(
                    (#[trigger] top_of(items, k)[i]).1,
                ) >= rank_of((#[trigger] rest[j]).1),
{
    law_ranked_keeps_items(items);
    law_ranked_descends(items);
    let all = ranked(items);
    let n = top_of(items, k).len() as int;
    let rest = all.skip(n);
    assert(top_of(items, k) + rest =~= all);
    assert forall|i: int, j: int| 0 <= i < n && 0 <= j < rest.len() implies rank_of(
        (#[trigger] top_of(items, k)[i]).1,
    ) >= rank_of((#[trigger] rest[j]).1) by {
        assert(rank_of(all[i].1) >= rank_of(all[n + j].1));
    }
}

} // verus!
