//! The discrete part of the transformer: which positions may attend to which,
//! and how the cells of the experimental neuron grid are connected.
//!
//! The grid is an N-dimensional lattice of cells with Moore connectivity
//! (orthogonal + diagonal + cross-dimension neighbors) and toroidal boundaries.
//! Its topology lives entirely in the (constant) adjacency matrix.
use vstd::prelude::*;

verus! {

/// Whether the model's width can be shared out evenly among its attention heads.
pub fn heads_divide(d_model: usize, n_head: usize) -> (r: bool)
    requires
        n_head > 0,
    ensures
        r == (d_model as int % n_head as int == 0),
{
    d_model % n_head == 0
}

// ---------------------------------------------------------------------------
// The causal mask
// ---------------------------------------------------------------------------

/// The first `n` rows of the causal mask over `t` positions, one after another:
/// true above the diagonal.
pub open spec fn causal_rows(t: nat, n: nat) -> Seq<bool>
    decreases n,
{
    if n == 0 {
        Seq::empty()
    } else {
        causal_rows(t, (n - 1) as nat) + Seq::new(t, |j: int| j > n - 1)
    }
}

/// Causal mask over `t` positions, row by row: false on/below the diagonal, true
/// above it, so each position can only attend to itself and the past.
pub fn causal_mask(t: usize) -> (r: Vec<bool>)
    ensures
        r@ == causal_rows(t as nat, t as nat),
{
    let mut out: Vec<bool> = Vec::new();
    let mut i: usize = 0;
    while i < t
        invariant
            i <= t,
            out@ == causal_rows(t as nat, i as nat),
        decreases t - i,
    {
        let ghost before = out@;
        let mut j: usize = 0;
        while j < t
            invariant
                i < t,
                j <= t,
                out@ == before + Seq::new(j as nat, |k: int| k > i),
            decreases t - j,
        {
            out.push(j > i);
            assert(out@ =~= before + Seq::new((j + 1) as nat, |k: int| k > i));
            j += 1;
        }
        assert(out@ =~= causal_rows(t as nat, (i + 1) as nat));
        i += 1;
    }
    out
}

/// Position `i` is kept from attending to position `j` exactly where `j` comes
/// later.
pub proof fn law_attention_looks_back(t: nat, n: nat, i: int, j: int)
    requires
        0 <= i < n,
        0 <= j < t,
    ensures
        causal_rows(t, n).len() == n * t,
        0 <= i * t + j < n * t,
        causal_rows(t, n)[i * t + j] == (j > i),
    decreases n,
{
    let m = (n - 1) as nat;
    lemma_causal_len(t, n);
    lemma_causal_len(t, m);
    assert(n * t == m * t + t) by (nonlinear_arith)
        requires
            n == m + 1,
    ;
    if i < m {
        law_attention_looks_back(t, m, i, j);
    } else {
        assert(i * t == m * t);
    }
}

proof fn lemma_causal_len(t: nat, n: nat)
    ensures
        causal_rows(t, n).len() == n * t,
    decreases n,
{
    if n > 0 {
        let m = (n - 1) as nat;
        lemma_causal_len(t, m);
        assert(n * t == m * t + t) by (nonlinear_arith)
            requires
                n == m + 1,
        ;
    } else {
        assert(n * t == 0) by (nonlinear_arith)
            requires
                n == 0,
        ;
    }
}

// ---------------------------------------------------------------------------
// Cells and coordinates
// ---------------------------------------------------------------------------

/// How many cells a lattice has: `side` to the power of `dims`.
pub open spec fn cells_of(side: nat, dims: nat) -> nat
    decreases dims,
{
    if dims == 0 {
        1
    } else {
        side * cells_of(side, (dims - 1) as nat)
    }
}

/// How many cells a lattice has, or `None` where that is too large a number.
pub fn num_cells(dims: usize, side: usize) -> (r: Option<usize>)
    ensures
        match r {
            Some(n) => n == cells_of(side as nat, dims as nat),
            None => cells_of(side as nat, dims as nat) > usize::MAX,
        },
{
    if side == 0 {
        proof {
            if dims > 0 {
                assert(cells_of(0, dims as nat) == 0) by (nonlinear_arith)
                    requires
                        cells_of(0, dims as nat) == 0 * cells_of(0, (dims - 1) as nat),
                ;
            }
        }
        return Some(
            if dims == 0 {
                1
            } else {
                0
            },
        );
    }
    let mut n: usize = 1;
    let mut d: usize = 0;
    while d < dims
        invariant
            d <= dims,
            side > 0,
            n == cells_of(side as nat, d as nat),
        decreases dims - d,
    {
        assert(cells_of(side as nat, (d + 1) as nat) == side * n);
        match side.checked_mul(n) {
            Some(m) => {
                n = m;
            },
            None => {
                proof {
                    lemma_cells_grow(side as nat, (d + 1) as nat, dims as nat);
                }
                return None;
            },
        }
        d += 1;
    }
    Some(n)
}

proof fn lemma_cells_grow(side: nat, few: nat, many: nat)
    requires
        side > 0,
        few <= many,
    ensures
        0 < cells_of(side, few) <= cells_of(side, many),
    decreases many,
{
    if few < many {
        lemma_cells_grow(side, few, (many - 1) as nat);
        let c = cells_of(side, (many - 1) as nat);
        assert(c <= side * c) by (nonlinear_arith)
            requires
                side > 0,
                c >= 0,
        ;
    } else if few > 0 {
        lemma_cells_grow(side, (few - 1) as nat, (few - 1) as nat);
        let c = cells_of(side, (few - 1) as nat);
        assert(0 < side * c) by (nonlinear_arith)
            requires
                side > 0,
                c > 0,
        ;
    }
}

/// The coordinates of cell `i`: its digits to the base `side`, the lowest first.
pub open spec fn decode_of(i: usize, dims: nat, side: usize) -> Seq<usize>
    decreases dims,
{
    if dims == 0 {
        Seq::empty()
    } else {
        seq![i % side] + decode_of(i / side, (dims - 1) as nat, side)
    }
}

/// The cell at the given coordinates.
pub open spec fn encode_of(coords: Seq<usize>, side: usize) -> int
    decreases coords.len(),
{
    if coords.len() == 0 {
        0
    } else {
        coords[0] + side * encode_of(coords.drop_first(), side)
    }
}

/// Whether coordinates are those of a cell.
pub open spec fn in_lattice(coords: Seq<usize>, side: usize) -> bool {
    forall|k: int| 0 <= k < coords.len() ==> #[trigger] coords[k] < side
}

/// The coordinates of cell `i`.
pub fn decode(i: usize, dims: usize, side: usize) -> (r: Vec<usize>)
    requires
        dims == 0 || side > 0,
    ensures
        r@ == decode_of(i, dims as nat, side),
{
    let mut coords: Vec<usize> = Vec::new();
    let mut rest: usize = i;
    assert(coords@ + decode_of(rest, dims as nat, side) =~= decode_of(i, dims as nat, side));
    while coords.len() < dims
        invariant
            dims == 0 || side > 0,
            coords.len() <= dims,
            coords@ + decode_of(rest, (dims - coords@.len()) as nat, side) == decode_of(
                i,
                dims as nat,
                side,
            ),
        decreases dims - coords.len(),
    {
        let ghost before = coords@;
        let ghost left = rest;
        coords.push(rest % side);
        rest = rest / side;
        assert(coords@ + decode_of(rest, (dims - coords@.len()) as nat, side) =~= before
            + decode_of(left, (dims - before.len()) as nat, side));
    }
    assert(coords@ + decode_of(rest, 0, side) =~= coords@);
    coords
}

proof fn lemma_encode_bound(coords: Seq<usize>, side: usize)
    requires
        in_lattice(coords, side),
        side > 0,
    ensures
        0 <= encode_of(coords, side) < cells_of(side as nat, coords.len()),
    decreases coords.len(),
{
    if coords.len() > 0 {
        let rest = coords.drop_first();
        assert forall|k: int| 0 <= k < rest.len() implies #[trigger] rest[k] < side by {
            assert(coords[k + 1] < side);
        }
        lemma_encode_bound(rest, side);
        let e = encode_of(rest, side);
        let c = cells_of(side as nat, rest.len()) as int;
        let first = coords[0];
        assert(first < side);
        assert(0 <= first + side * e < side * c) by (nonlinear_arith)
            requires
                0 <= first < side,
                0 <= e < c,
        ;
    }
}

/// No part of a number that fits is too large.
proof fn lemma_encode_parts(coords: Seq<usize>, side: usize, k: int)
    requires
        0 <= k <= coords.len(),
        encode_of(coords, side) <= usize::MAX,
    ensures
        0 <= encode_of(coords.skip(k), side) <= usize::MAX,
    decreases k,
{
    if k == 0 {
        assert(coords.skip(0) =~= coords);
        lemma_encode_positive(coords, side);
    } else {
        lemma_encode_parts(coords, side, k - 1);
        let whole = coords.skip(k - 1);
        let part = coords.skip(k);
        assert(whole.drop_first() =~= part);
        lemma_encode_positive(part, side);
        let e = encode_of(part, side);
        if side > 0 {
            assert(e <= side * e) by (nonlinear_arith)
                requires
                    side > 0,
                    e >= 0,
            ;
        } else if part.len() > 0 {
            let f = encode_of(part.drop_first(), side);
            assert(side * f == 0) by (nonlinear_arith)
                requires
                    side == 0,
            ;
        }
    }
}

proof fn lemma_encode_positive(coords: Seq<usize>, side: usize)
    ensures
        0 <= encode_of(coords, side),
    decreases coords.len(),
{
    if coords.len() > 0 {
        lemma_encode_positive(coords.drop_first(), side);
        let e = encode_of(coords.drop_first(), side);
        assert(0 <= side * e) by (nonlinear_arith)
            requires
                side >= 0,
                e >= 0,
        ;
    }
}

/// The cell at the given coordinates.
pub fn encode(coords: &Vec<usize>, side: usize) -> (r: usize)
    requires
        encode_of(coords@, side) <= usize::MAX,
    ensures
        r == encode_of(coords@, side),
{
    let n: usize = coords.len();
    let mut idx: usize = 0;
    let mut k: usize = n;
    assert(coords@.skip(n as int) =~= Seq::empty());
    while k > 0
        invariant
            k <= n == coords@.len(),
            encode_of(coords@, side) <= usize::MAX,
            idx == encode_of(coords@.skip(k as int), side),
        decreases k,
    {
        k -= 1;
        proof {
            assert(coords@.skip(k as int).drop_first() =~= coords@.skip(k + 1));
            lemma_encode_parts(coords@, side, k as int);
            assert(0 <= side * idx) by (nonlinear_arith);
        }
        idx = coords[k] + side * idx;
    }
    assert(coords@.skip(0) =~= coords@);
    idx
}

/// Every cell is found again at its coordinates.
pub proof fn law_encode_undoes_decode(i: usize, dims: nat, side: usize)
    requires
        i < cells_of(side as nat, dims),
    ensures
        encode_of(decode_of(i, dims, side), side) == i,
        decode_of(i, dims, side).len() == dims,
        in_lattice(decode_of(i, dims, side), side),
    decreases dims,
{
    if dims > 0 {
        let c = cells_of(side as nat, (dims - 1) as nat);
        assert(side > 0) by (nonlinear_arith)
            requires
                i < side * c,
                c >= 0,
                i >= 0,
        ;
        let q = i / side;
        let m = i % side;
        assert(q < c && i == m + side * q && m < side) by (nonlinear_arith)
            requires
                i < side * c,
                side > 0,
                q == i / side,
                m == i % side,
        ;
        law_encode_undoes_decode(q, (dims - 1) as nat, side);
        let coords = decode_of(i, dims, side);
        let rest = decode_of(q, (dims - 1) as nat, side);
        assert(coords.drop_first() =~= rest);
        assert forall|k: int| 0 <= k < coords.len() implies #[trigger] coords[k] < side by {
            if k > 0 {
                assert(coords[k] == rest[k - 1]);
            }
        }
    }
}

/// Coordinates are found again from their cell.
pub proof fn law_decode_undoes_encode(coords: Seq<usize>, side: usize)
    requires
        in_lattice(coords, side),
        cells_of(side as nat, coords.len()) <= usize::MAX,
    ensures
        0 <= encode_of(coords, side) < cells_of(side as nat, coords.len()),
        decode_of(encode_of(coords, side) as usize, coords.len(), side) == coords,
    decreases coords.len(),
{
    if coords.len() > 0 {
        let rest = coords.drop_first();
        assert(coords[0] < side);
        assert forall|k: int| 0 <= k < rest.len() implies #[trigger] rest[k] < side by {
            assert(coords[k + 1] < side);
        }
        lemma_encode_bound(coords, side);
        lemma_cells_grow(side as nat, rest.len(), coords.len());
        law_decode_undoes_encode(rest, side);
        let e = encode_of(rest, side);
        let i = encode_of(coords, side);
        let first = coords[0] as int;
        let base = side as int;
        assert(i / base == e && i % base == first) by (nonlinear_arith)
            requires
                i == first + base * e,
                0 <= first < base,
        ;
        assert(decode_of(i as usize, coords.len(), side) =~= seq![coords[0]] + rest);
        assert(seq![coords[0]] + rest =~= coords);
    } else {
        assert(decode_of(0, 0, side) =~= coords);
    }
}

// ---------------------------------------------------------------------------
// Offsets
// ---------------------------------------------------------------------------

/// The three ways to go on from `prefix` along one more axis.
pub open spec fn branches(prefix: Seq<i64>) -> Seq<Seq<i64>> {
    seq![prefix.push(-1i64), prefix.push(0), prefix.push(1)]
}

/// The branches of all the prefixes, in order.
pub open spec fn branched(prefixes: Seq<Seq<i64>>) -> Seq<Seq<i64>>
    decreases prefixes.len(),
{
    if prefixes.len() == 0 {
        Seq::empty()
    } else {
        branched(prefixes.drop_last()) + branches(prefixes.last())
    }
}

/// All vectors of -1, 0 and 1 with `dims` entries, in order.
pub open spec fn all_offsets(dims: nat) -> Seq<Seq<i64>>
    decreases dims,
{
    if dims == 0 {
        seq![Seq::<i64>::empty()]
    } else {
        branched(all_offsets((dims - 1) as nat))
    }
}

/// Whether an offset leads anywhere.
pub open spec fn is_move(off: Seq<i64>) -> bool {
    exists|k: int| 0 <= k < off.len() && #[trigger] off[k] != 0
}

/// All offset vectors except the all-zero (self) vector.
pub open spec fn offsets_of(dims: nat) -> Seq<Seq<i64>> {
    all_offsets(dims).filter(|off: Seq<i64>| is_move(off))
}

/// What the vectors of a list hold.
pub open spec fn vectors(v: Seq<Vec<i64>>) -> Seq<Seq<i64>> {
    v.map_values(|x: Vec<i64>| x@)
}

fn with_entry(prefix: &Vec<i64>, v: i64) -> (r: Vec<i64>)
    ensures
        r@ == prefix@.push(v),
{
    let mut out: Vec<i64> = Vec::new();
    let mut k: usize = 0;
    while k < prefix.len()
        invariant
            k <= prefix.len(),
            out@ == prefix@.take(k as int),
        decreases prefix.len() - k,
    {
        out.push(prefix[k]);
        k += 1;
    }
    assert(prefix@.take(k as int) =~= prefix@);
    out.push(v);
    out
}

fn moves(off: &Vec<i64>) -> (r: bool)
    ensures
        r == is_move(off@),
{
    let mut k: usize = 0;
    while k < off.len()
        invariant
            k <= off.len(),
            forall|j: int| 0 <= j < k ==> off@[j] == 0,
        decreases off.len() - k,
    {
        if off[k] != 0 {
            assert(off@[k as int] != 0);
            return true;
        }
        k += 1;
    }
    false
}

/// All offset vectors in {-1,0,1}^dims except the all-zero (self) vector.
pub fn moore_offsets(dims: usize) -> (r: Vec<Vec<i64>>)
    ensures
        vectors(r@) == offsets_of(dims as nat),
{
    let mut all: Vec<Vec<i64>> = Vec::new();
    all.push(Vec::new());
    assert(vectors(all@) =~= seq![Seq::<i64>::empty()]);
    let mut d: usize = 0;
    while d < dims
        invariant
            d <= dims,
            vectors(all@) == all_offsets(d as nat),
        decreases dims - d,
    {
        let mut next: Vec<Vec<i64>> = Vec::new();
        let ghost prefixes = vectors(all@);
        let mut k: usize = 0;
        assert(vectors(next@) =~= branched(prefixes.take(0)));
        while k < all.len()
            invariant
                k <= all.len(),
                prefixes == vectors(all@),
                vectors(next@) == branched(prefixes.take(k as int)),
            decreases all.len() - k,
        {
            assert(prefixes.take(k + 1).drop_last() =~= prefixes.take(k as int));
            let ghost before = next@;
            let a: Vec<i64> = with_entry(&all[k], -1);
            let b: Vec<i64> = with_entry(&all[k], 0);
            let c: Vec<i64> = with_entry(&all[k], 1);
            next.push(a);
            next.push(b);
            next.push(c);
            assert(vectors(next@) =~= vectors(before) + branches(prefixes[k as int]));
            k += 1;
        }
        assert(prefixes.take(k as int) =~= prefixes);
        all = next;
        d += 1;
    }
    let ghost whole = vectors(all@);
    let ghost keep = |off: Seq<i64>| is_move(off);
    let ghost given = all@;
    let mut out: Vec<Vec<i64>> = Vec::new();
    assert(vectors(out@) =~= whole.take(0).filter(keep)) by {
        reveal(Seq::filter);
    }
    for off in it: all.into_iter()
        invariant
            it.seq() == given,
            whole == vectors(given),
            keep == (|off: Seq<i64>| is_move(off)),
            vectors(out@) == whole.take(it.index() as int).filter(keep),
    {
        reveal(Seq::filter);
        assert(whole.take(it.index() + 1).drop_last() =~= whole.take(it.index() as int));
        assert(whole.take(it.index() + 1).last() == off@);
        if moves(&off) {
            let ghost before = out@;
            out.push(off);
            assert(vectors(out@) =~= vectors(before).push(off@));
        }
    }
    assert(whole.take(whole.len() as int) =~= whole);
    out
}

/// Whether `off` has `dims` entries, each of them -1, 0 or 1.
pub open spec fn is_offset(off: Seq<i64>, dims: nat) -> bool {
    &&& off.len() == dims
    &&& forall|k: int| 0 <= k < off.len() ==> -1 <= #[trigger] off[k] <= 1
}

proof fn lemma_branched(prefixes: Seq<Seq<i64>>, off: Seq<i64>)
    ensures
        branched(prefixes).len() == 3 * prefixes.len(),
        branched(prefixes).contains(off) <==> off.len() > 0 && -1 <= off.last() <= 1
            && prefixes.contains(off.drop_last()),
    decreases prefixes.len(),
{
    if prefixes.len() > 0 {
        let front = prefixes.drop_last();
        let last = prefixes.last();
        lemma_branched(front, off);
        let all = branched(prefixes);
        let n = branched(front).len();
        assert(last.push(-1i64).drop_last() =~= last);
        assert(last.push(0).drop_last() =~= last);
        assert(last.push(1).drop_last() =~= last);
        assert(prefixes[prefixes.len() - 1] == last);
        if all.contains(off) {
            let k = all.index_of(off);
            if k < n {
                assert(branched(front)[k] == off);
                assert(branched(front).contains(off));
                let j = front.index_of(off.drop_last());
                assert(prefixes[j] == off.drop_last());
            } else {
                assert(off == branches(last)[k - n]);
            }
        }
        if off.len() > 0 && -1 <= off.last() <= 1 && prefixes.contains(off.drop_last()) {
            let j = prefixes.index_of(off.drop_last());
            assert(off.drop_last().push(off.last()) =~= off);
            if j < front.len() {
                assert(front[j] == off.drop_last());
                assert(branched(front).contains(off));
                assert(all[branched(front).index_of(off)] == off);
            } else {
                assert(off.drop_last() == last);
                assert(all[n + off.last() + 1] == off);
            }
        }
    }
}

proof fn lemma_all_offsets(dims: nat, off: Seq<i64>)
    ensures
        all_offsets(dims).contains(off) <==> is_offset(off, dims),
    decreases dims,
{
    let all = all_offsets(dims);
    if dims == 0 {
        assert(all[0] == Seq::<i64>::empty());
        if off.len() == 0 {
            assert(off =~= Seq::<i64>::empty());
        }
    } else {
        let prefixes = all_offsets((dims - 1) as nat);
        lemma_branched(prefixes, off);
        if off.len() > 0 {
            let front = off.drop_last();
            lemma_all_offsets((dims - 1) as nat, front);
            if is_offset(off, dims) {
                assert(-1 <= off[off.len() - 1] <= 1);
                assert forall|k: int| 0 <= k < front.len() implies -1 <= #[trigger] front[k]
                    <= 1 by {
                    assert(-1 <= off[k] <= 1);
                }
            }
            if is_offset(front, (dims - 1) as nat) && -1 <= off.last() <= 1 {
                assert forall|k: int| 0 <= k < off.len() implies -1 <= #[trigger] off[k] <= 1 by {
                    if k < front.len() {
                        assert(-1 <= front[k] <= 1);
                    }
                }
            }
        }
    }
}

proof fn lemma_filter_members(s: Seq<Seq<i64>>, keep: spec_fn(Seq<i64>) -> bool, x: Seq<i64>)
    ensures
        s.filter(keep).contains(x) <==> s.contains(x) && keep(x),
    decreases s.len(),
{
    reveal(Seq::filter);
    if s.len() > 0 {
        let front = s.drop_last();
        lemma_filter_members(front, keep, x);
        assert(s[s.len() - 1] == s.last());
        if s.contains(x) {
            let k = s.index_of(x);
            if k < front.len() {
                assert(front[k] == x);
            }
        }
        if front.contains(x) {
            assert(s[front.index_of(x)] == x);
        }
        let kept = front.filter(keep);
        if kept.contains(x) {
            assert(s.filter(keep)[kept.index_of(x)] == x);
        }
        if keep(s.last()) {
            assert(s.filter(keep)[kept.len() as int] == s.last());
        }
        if s.filter(keep).contains(x) {
            let k = s.filter(keep).index_of(x);
            if k < kept.len() {
                assert(kept[k] == x);
            }
        }
    }
}

/// The offsets are all the vectors of -1, 0 and 1 but the zero vector.
pub proof fn law_offsets_are_all_moves(dims: nat, off: Seq<i64>)
    ensures
        offsets_of(dims).contains(off) <==> is_offset(off, dims) && is_move(off),
{
    lemma_all_offsets(dims, off);
    lemma_filter_members(all_offsets(dims), |o: Seq<i64>| is_move(o), off);
}

proof fn lemma_branched_distinct(prefixes: Seq<Seq<i64>>)
    requires
        prefixes.no_duplicates(),
    ensures
        branched(prefixes).no_duplicates(),
    decreases prefixes.len(),
{
    if prefixes.len() > 0 {
        let front = prefixes.drop_last();
        let last = prefixes.last();
        assert forall|i: int, j: int|
            0 <= i < front.len() && 0 <= j < front.len() && i != j implies front[i] != front[j] by {
            assert(prefixes[i] != prefixes[j]);
        }
        lemma_branched_distinct(front);
        let all = branched(prefixes);
        let before = branched(front);
        let n = before.len();
        assert(last.push(-1i64).drop_last() =~= last);
        assert(last.push(0).drop_last() =~= last);
        assert(last.push(1).drop_last() =~= last);
        assert forall|i: int, j: int| 0 <= i < j < all.len() implies all[i] != all[j] by {
            if j < n {
                assert(before[i] != before[j]);
            } else {
                let y = branches(last)[j - n];
                assert(all[j] == y);
                assert(y.drop_last() == last);
                if i < n {
                    if before[i] == y {
                        assert(before.contains(y));
                        lemma_branched(front, y);
                        let k = front.index_of(last);
                        assert(prefixes[k] != prefixes[prefixes.len() - 1]);
                    }
                } else {
                    assert(all[i] == branches(last)[i - n]);
                    assert(all[i].last() == i - n - 1);
                    assert(all[j].last() == j - n - 1);
                }
            }
        }
    }
}

/// No offset is listed twice.
pub proof fn law_offsets_are_distinct(dims: nat)
    ensures
        offsets_of(dims).no_duplicates(),
{
    lemma_all_distinct(dims);
    lemma_filter_distinct(all_offsets(dims), |o: Seq<i64>| is_move(o));
}

proof fn lemma_all_distinct(dims: nat)
    ensures
        all_offsets(dims).no_duplicates(),
    decreases dims,
{
    if dims > 0 {
        lemma_all_distinct((dims - 1) as nat);
        lemma_branched_distinct(all_offsets((dims - 1) as nat));
    }
}

proof fn lemma_filter_distinct(s: Seq<Seq<i64>>, keep: spec_fn(Seq<i64>) -> bool)
    requires
        s.no_duplicates(),
    ensures
        s.filter(keep).no_duplicates(),
    decreases s.len(),
{
    reveal(Seq::filter);
    if s.len() > 0 {
        let front = s.drop_last();
        assert forall|i: int, j: int|
            0 <= i < front.len() && 0 <= j < front.len() && i != j implies front[i] != front[j] by {
            assert(s[i] != s[j]);
        }
        lemma_filter_distinct(front, keep);
        lemma_filter_members(front, keep, s.last());
        if front.contains(s.last()) {
            assert(s[front.index_of(s.last())] != s[s.len() - 1]);
        }
        let kept = front.filter(keep);
        let all = s.filter(keep);
        assert forall|i: int, j: int| 0 <= i < j < all.len() implies all[i] != all[j] by {
            if j < kept.len() {
                assert(kept[i] != kept[j]);
            } else {
                assert(kept.contains(kept[i]));
            }
        }
    }
}

/// How many there are: 3 to the power of the dimensions, less the zero vector.
pub proof fn law_offsets_count(dims: nat)
    ensures
        offsets_of(dims).len() == cells_of(3, dims) - 1,
{
    lemma_all_count(dims);
    lemma_all_distinct(dims);
    let zero = Seq::new(dims, |k: int| 0i64);
    assert forall|k: int| 0 <= k < zero.len() implies -1 <= #[trigger] zero[k] <= 1 by {}
    lemma_all_offsets(dims, zero);
    let keep = |o: Seq<i64>| is_move(o);
    let all = all_offsets(dims);
    assert forall|k: int| 0 <= k < all.len() implies (keep(#[trigger] all[k]) <==> all[k]
        != zero) by {
        assert(all.contains(all[k]));
        lemma_all_offsets(dims, all[k]);
        if !is_move(all[k]) {
            assert(all[k] =~= zero);
        }
    }
    lemma_filter_drops_one(all, keep, zero);
}

proof fn lemma_all_count(dims: nat)
    ensures
        all_offsets(dims).len() == cells_of(3, dims),
    decreases dims,
{
    if dims > 0 {
        lemma_all_count((dims - 1) as nat);
        lemma_branched(all_offsets((dims - 1) as nat), Seq::empty());
    }
}

proof fn lemma_filter_drops_one(s: Seq<Seq<i64>>, keep: spec_fn(Seq<i64>) -> bool, z: Seq<i64>)
    requires
        s.no_duplicates(),
        forall|k: int| 0 <= k < s.len() ==> (keep(#[trigger] s[k]) <==> s[k] != z),
    ensures
        s.filter(keep).len() == s.len() - if s.contains(z) {
            1int
        } else {
            0
        },
    decreases s.len(),
{
    reveal(Seq::filter);
    if s.len() > 0 {
        let front = s.drop_last();
        assert forall|i: int, j: int|
            0 <= i < front.len() && 0 <= j < front.len() && i != j implies front[i] != front[j] by {
            assert(s[i] != s[j]);
        }
        assert forall|k: int| 0 <= k < front.len() implies (keep(#[trigger] front[k]) <==> front[k]
            != z) by {
            assert(front[k] == s[k]);
        }
        lemma_filter_drops_one(front, keep, z);
        assert(s[s.len() - 1] == s.last());
        if front.contains(z) {
            let k = front.index_of(z);
            assert(s[k] == z);
            assert(s[k] != s[s.len() - 1]);
        }
        if s.contains(z) && s.last() != z {
            assert(front[s.index_of(z)] == z);
        }
    }
}

// ---------------------------------------------------------------------------
// Adjacency
// ---------------------------------------------------------------------------

/// One coordinate moved by `v`, around the torus.
pub open spec fn shift(c: usize, v: i64, side: usize) -> usize {
    ((c + v) % (side as int)) as usize
}

/// Coordinates moved by an offset, around the torus.
pub open spec fn shifted(coords: Seq<usize>, off: Seq<i64>, side: usize) -> Seq<usize> {
    Seq::new(coords.len(), |k: int| shift(coords[k], off[k], side))
}

/// The cell that an offset leads to from cell `i`.
pub open spec fn neighbor_of(i: usize, off: Seq<i64>, dims: nat, side: usize) -> int {
    encode_of(shifted(decode_of(i, dims, side), off, side), side)
}

/// How many of the offsets lead from cell `i` to cell `j`.
pub open spec fn links(i: usize, j: int, offsets: Seq<Seq<i64>>, dims: nat, side: usize) -> nat
    decreases offsets.len(),
{
    if offsets.len() == 0 {
        0
    } else {
        links(i, j, offsets.drop_last(), dims, side) + if neighbor_of(
            i,
            offsets.last(),
            dims,
            side,
        ) == j {
            1nat
        } else {
            0
        }
    }
}

/// How many of the offsets lead from cell `i` to another cell.
pub open spec fn exits(i: usize, offsets: Seq<Seq<i64>>, dims: nat, side: usize) -> nat
    decreases offsets.len(),
{
    if offsets.len() == 0 {
        0
    } else {
        exits(i, offsets.drop_last(), dims, side) + if neighbor_of(i, offsets.last(), dims, side)
            != i {
            1nat
        } else {
            0
        }
    }
}

/// How often cell `j` counts as a neighbor of cell `i`; no cell is its own.
pub open spec fn adjacency(i: usize, j: int, dims: nat, side: usize) -> nat {
    if j == i {
        0
    } else {
        links(i, j, offsets_of(dims), dims, side)
    }
}

/// The numbers of a list.
pub open spec fn as_nats(v: Seq<usize>) -> Seq<nat> {
    v.map_values(|x: usize| x as nat)
}

/// The first `n` rows of the adjacency matrix, one after another.
pub open spec fn adjacency_rows(dims: nat, side: usize, n: nat) -> Seq<nat>
    decreases n,
{
    if n == 0 {
        Seq::empty()
    } else {
        adjacency_rows(dims, side, (n - 1) as nat) + Seq::new(
            cells_of(side as nat, dims),
            |j: int| adjacency((n - 1) as usize, j, dims, side),
        )
    }
}

/// The connections of a lattice.
#[derive(Debug)]
pub struct Adjacency {
    pub cells: usize,
    /// How often each cell counts as a neighbor of each other, row by row.
    pub counts: Vec<usize>,
    /// The sum of each row. Divided by it, a row takes the mean of the neighbors;
    /// where it is 0 there are none.
    pub totals: Vec<usize>,
}

/// One coordinate moved by `v`, around the torus.
fn moved(c: usize, v: i64, side: usize) -> (r: usize)
    requires
        c < side,
        -1 <= v <= 1,
    ensures
        r == shift(c, v, side),
        r < side,
{
    proof {
        lemma_shift(c, v, side);
    }
    if v < 0 {
        if c == 0 {
            side - 1
        } else {
            c - 1
        }
    } else if v > 0 {
        if c == side - 1 {
            0
        } else {
            c + 1
        }
    } else {
        c
    }
}

proof fn lemma_shift(c: usize, v: i64, side: usize)
    requires
        c < side,
        -1 <= v <= 1,
    ensures
        shift(c, v, side) == if c + v < 0 {
            side - 1
        } else if c + v >= side {
            0int
        } else {
            c + v
        },
{
    let s = side as int;
    let x = c + v;
    if x < 0 {
        assert(x % s == s - 1) by (nonlinear_arith)
            requires
                x == -1,
                s > 0,
        ;
    } else if x >= s {
        assert(x % s == 0) by (nonlinear_arith)
            requires
                x == s,
                s > 0,
        ;
    } else {
        assert(x % s == x) by (nonlinear_arith)
            requires
                0 <= x < s,
        ;
    }
}

/// Moving stays in the lattice.
proof fn lemma_neighbor(i: usize, off: Seq<i64>, dims: nat, side: usize)
    requires
        i < cells_of(side as nat, dims) <= usize::MAX,
        is_offset(off, dims),
    ensures
        in_lattice(shifted(decode_of(i, dims, side), off, side), side),
        0 <= neighbor_of(i, off, dims, side) < cells_of(side as nat, dims),
        decode_of(neighbor_of(i, off, dims, side) as usize, dims, side) == shifted(
            decode_of(i, dims, side),
            off,
            side,
        ),
{
    let coords = decode_of(i, dims, side);
    let moved = shifted(coords, off, side);
    law_encode_undoes_decode(i, dims, side);
    assert forall|k: int| 0 <= k < moved.len() implies #[trigger] moved[k] < side by {
        assert(coords[k] < side);
        assert(-1 <= off[k] <= 1);
        lemma_shift(coords[k], off[k], side);
    }
    law_decode_undoes_encode(moved, side);
}

/// The cell that an offset leads to.
fn neighbor(coords: &Vec<usize>, off: &Vec<i64>, side: usize, Ghost(i): Ghost<usize>) -> (r: usize)
    requires
        i < cells_of(side as nat, coords@.len()) <= usize::MAX,
        coords@ == decode_of(i, coords@.len(), side),
        is_offset(off@, coords@.len()),
    ensures
        r == neighbor_of(i, off@, coords@.len(), side),
        r < cells_of(side as nat, coords@.len()),
{
    proof {
        law_encode_undoes_decode(i, coords@.len(), side);
        lemma_neighbor(i, off@, coords@.len(), side);
    }
    let mut out: Vec<usize> = Vec::new();
    let mut k: usize = 0;
    while k < coords.len()
        invariant
            k <= coords.len(),
            in_lattice(coords@, side),
            is_offset(off@, coords@.len()),
            out@ == shifted(coords@, off@, side).take(k as int),
        decreases coords.len() - k,
    {
        assert(coords@[k as int] < side);
        assert(-1 <= off@[k as int] <= 1);
        out.push(moved(coords[k], off[k], side));
        assert(out@ =~= shifted(coords@, off@, side).take(k + 1));
        k += 1;
    }
    assert(out@ =~= shifted(coords@, off@, side));
    encode(&out, side)
}

proof fn lemma_links_bound(i: usize, j: int, offsets: Seq<Seq<i64>>, dims: nat, side: usize)
    ensures
        links(i, j, offsets, dims, side) <= offsets.len(),
        exits(i, offsets, dims, side) <= offsets.len(),
    decreases offsets.len(),
{
    if offsets.len() > 0 {
        lemma_links_bound(i, j, offsets.drop_last(), dims, side);
    }
}

/// Builds the Moore-neighborhood adjacency matrix for a `dims`-D lattice with
/// `side` cells per axis and toroidal (wrap-around) boundaries. Each cell
/// connects to all cells differing by -1/0/+1 per axis (excluding itself):
/// orthogonal, diagonal, and across dimensions.
pub fn moore_adjacency_data(dims: usize, side: usize) -> (r: Adjacency)
    requires
        cells_of(side as nat, dims as nat) <= usize::MAX,
    ensures
        r.cells == cells_of(side as nat, dims as nat),
        as_nats(r.counts@) == adjacency_rows(dims as nat, side, r.cells as nat),
        as_nats(r.totals@) == Seq::new(
            r.cells as nat,
            |i: int| exits(i as usize, offsets_of(dims as nat), dims as nat, side),
        ),
{
    let cells: usize = match num_cells(dims, side) {
        Some(n) => n,
        None => {
            assert(false);
            0
        },
    };
    let offsets: Vec<Vec<i64>> = moore_offsets(dims);
    let ghost all = offsets_of(dims as nat);
    let mut counts: Vec<usize> = Vec::new();
    let mut totals: Vec<usize> = Vec::new();
    let mut i: usize = 0;
    assert(as_nats(counts@) =~= Seq::empty());
    assert(as_nats(totals@) =~= Seq::empty());
    while i < cells
        invariant
            i <= cells,
            cells == cells_of(side as nat, dims as nat),
            all == offsets_of(dims as nat),
            vectors(offsets@) == all,
            as_nats(counts@) == adjacency_rows(dims as nat, side, i as nat),
            as_nats(totals@) == Seq::new(
                i as nat,
                |k: int| exits(k as usize, all, dims as nat, side),
            ),
        decreases cells - i,
    {
        proof {
            law_encode_undoes_decode(i, dims as nat, side);
            lemma_side_positive(side as nat, dims as nat);
        }
        let coords: Vec<usize> = decode(i, dims, side);
        let mut row: Vec<usize> = Vec::new();
        while row.len() < cells
            invariant
                row.len() <= cells,
                forall|j: int| 0 <= j < row@.len() ==> row@[j] == 0,
            decreases cells - row.len(),
        {
            row.push(0);
        }
        let mut total: usize = 0;
        let mut k: usize = 0;
        while k < offsets.len()
            invariant
                i < cells,
                k <= offsets.len(),
                cells == cells_of(side as nat, dims as nat),
                all == offsets_of(dims as nat),
                vectors(offsets@) == all,
                coords@ == decode_of(i, dims as nat, side),
                coords@.len() == dims,
                row@.len() == cells,
                forall|j: int|
                    0 <= j < cells && j != i ==> #[trigger] row@[j] == links(
                        i,
                        j,
                        all.take(k as int),
                        dims as nat,
                        side,
                    ),
                row@[i as int] == 0,
                total == exits(i, all.take(k as int), dims as nat, side),
            decreases offsets.len() - k,
        {
            let ghost off = offsets@[k as int]@;
            proof {
                assert(all[k as int] == off);
                assert(all.contains(off));
                law_offsets_are_all_moves(dims as nat, off);
                assert(all.take(k + 1).drop_last() =~= all.take(k as int));
                assert(all.take(k + 1).last() == off);
            }
            let ghost before = row@;
            let j: usize = neighbor(&coords, &offsets[k], side, Ghost(i));
            if j != i {
                proof {
                    lemma_links_bound(i, j as int, all.take(k as int), dims as nat, side);
                    assert(row@[j as int] == links(
                        i,
                        j as int,
                        all.take(k as int),
                        dims as nat,
                        side,
                    ));
                    assert(vectors(offsets@).len() == offsets@.len());
                }
                let n: usize = row[j];
                row.set(j, n + 1);
                total += 1;
            }
            assert forall|q: int| 0 <= q < cells && q != i implies #[trigger] row@[q] == links(
                i,
                q,
                all.take(k + 1),
                dims as nat,
                side,
            ) by {
                assert(before[q] == links(i, q, all.take(k as int), dims as nat, side));
            }
            k += 1;
        }
        assert(all.take(k as int) =~= all) by {
            assert(vectors(offsets@).len() == offsets@.len());
        }
        let ghost before = counts@;
        let mut q: usize = 0;
        while q < row.len()
            invariant
                q <= row.len(),
                counts@ == before + row@.take(q as int),
            decreases row.len() - q,
        {
            counts.push(row[q]);
            assert(row@.take(q + 1) =~= row@.take(q as int).push(row@[q as int]));
            q += 1;
        }
        assert(row@.take(q as int) =~= row@);
        assert(as_nats(row@) =~= Seq::new(
            cells_of(side as nat, dims as nat),
            |j: int| adjacency(i, j, dims as nat, side),
        ));
        assert(as_nats(counts@) =~= as_nats(before) + as_nats(row@));
        let ghost sums = totals@;
        totals.push(total);
        assert(as_nats(totals@) =~= as_nats(sums).push(total as nat));
        assert(as_nats(totals@) =~= Seq::new(
            (i + 1) as nat,
            |k: int| exits(k as usize, all, dims as nat, side),
        ));
        i += 1;
    }
    Adjacency { cells, counts, totals }
}

proof fn lemma_side_positive(side: nat, dims: nat)
    requires
        cells_of(side, dims) > 0,
    ensures
        dims == 0 || side > 0,
{
    if dims > 0 && side == 0 {
        let c = cells_of(side, (dims - 1) as nat);
        assert(side * c == 0) by (nonlinear_arith)
            requires
                side == 0,
        ;
    }
}

// ---------------------------------------------------------------------------
// Laws of the lattice
// ---------------------------------------------------------------------------

/// Whether two coordinates are the same or next to each other on the ring.
pub open spec fn is_near(c: usize, d: usize, side: usize) -> bool {
    d == c || d == shift(c, -1i64, side) || d == shift(c, 1i64, side)
}

/// Whether two cells are next to each other or the same along every axis.
pub open spec fn touch(a: Seq<usize>, b: Seq<usize>, side: usize) -> bool {
    forall|k: int| 0 <= k < a.len() ==> is_near(#[trigger] a[k], b[k], side)
}

proof fn lemma_links_witness(i: usize, j: int, offsets: Seq<Seq<i64>>, dims: nat, side: usize)
    ensures
        links(i, j, offsets, dims, side) > 0 <==> exists|off: Seq<i64>| #[trigger]
            offsets.contains(off) && neighbor_of(i, off, dims, side) == j,
    decreases offsets.len(),
{
    if offsets.len() > 0 {
        let front = offsets.drop_last();
        lemma_links_witness(i, j, front, dims, side);
        assert(offsets[offsets.len() - 1] == offsets.last());
        assert(offsets.contains(offsets.last()));
        if exists|off: Seq<i64>| #[trigger]
            front.contains(off) && neighbor_of(i, off, dims, side) == j {
            let off = choose|off: Seq<i64>| #[trigger]
                front.contains(off) && neighbor_of(i, off, dims, side) == j;
            assert(offsets[front.index_of(off)] == off);
            assert(offsets.contains(off));
        }
        if exists|off: Seq<i64>| #[trigger]
            offsets.contains(off) && neighbor_of(i, off, dims, side) == j {
            let off = choose|off: Seq<i64>| #[trigger]
                offsets.contains(off) && neighbor_of(i, off, dims, side) == j;
            let k = offsets.index_of(off);
            if k < front.len() {
                assert(front[k] == off);
                assert(front.contains(off));
            }
        }
    }
}

/// The step along one axis from `c` to the near coordinate `d`.
spec fn step_to(c: usize, d: usize, side: usize) -> i64 {
    if d == c {
        0
    } else if d == shift(c, 1i64, side) {
        1
    } else {
        -1i64
    }
}

/// A cell is connected to exactly the other cells that differ by at most one
/// along every axis, around the torus.
pub proof fn law_neighbors_touch(i: usize, j: usize, dims: nat, side: usize)
    requires
        i < cells_of(side as nat, dims) <= usize::MAX,
        j < cells_of(side as nat, dims),
    ensures
        adjacency(i, j as int, dims, side) > 0 <==> i != j && touch(
            decode_of(i, dims, side),
            decode_of(j, dims, side),
            side,
        ),
{
    let a = decode_of(i, dims, side);
    let b = decode_of(j, dims, side);
    let offsets = offsets_of(dims);
    law_encode_undoes_decode(i, dims, side);
    law_encode_undoes_decode(j, dims, side);
    lemma_links_witness(i, j as int, offsets, dims, side);
    if i != j && adjacency(i, j as int, dims, side) > 0 {
        let off = choose|off: Seq<i64>| #[trigger]
            offsets.contains(off) && neighbor_of(i, off, dims, side) == j;
        law_offsets_are_all_moves(dims, off);
        lemma_neighbor(i, off, dims, side);
        assert forall|k: int| 0 <= k < a.len() implies is_near(#[trigger] a[k], b[k], side) by {
            assert(b[k] == shift(a[k], off[k], side));
            assert(-1 <= off[k] <= 1);
            assert(a[k] < side);
            lemma_shift(a[k], off[k], side);
        }
    }
    if i != j && touch(a, b, side) {
        let off = Seq::new(dims, |k: int| step_to(a[k], b[k], side));
        assert forall|k: int| 0 <= k < off.len() implies -1 <= #[trigger] off[k] <= 1 by {}
        assert forall|k: int| 0 <= k < a.len() implies #[trigger] shifted(a, off, side)[k]
            == b[k] by {
            assert(is_near(a[k], b[k], side));
            assert(a[k] < side);
            lemma_shift(a[k], off[k], side);
        }
        assert(shifted(a, off, side) =~= b);
        if !is_move(off) {
            assert forall|k: int| 0 <= k < a.len() implies #[trigger] a[k] == b[k] by {
                assert(off[k] == 0);
                assert(a[k] < side);
                lemma_shift(a[k], off[k], side);
            }
            assert(a =~= b);
        }
        law_offsets_are_all_moves(dims, off);
        assert(offsets.contains(off));
    }
}

/// What stands in column `j` of row `i` of the adjacency matrix: how often cell
/// `j` counts as a neighbor of cell `i`.
pub proof fn law_rows_hold_the_counts(dims: nat, side: usize, n: nat, i: usize, j: int)
    requires
        i < n <= usize::MAX,
        0 <= j < cells_of(side as nat, dims),
    ensures
        adjacency_rows(dims, side, n).len() == n * cells_of(side as nat, dims),
        0 <= i * cells_of(side as nat, dims) + j < n * cells_of(side as nat, dims),
        adjacency_rows(dims, side, n)[i * cells_of(side as nat, dims) + j] == adjacency(
            i,
            j,
            dims,
            side,
        ),
    decreases n,
{
    let m = (n - 1) as nat;
    let c = cells_of(side as nat, dims);
    lemma_rows_len(dims, side, n);
    lemma_rows_len(dims, side, m);
    assert(n * c == m * c + c) by (nonlinear_arith)
        requires
            n == m + 1,
    ;
    if i < m {
        law_rows_hold_the_counts(dims, side, m, i, j);
    } else {
        assert(i * c == m * c);
        assert(0 <= m * c) by (nonlinear_arith)
            requires
                m >= 0,
                c >= 0,
        ;
    }
}

proof fn lemma_rows_len(dims: nat, side: usize, n: nat)
    ensures
        adjacency_rows(dims, side, n).len() == n * cells_of(side as nat, dims),
    decreases n,
{
    let c = cells_of(side as nat, dims);
    if n > 0 {
        let m = (n - 1) as nat;
        lemma_rows_len(dims, side, m);
        assert(n * c == m * c + c) by (nonlinear_arith)
            requires
                n == m + 1,
        ;
    } else {
        assert(n * c == 0) by (nonlinear_arith)
            requires
                n == 0,
        ;
    }
}

/// The offset that leads back.
spec fn reversed(off: Seq<i64>) -> Seq<i64> {
    Seq::new(off.len(), |k: int| (-off[k]) as i64)
}

/// Where an offset leads from `i` to `j`, the reversed one leads back.
proof fn lemma_way_back(i: usize, j: usize, off: Seq<i64>, dims: nat, side: usize)
    requires
        i < cells_of(side as nat, dims) <= usize::MAX,
        j < cells_of(side as nat, dims),
        is_offset(off, dims),
        is_move(off),
        neighbor_of(i, off, dims, side) == j,
    ensures
        is_offset(reversed(off), dims),
        is_move(reversed(off)),
        neighbor_of(j, reversed(off), dims, side) == i,
{
    let a = decode_of(i, dims, side);
    let b = decode_of(j, dims, side);
    let back = reversed(off);
    law_encode_undoes_decode(i, dims, side);
    law_encode_undoes_decode(j, dims, side);
    lemma_neighbor(i, off, dims, side);
    assert forall|k: int| 0 <= k < back.len() implies -1 <= #[trigger] back[k] <= 1 by {
        assert(-1 <= off[k] <= 1);
    }
    let m = choose|k: int| 0 <= k < off.len() && #[trigger] off[k] != 0;
    assert(-1 <= off[m] <= 1);
    assert(back[m] != 0);
    assert forall|k: int| 0 <= k < a.len() implies #[trigger] shifted(b, back, side)[k]
        == a[k] by {
        assert(b[k] == shift(a[k], off[k], side));
        assert(-1 <= off[k] <= 1);
        assert(a[k] < side && b[k] < side);
        lemma_shift(a[k], off[k], side);
        lemma_shift(b[k], back[k], side);
    }
    assert(shifted(b, back, side) =~= a);
}

/// The links from `i` to `j` are the offsets that lead there.
proof fn lemma_links_are(i: usize, j: int, offsets: Seq<Seq<i64>>, dims: nat, side: usize)
    ensures
        links(i, j, offsets, dims, side) == offsets.filter(
            |off: Seq<i64>| neighbor_of(i, off, dims, side) == j,
        ).len(),
    decreases offsets.len(),
{
    reveal(Seq::filter);
    if offsets.len() > 0 {
        lemma_links_are(i, j, offsets.drop_last(), dims, side);
    }
}

/// A list without repetitions is no longer than one that holds all its items.
proof fn lemma_no_longer(a: Seq<Seq<i64>>, b: Seq<Seq<i64>>)
    requires
        a.no_duplicates(),
        forall|k: int| 0 <= k < a.len() ==> b.contains(#[trigger] a[k]),
    ensures
        a.len() <= b.len(),
{
    a.unique_seq_to_set();
    b.lemma_cardinality_of_set();
    vstd::seq_lib::seq_to_set_is_finite(b);
    assert(a.to_set().subset_of(b.to_set())) by {
        assert forall|x: Seq<i64>| a.to_set().contains(x) implies b.to_set().contains(x) by {
            let k = a.index_of(x);
            assert(a[k] == x);
        }
    }
    vstd::set_lib::lemma_len_subset(a.to_set(), b.to_set());
}

proof fn lemma_no_more_ways_there(i: usize, j: usize, dims: nat, side: usize)
    requires
        i < cells_of(side as nat, dims) <= usize::MAX,
        j < cells_of(side as nat, dims),
    ensures
        links(i, j as int, offsets_of(dims), dims, side) <= links(
            j,
            i as int,
            offsets_of(dims),
            dims,
            side,
        ),
{
    let offsets = offsets_of(dims);
    let there = |off: Seq<i64>| neighbor_of(i, off, dims, side) == j as int;
    let back = |off: Seq<i64>| neighbor_of(j, off, dims, side) == i as int;
    lemma_links_are(i, j as int, offsets, dims, side);
    lemma_links_are(j, i as int, offsets, dims, side);
    let ways = offsets.filter(there);
    law_offsets_are_distinct(dims);
    lemma_filter_distinct(offsets, there);
    let turned = Seq::new(ways.len(), |k: int| reversed(ways[k]));
    assert forall|k: int| 0 <= k < ways.len() implies is_offset(#[trigger] ways[k], dims)
        && is_move(ways[k]) && neighbor_of(i, ways[k], dims, side) == j by {
        assert(ways.contains(ways[k]));
        lemma_filter_members(offsets, there, ways[k]);
        law_offsets_are_all_moves(dims, ways[k]);
    }
    assert forall|k: int| 0 <= k < turned.len() implies offsets.filter(back).contains(
        #[trigger] turned[k],
    ) by {
        lemma_way_back(i, j, ways[k], dims, side);
        law_offsets_are_all_moves(dims, turned[k]);
        lemma_filter_members(offsets, back, turned[k]);
    }
    assert forall|p: int, q: int|
        0 <= p < turned.len() && 0 <= q < turned.len() && p != q implies turned[p] != turned[q] by {
        assert(ways[p] != ways[q]);
        if turned[p] == turned[q] {
            assert forall|k: int| 0 <= k < ways[p].len() implies ways[p][k] == ways[q][k] by {
                assert(turned[p][k] == turned[q][k]);
                assert(-1 <= ways[p][k] <= 1);
                assert(-1 <= ways[q][k] <= 1);
            }
            assert(ways[p] =~= ways[q]);
        }
    }
    lemma_no_longer(turned, offsets.filter(back));
}

/// Connections go both ways, and count as often in either.
pub proof fn law_connections_are_mutual(i: usize, j: usize, dims: nat, side: usize)
    requires
        i < cells_of(side as nat, dims) <= usize::MAX,
        j < cells_of(side as nat, dims),
    ensures
        adjacency(i, j as int, dims, side) == adjacency(j, i as int, dims, side),
{
    lemma_no_more_ways_there(i, j, dims, side);
    lemma_no_more_ways_there(j, i, dims, side);
}

/// With up to three cells per axis every cell is a neighbor of every other.
pub proof fn law_side_three_connects_all(i: usize, j: usize, dims: nat, side: usize)
    requires
        side <= 3,
        i < cells_of(side as nat, dims) <= usize::MAX,
        j < cells_of(side as nat, dims),
        i != j,
    ensures
        adjacency(i, j as int, dims, side) > 0,
{
    let a = decode_of(i, dims, side);
    let b = decode_of(j, dims, side);
    law_neighbors_touch(i, j, dims, side);
    law_encode_undoes_decode(i, dims, side);
    law_encode_undoes_decode(j, dims, side);
    assert forall|k: int| 0 <= k < a.len() implies is_near(#[trigger] a[k], b[k], side) by {
        assert(a[k] < side && b[k] < side);
        lemma_shift(a[k], -1i64, side);
        lemma_shift(a[k], 1, side);
    }
}

/// From a side of two on, every offset leads to another cell.
proof fn lemma_moves_lead_away(i: usize, off: Seq<i64>, dims: nat, side: usize)
    requires
        side >= 2,
        i < cells_of(side as nat, dims) <= usize::MAX,
        is_offset(off, dims),
        is_move(off),
    ensures
        neighbor_of(i, off, dims, side) != i,
{
    let a = decode_of(i, dims, side);
    law_encode_undoes_decode(i, dims, side);
    lemma_neighbor(i, off, dims, side);
    let k = choose|k: int| 0 <= k < off.len() && #[trigger] off[k] != 0;
    assert(a[k] < side);
    assert(-1 <= off[k] <= 1);
    lemma_shift(a[k], off[k], side);
    assert(shifted(a, off, side)[k] != a[k]);
}

proof fn lemma_exits(i: usize, offsets: Seq<Seq<i64>>, dims: nat, side: usize)
    requires
        side >= 2,
        i < cells_of(side as nat, dims) <= usize::MAX,
        forall|k: int|
            0 <= k < offsets.len() ==> is_offset(#[trigger] offsets[k], dims) && is_move(offsets[k]),
    ensures
        exits(i, offsets, dims, side) == offsets.len(),
    decreases offsets.len(),
{
    if offsets.len() > 0 {
        let front = offsets.drop_last();
        assert forall|k: int| 0 <= k < front.len() implies is_offset(#[trigger] front[k], dims)
            && is_move(front[k]) by {
            assert(front[k] == offsets[k]);
        }
        lemma_exits(i, front, dims, side);
        assert(offsets[offsets.len() - 1] == offsets.last());
        lemma_moves_lead_away(i, offsets.last(), dims, side);
    }
}

/// From a side of two on, every row sums to 3 to the power of the dimensions,
/// less one.
pub proof fn law_row_totals(i: usize, dims: nat, side: usize)
    requires
        side >= 2,
        i < cells_of(side as nat, dims) <= usize::MAX,
    ensures
        exits(i, offsets_of(dims), dims, side) == cells_of(3, dims) - 1,
{
    let offsets = offsets_of(dims);
    assert forall|k: int| 0 <= k < offsets.len() implies is_offset(#[trigger] offsets[k], dims)
        && is_move(offsets[k]) by {
        assert(offsets.contains(offsets[k]));
        law_offsets_are_all_moves(dims, offsets[k]);
    }
    lemma_exits(i, offsets, dims, side);
    law_offsets_count(dims);
}

/// The sum of what stands in row `i` before column `n`, for the given offsets.
spec fn row_sum(i: usize, offsets: Seq<Seq<i64>>, dims: nat, side: usize, n: nat) -> nat
    decreases n,
{
    if n == 0 {
        0
    } else {
        row_sum(i, offsets, dims, side, (n - 1) as nat) + if n - 1 == i {
            0
        } else {
            links(i, n - 1, offsets, dims, side)
        }
    }
}

proof fn lemma_row_sum_step(i: usize, offsets: Seq<Seq<i64>>, dims: nat, side: usize, n: nat)
    requires
        offsets.len() > 0,
    ensures
        row_sum(i, offsets, dims, side, n) == row_sum(i, offsets.drop_last(), dims, side, n) + ({
            let j = neighbor_of(i, offsets.last(), dims, side);
            if 0 <= j < n && j != i {
                1nat
            } else {
                0
            }
        }),
    decreases n,
{
    if n > 0 {
        lemma_row_sum_step(i, offsets, dims, side, (n - 1) as nat);
    }
}

proof fn lemma_row_sum_empty(i: usize, offsets: Seq<Seq<i64>>, dims: nat, side: usize, n: nat)
    requires
        offsets.len() == 0,
    ensures
        row_sum(i, offsets, dims, side, n) == 0,
    decreases n,
{
    if n > 0 {
        lemma_row_sum_empty(i, offsets, dims, side, (n - 1) as nat);
    }
}

proof fn lemma_row_sum(i: usize, offsets: Seq<Seq<i64>>, dims: nat, side: usize)
    requires
        i < cells_of(side as nat, dims) <= usize::MAX,
        forall|k: int| 0 <= k < offsets.len() ==> is_offset(#[trigger] offsets[k], dims),
    ensures
        row_sum(i, offsets, dims, side, cells_of(side as nat, dims)) == exits(
            i,
            offsets,
            dims,
            side,
        ),
    decreases offsets.len(),
{
    let n = cells_of(side as nat, dims);
    if offsets.len() == 0 {
        lemma_row_sum_empty(i, offsets, dims, side, n);
    } else {
        let front = offsets.drop_last();
        assert forall|k: int| 0 <= k < front.len() implies is_offset(#[trigger] front[k], dims) by {
            assert(front[k] == offsets[k]);
        }
        lemma_row_sum(i, front, dims, side);
        lemma_row_sum_step(i, offsets, dims, side, n);
        assert(offsets[offsets.len() - 1] == offsets.last());
        lemma_neighbor(i, offsets.last(), dims, side);
    }
}

/// The sum of the first `n` entries of row `i` of the adjacency matrix.
pub open spec fn adjacency_sum(i: usize, dims: nat, side: usize, n: nat) -> nat
    decreases n,
{
    if n == 0 {
        0
    } else {
        adjacency_sum(i, dims, side, (n - 1) as nat) + adjacency(i, n - 1, dims, side)
    }
}

proof fn lemma_sums_agree(i: usize, dims: nat, side: usize, n: nat)
    ensures
        adjacency_sum(i, dims, side, n) == row_sum(i, offsets_of(dims), dims, side, n),
    decreases n,
{
    if n > 0 {
        lemma_sums_agree(i, dims, side, (n - 1) as nat);
    }
}

/// The totals are the sums of the rows, so a row divided by its total sums to
/// one.
pub proof fn law_totals_are_row_sums(i: usize, dims: nat, side: usize)
    requires
        i < cells_of(side as nat, dims) <= usize::MAX,
    ensures
        adjacency_sum(i, dims, side, cells_of(side as nat, dims)) == exits(
            i,
            offsets_of(dims),
            dims,
            side,
        ),
{
    let offsets = offsets_of(dims);
    assert forall|k: int| 0 <= k < offsets.len() implies is_offset(#[trigger] offsets[k], dims) by {
        assert(offsets.contains(offsets[k]));
        law_offsets_are_all_moves(dims, offsets[k]);
    }
    lemma_sums_agree(i, dims, side, cells_of(side as nat, dims));
    lemma_row_sum(i, offsets, dims, side);
}

/// From a side of three on, different offsets lead to different cells.
proof fn lemma_moves_differ(i: usize, a: Seq<i64>, b: Seq<i64>, dims: nat, side: usize)
    requires
        side >= 3,
        i < cells_of(side as nat, dims) <= usize::MAX,
        is_offset(a, dims),
        is_offset(b, dims),
        neighbor_of(i, a, dims, side) == neighbor_of(i, b, dims, side),
    ensures
        a == b,
{
    let c = decode_of(i, dims, side);
    law_encode_undoes_decode(i, dims, side);
    lemma_neighbor(i, a, dims, side);
    lemma_neighbor(i, b, dims, side);
    assert forall|k: int| 0 <= k < a.len() implies a[k] == b[k] by {
        assert(c[k] < side);
        assert(-1 <= a[k] <= 1);
        assert(-1 <= b[k] <= 1);
        lemma_shift(c[k], a[k], side);
        lemma_shift(c[k], b[k], side);
        assert(shifted(c, a, side)[k] == shifted(c, b, side)[k]);
    }
    assert(a =~= b);
}

proof fn lemma_links_once(i: usize, j: int, offsets: Seq<Seq<i64>>, dims: nat, side: usize)
    requires
        side >= 3,
        i < cells_of(side as nat, dims) <= usize::MAX,
        offsets.no_duplicates(),
        forall|k: int| 0 <= k < offsets.len() ==> is_offset(#[trigger] offsets[k], dims),
    ensures
        links(i, j, offsets, dims, side) <= 1,
    decreases offsets.len(),
{
    if offsets.len() > 0 {
        let front = offsets.drop_last();
        assert forall|k: int| 0 <= k < front.len() implies is_offset(#[trigger] front[k], dims) by {
            assert(front[k] == offsets[k]);
        }
        assert forall|p: int, q: int|
            0 <= p < front.len() && 0 <= q < front.len() && p != q implies front[p] != front[q] by {
            assert(offsets[p] != offsets[q]);
        }
        lemma_links_once(i, j, front, dims, side);
        let last = offsets.last();
        assert(offsets[offsets.len() - 1] == last);
        if neighbor_of(i, last, dims, side) == j && links(i, j, front, dims, side) > 0 {
            lemma_links_witness(i, j, front, dims, side);
            let off = choose|off: Seq<i64>| #[trigger]
                front.contains(off) && neighbor_of(i, off, dims, side) == j;
            let k = front.index_of(off);
            assert(front[k] == off);
            lemma_moves_differ(i, off, last, dims, side);
            assert(offsets[k] != offsets[offsets.len() - 1]);
        }
    }
}

/// From a side of three on, a neighbor counts once.
pub proof fn law_neighbors_count_once(i: usize, j: int, dims: nat, side: usize)
    requires
        side >= 3,
        i < cells_of(side as nat, dims) <= usize::MAX,
    ensures
        adjacency(i, j, dims, side) <= 1,
{
    let offsets = offsets_of(dims);
    law_offsets_are_distinct(dims);
    assert forall|k: int| 0 <= k < offsets.len() implies is_offset(#[trigger] offsets[k], dims) by {
        assert(offsets.contains(offsets[k]));
        law_offsets_are_all_moves(dims, offsets[k]);
    }
    lemma_links_once(i, j, offsets, dims, side);
}

/// In how many ways a step along one axis leads from `c` to `d`.
pub open spec fn ways(c: usize, d: usize, side: usize) -> nat {
    (if shift(c, -1i64, side) == d {
        1nat
    } else {
        0
    }) + (if shift(c, 0, side) == d {
        1nat
    } else {
        0
    }) + (if shift(c, 1, side) == d {
        1nat
    } else {
        0
    })
}

/// In how many ways steps along all the axes lead from `a` to `b`.
pub open spec fn all_ways(a: Seq<usize>, b: Seq<usize>, side: usize) -> nat
    decreases a.len(),
{
    if a.len() == 0 {
        1
    } else {
        all_ways(a.drop_last(), b.drop_last(), side) * ways(a.last(), b.last(), side)
    }
}

/// How many of the offsets lead from coordinates `a` to coordinates `b`.
spec fn reach(a: Seq<usize>, b: Seq<usize>, offsets: Seq<Seq<i64>>, side: usize) -> nat
    decreases offsets.len(),
{
    if offsets.len() == 0 {
        0
    } else {
        reach(a, b, offsets.drop_last(), side) + if shifted(a, offsets.last(), side) == b {
            1nat
        } else {
            0
        }
    }
}

proof fn lemma_reach_add(
    a: Seq<usize>,
    b: Seq<usize>,
    x: Seq<Seq<i64>>,
    y: Seq<Seq<i64>>,
    side: usize,
)
    ensures
        reach(a, b, x + y, side) == reach(a, b, x, side) + reach(a, b, y, side),
    decreases y.len(),
{
    if y.len() == 0 {
        assert(x + y =~= x);
    } else {
        assert((x + y).drop_last() =~= x + y.drop_last());
        lemma_reach_add(a, b, x, y.drop_last(), side);
    }
}

proof fn lemma_shifted_push(a: Seq<usize>, b: Seq<usize>, prefix: Seq<i64>, v: i64, side: usize)
    requires
        a.len() == b.len() == prefix.len() + 1,
    ensures
        shifted(a, prefix.push(v), side) == b <==> shifted(a.drop_last(), prefix, side)
            == b.drop_last() && shift(a.last(), v, side) == b.last(),
{
    let whole = shifted(a, prefix.push(v), side);
    let front = shifted(a.drop_last(), prefix, side);
    assert(whole =~= front.push(shift(a.last(), v, side)));
    assert(whole.drop_last() =~= front);
    assert(b =~= b.drop_last().push(b.last()));
}

proof fn lemma_reach_branches(a: Seq<usize>, b: Seq<usize>, prefix: Seq<i64>, side: usize)
    requires
        a.len() == b.len() == prefix.len() + 1,
    ensures
        reach(a, b, branches(prefix), side) == if shifted(a.drop_last(), prefix, side)
            == b.drop_last() {
            ways(a.last(), b.last(), side)
        } else {
            0
        },
{
    reveal_with_fuel(reach, 4);
    let all = branches(prefix);
    lemma_shifted_push(a, b, prefix, -1i64, side);
    lemma_shifted_push(a, b, prefix, 0, side);
    lemma_shifted_push(a, b, prefix, 1, side);
    assert(all.drop_last() =~= seq![prefix.push(-1i64), prefix.push(0)]);
    assert(all.drop_last().drop_last() =~= seq![prefix.push(-1i64)]);
    assert(all.drop_last().drop_last().drop_last() =~= Seq::empty());
}

proof fn lemma_reach_branched(
    a: Seq<usize>,
    b: Seq<usize>,
    prefixes: Seq<Seq<i64>>,
    side: usize,
)
    requires
        a.len() == b.len() > 0,
        forall|k: int| 0 <= k < prefixes.len() ==> (#[trigger] prefixes[k]).len() == a.len() - 1,
    ensures
        reach(a, b, branched(prefixes), side) == reach(
            a.drop_last(),
            b.drop_last(),
            prefixes,
            side,
        ) * ways(a.last(), b.last(), side),
    decreases prefixes.len(),
{
    let w = ways(a.last(), b.last(), side) as int;
    if prefixes.len() == 0 {
        assert(0 * w == 0);
    } else {
        let front = prefixes.drop_last();
        let last = prefixes.last();
        assert forall|k: int| 0 <= k < front.len() implies (#[trigger] front[k]).len() == a.len()
            - 1 by {
            assert(prefixes[k].len() == a.len() - 1);
        }
        assert(prefixes[prefixes.len() - 1].len() == a.len() - 1);
        lemma_reach_branched(a, b, front, side);
        lemma_reach_branches(a, b, last, side);
        lemma_reach_add(a, b, branched(front), branches(last), side);
        let n = reach(a.drop_last(), b.drop_last(), front, side) as int;
        assert((n + 1) * w == n * w + w) by (nonlinear_arith);
    }
}

proof fn lemma_reach_all(a: Seq<usize>, b: Seq<usize>, side: usize)
    requires
        a.len() == b.len(),
    ensures
        reach(a, b, all_offsets(a.len()), side) == all_ways(a, b, side),
    decreases a.len(),
{
    if a.len() == 0 {
        reveal_with_fuel(reach, 2);
        let all = all_offsets(0);
        assert(all.drop_last() =~= Seq::empty());
        assert(shifted(a, all.last(), side) =~= b);
    } else {
        let dims = (a.len() - 1) as nat;
        let prefixes = all_offsets(dims);
        assert forall|k: int| 0 <= k < prefixes.len() implies (#[trigger] prefixes[k]).len()
            == a.len() - 1 by {
            assert(prefixes.contains(prefixes[k]));
            lemma_all_offsets(dims, prefixes[k]);
        }
        lemma_reach_all(a.drop_last(), b.drop_last(), side);
        lemma_reach_branched(a, b, prefixes, side);
    }
}

/// Offsets that do not move lead nowhere else.
proof fn lemma_reach_moves(a: Seq<usize>, b: Seq<usize>, offsets: Seq<Seq<i64>>, side: usize)
    requires
        a != b,
        in_lattice(a, side),
        forall|k: int| 0 <= k < offsets.len() ==> is_offset(#[trigger] offsets[k], a.len()),
    ensures
        reach(a, b, offsets.filter(|off: Seq<i64>| is_move(off)), side) == reach(
            a,
            b,
            offsets,
            side,
        ),
    decreases offsets.len(),
{
    let keep = |off: Seq<i64>| is_move(off);
    reveal(Seq::filter);
    if offsets.len() > 0 {
        let front = offsets.drop_last();
        let last = offsets.last();
        assert forall|k: int| 0 <= k < front.len() implies is_offset(
            #[trigger] front[k],
            a.len(),
        ) by {
            assert(front[k] == offsets[k]);
        }
        assert(offsets[offsets.len() - 1] == last);
        lemma_reach_moves(a, b, front, side);
        if is_move(last) {
            let kept = front.filter(keep);
            assert(kept.push(last).drop_last() =~= kept);
        } else {
            assert forall|k: int| 0 <= k < a.len() implies #[trigger] shifted(a, last, side)[k]
                == a[k] by {
                assert(last[k] == 0);
                assert(a[k] < side);
                lemma_shift(a[k], last[k], side);
            }
            assert(shifted(a, last, side) =~= a);
        }
    }
}

proof fn lemma_links_reach(i: usize, j: usize, offsets: Seq<Seq<i64>>, dims: nat, side: usize)
    requires
        i < cells_of(side as nat, dims) <= usize::MAX,
        j < cells_of(side as nat, dims),
        forall|k: int| 0 <= k < offsets.len() ==> is_offset(#[trigger] offsets[k], dims),
    ensures
        links(i, j as int, offsets, dims, side) == reach(
            decode_of(i, dims, side),
            decode_of(j, dims, side),
            offsets,
            side,
        ),
    decreases offsets.len(),
{
    if offsets.len() > 0 {
        let front = offsets.drop_last();
        assert forall|k: int| 0 <= k < front.len() implies is_offset(#[trigger] front[k], dims) by {
            assert(front[k] == offsets[k]);
        }
        assert(offsets[offsets.len() - 1] == offsets.last());
        lemma_links_reach(i, j, front, dims, side);
        lemma_neighbor(i, offsets.last(), dims, side);
        law_encode_undoes_decode(j, dims, side);
    }
}

/// How often a cell counts as a neighbor of another: the ways along the axes
/// multiply. With two cells per axis that is two for every axis on which they
/// differ.
pub proof fn law_ways_multiply(i: usize, j: usize, dims: nat, side: usize)
    requires
        i < cells_of(side as nat, dims) <= usize::MAX,
        j < cells_of(side as nat, dims),
        i != j,
    ensures
        adjacency(i, j as int, dims, side) == all_ways(
            decode_of(i, dims, side),
            decode_of(j, dims, side),
            side,
        ),
{
    let a = decode_of(i, dims, side);
    let b = decode_of(j, dims, side);
    let all = all_offsets(dims);
    let moving = offsets_of(dims);
    law_encode_undoes_decode(i, dims, side);
    law_encode_undoes_decode(j, dims, side);
    assert forall|k: int| 0 <= k < all.len() implies is_offset(#[trigger] all[k], dims) by {
        assert(all.contains(all[k]));
        lemma_all_offsets(dims, all[k]);
    }
    assert forall|k: int| 0 <= k < moving.len() implies is_offset(#[trigger] moving[k], dims) by {
        assert(moving.contains(moving[k]));
        law_offsets_are_all_moves(dims, moving[k]);
    }
    lemma_links_reach(i, j, moving, dims, side);
    lemma_reach_moves(a, b, all, side);
    lemma_reach_all(a, b, side);
}

/// With two cells per axis there is one way to stay and there are two to the
/// other.
pub proof fn law_ways_between_two(c: usize, d: usize)
    requires
        c < 2,
        d < 2,
    ensures
        ways(c, d, 2) == if c == d {
            1nat
        } else {
            2
        },
{
    lemma_shift(c, -1i64, 2);
    lemma_shift(c, 0, 2);
    lemma_shift(c, 1, 2);
}

/// The number of cells is a power of the side: the axes multiply.
pub proof fn law_cells_multiply(side: nat, a: nat, b: nat)
    ensures
        cells_of(side, 0) == 1,
        cells_of(side, 1) == side,
        cells_of(side, a + b) == cells_of(side, a) * cells_of(side, b),
    decreases b,
{
    reveal_with_fuel(cells_of, 2);
    if b == 0 {
        assert(cells_of(side, a) * 1 == cells_of(side, a)) by (nonlinear_arith);
    } else {
        law_cells_multiply(side, a, (b - 1) as nat);
        let x = cells_of(side, a);
        let y = cells_of(side, (b - 1) as nat);
        assert(a + b - 1 == a + (b - 1));
        assert(side * (x * y) == x * (side * y)) by (nonlinear_arith);
    }
    assert(side * 1 == side);
}

/// The coordinate of a cell along an axis: the lowest digit is the first axis.
pub proof fn law_coordinates_are_digits(i: usize, dims: nat, side: usize, axis: nat)
    requires
        side > 0,
        axis < dims,
    ensures
        decode_of(i, dims, side).len() == dims,
        decode_of(i, dims, side)[axis as int] == i as int / cells_of(side as nat, axis) as int % (
        side as int),
    decreases dims,
{
    lemma_decode_len(i, dims, side);
    if axis > 0 {
        let less = (dims - 1) as nat;
        let before = (axis - 1) as nat;
        law_coordinates_are_digits(i / side, less, side, before);
        lemma_cells_grow(side as nat, before, before);
        let c = cells_of(side as nat, before) as int;
        vstd::arithmetic::div_mod::lemma_div_denominator(i as int, side as int, c);
        let rest = decode_of(i / side, less, side);
        assert(decode_of(i, dims, side)[axis as int] == rest[before as int]);
        assert((i / side) as int == i as int / side as int);
    } else {
        assert(cells_of(side as nat, 0) == 1);
        assert(i as int / 1 == i);
    }
}

proof fn lemma_decode_len(i: usize, dims: nat, side: usize)
    requires
        side > 0,
    ensures
        decode_of(i, dims, side).len() == dims,
    decreases dims,
{
    if dims > 0 {
        lemma_decode_len(i / side, (dims - 1) as nat, side);
    }
}

/// Every axis is a ring: next to a coordinate are the one below it and the one
/// above it, and the two ends are next to each other.
pub proof fn law_axes_are_rings(c: usize, d: usize, side: usize)
    requires
        c < side,
        d < side,
    ensures
        is_near(c, d, side) <==> {
            ||| d == c || d == c + 1 || c == d + 1
            ||| c == 0 && d == side - 1
            ||| d == 0 && c == side - 1
        },
        shift(c, 0, side) == c,
        c + 1 < side ==> shift(c, 1, side) == c + 1,
        shift((side - 1) as usize, 1, side) == 0,
        c > 0 ==> shift(c, -1i64, side) == c - 1,
        shift(0, -1i64, side) == side - 1,
        side >= 3 ==> ways(c, d, side) == if is_near(c, d, side) {
            1nat
        } else {
            0
        },
        side == 1 ==> ways(c, d, side) == 3,
{
    lemma_shift(c, -1i64, side);
    lemma_shift(c, 0, side);
    lemma_shift(c, 1, side);
    lemma_shift(0, -1i64, side);
    lemma_shift((side - 1) as usize, 1, side);
}

/// Whether `a` is less than `b` at the first place where they differ.
pub open spec fn is_earlier(a: Seq<i64>, b: Seq<i64>) -> bool {
    exists|k: int|
        0 <= k < a.len() && k < b.len() && #[trigger] a[k] < b[k] && forall|m: int|
            0 <= m < k ==> #[trigger] a[m] == b[m]
}

proof fn lemma_earlier_grows(a: Seq<i64>, b: Seq<i64>, x: i64, y: i64)
    ensures
        is_earlier(a, b) ==> is_earlier(a.push(x), b.push(y)),
        x < y ==> is_earlier(a.push(x), a.push(y)),
{
    if is_earlier(a, b) {
        let k = choose|k: int|
            0 <= k < a.len() && k < b.len() && #[trigger] a[k] < b[k] && forall|m: int|
                0 <= m < k ==> #[trigger] a[m] == b[m];
        let p = a.push(x);
        let q = b.push(y);
        assert(p[k] < q[k]);
        assert forall|m: int| 0 <= m < k implies #[trigger] p[m] == q[m] by {
            assert(a[m] == b[m]);
        }
    }
    if x < y {
        let p = a.push(x);
        let q = a.push(y);
        assert(p[a.len() as int] < q[a.len() as int]);
    }
}

proof fn lemma_branched_entry(prefixes: Seq<Seq<i64>>, i: int)
    requires
        0 <= i < branched(prefixes).len(),
    ensures
        branched(prefixes).len() == 3 * prefixes.len(),
        branched(prefixes)[i] == prefixes[i / 3].push((i % 3 - 1) as i64),
    decreases prefixes.len(),
{
    lemma_branched(prefixes, Seq::empty());
    if prefixes.len() > 0 {
        let front = prefixes.drop_last();
        lemma_branched(front, Seq::empty());
        let n = branched(front).len() as int;
        if i < n {
            lemma_branched_entry(front, i);
            assert(front[i / 3] == prefixes[i / 3]);
        } else {
            assert(i / 3 == front.len());
            assert(i % 3 == i - n);
            assert(branched(prefixes)[i] == branches(prefixes.last())[i - n]);
        }
    }
}

proof fn lemma_all_ascend(dims: nat, i: int, j: int)
    requires
        0 <= i < j < all_offsets(dims).len(),
    ensures
        is_earlier(all_offsets(dims)[i], all_offsets(dims)[j]),
    decreases dims,
{
    if dims > 0 {
        let prefixes = all_offsets((dims - 1) as nat);
        lemma_branched_entry(prefixes, i);
        lemma_branched_entry(prefixes, j);
        let p = i / 3;
        let q = j / 3;
        if p < q {
            lemma_all_ascend((dims - 1) as nat, p, q);
        }
        lemma_earlier_grows(prefixes[p], prefixes[q], (i % 3 - 1) as i64, (j % 3 - 1) as i64);
    }
}

proof fn lemma_filter_places(s: Seq<Seq<i64>>, keep: spec_fn(Seq<i64>) -> bool, i: int, j: int)
    requires
        0 <= i < j < s.filter(keep).len(),
    ensures
        exists|p: int, q: int|
            0 <= p < q < s.len() && #[trigger] s[p] == s.filter(keep)[i] && #[trigger] s[q]
                == s.filter(keep)[j],
    decreases s.len(),
{
    reveal(Seq::filter);
    if s.len() > 0 {
        let front = s.drop_last();
        let kept = front.filter(keep);
        if j < kept.len() {
            lemma_filter_places(front, keep, i, j);
            let (p, q) = choose|p: int, q: int|
                0 <= p < q < front.len() && #[trigger] front[p] == kept[i] && #[trigger] front[q]
                    == kept[j];
            assert(s[p] == s.filter(keep)[i] && s[q] == s.filter(keep)[j]);
        } else {
            assert(kept.contains(kept[i]));
            lemma_filter_members(front, keep, kept[i]);
            let p = front.index_of(kept[i]);
            assert(s[p] == s.filter(keep)[i] && s[s.len() - 1] == s.filter(keep)[j]);
        }
    }
}

/// The offsets are listed in ascending order, the first axis counting most.
pub proof fn law_offsets_ascend(dims: nat, i: int, j: int)
    requires
        0 <= i < j < offsets_of(dims).len(),
    ensures
        is_earlier(offsets_of(dims)[i], offsets_of(dims)[j]),
{
    let all = all_offsets(dims);
    let keep = |off: Seq<i64>| is_move(off);
    lemma_filter_places(all, keep, i, j);
    let (p, q) = choose|p: int, q: int|
        0 <= p < q < all.len() && #[trigger] all[p] == all.filter(keep)[i] && #[trigger] all[q]
            == all.filter(keep)[j];
    lemma_all_ascend(dims, p, q);
}

} // verus!
