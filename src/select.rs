use vstd::prelude::*;
use vstd::arithmetic::div_mod::lemma_div_is_ordered;
use vstd::set_lib::{lemma_int_range, lemma_len_subset, set_int_range};

verus! {

/// Draws are taken uniformly from `0..DRAW_RANGE`; a draw `d` stands for the
/// fraction `d / DRAW_RANGE` of the unit interval.
pub const DRAW_RANGE: u32 = 65536;

/// How many draws `next` takes for each item it must return.
pub const DRAWS_PER_ITEM: usize = 32;

/// Relies on `rand::Rng::gen_range` with `rand::thread_rng()`: a draw from
/// `0..bound`. It panics only on an empty range.
#[verifier::external_body]
pub(crate) fn draw_below(bound: u32) -> (r: u32)
    requires
        0 < bound,
    ensures
        r < bound,
{
    rand::Rng::gen_range(&mut rand::thread_rng(), 0..bound)
}

/// The index among `len` items that the draw `d` selects.
///
/// With `x = d / DRAW_RANGE`, the point `y = x` for `x <= 1/4` and
/// `y = (x - 1/10)^3 + 1/4` above, and the index is `floor(y * len)`: a
/// monotone warp that piles the draws up at the front (the best-rated end)
/// of the ranking.
pub open spec fn warp(d: int, len: int) -> int {
    let r = DRAW_RANGE as int;
    if 4 * d <= r {
        d * len / r
    } else {
        let c = 10 * d - r;
        len * (c * c * c + 250 * r * r * r) / (1000 * r * r * r)
    }
}

/// The integers of a sequence of indices.
pub open spec fn ints(s: Seq<usize>) -> Seq<int> {
    s.map_values(|i: usize| i as int)
}

/// The distinct indices that the draws select, in order, stopping at `n`.
pub open spec fn collect(draws: Seq<u32>, len: int, n: int) -> Seq<int>
    decreases draws.len(),
{
    if draws.len() == 0 {
        seq![]
    } else {
        let c = collect(draws.drop_last(), len, n);
        let i = warp((draws.last() % DRAW_RANGE) as int, len);
        if c.len() < n && !c.contains(i) {
            c.push(i)
        } else {
            c
        }
    }
}

/// `c` topped up to `n` entries with the smallest indices from `k` on that it
/// lacks.
pub open spec fn fill(c: Seq<int>, k: int, len: int, n: int) -> Seq<int>
    decreases len - k,
{
    if c.len() >= n || k >= len {
        c
    } else if c.contains(k) {
        fill(c, k + 1, len, n)
    } else {
        fill(c.push(k), k + 1, len, n)
    }
}

/// The `n` indices among `len` items that selection returns for the draws.
pub open spec fn pick(draws: Seq<u32>, len: int, n: int) -> Seq<int> {
    fill(collect(draws, len, n), 0, len, n)
}

/// Indices below `len`, none twice.
pub open spec fn distinct_below(c: Seq<int>, len: int) -> bool {
    &&& c.no_duplicates()
    &&& forall|k: int| 0 <= k < c.len() ==> 0 <= #[trigger] c[k] < len
}

/// A draw selects an index among the items.
pub proof fn lemma_warp_bounds(d: int, len: int)
    requires
        0 <= d < DRAW_RANGE,
        0 < len,
    ensures
        0 <= warp(d, len) < len,
{
    let r = DRAW_RANGE as int;
    if 4 * d <= r {
        assert(0 <= d * len) by (nonlinear_arith)
            requires
                0 <= d,
                0 < len,
        ;
        assert(d * len < r * len) by (nonlinear_arith)
            requires
                d < r,
                0 < len,
        ;
        assert(d * len / r < len) by (nonlinear_arith)
            requires
                d * len < r * len,
                0 < r,
        ;
        assert(0 <= d * len / r) by (nonlinear_arith)
            requires
                0 <= d * len,
                0 < r,
        ;
    } else {
        let c = 10 * d - r;
        let big = 1000 * r * r * r;
        let top = c * c * c + 250 * r * r * r;
        assert(0 < c < 9 * r);
        assert(0 < c * c * c < 729 * r * r * r) by (nonlinear_arith)
            requires
                0 < c < 9 * r,
        ;
        assert(0 < top < big);
        assert(len * top < len * big) by (nonlinear_arith)
            requires
                0 < top < big,
                0 < len,
        ;
        assert(0 <= len * top) by (nonlinear_arith)
            requires
                0 < top,
                0 < len,
        ;
        assert(len * top / big < len) by (nonlinear_arith)
            requires
                len * top < len * big,
                0 < big,
        ;
        assert(0 <= len * top / big) by (nonlinear_arith)
            requires
                0 <= len * top,
                0 < big,
        ;
    }
}

/// The warp is monotone: a larger draw never selects an earlier index.
pub proof fn lemma_warp_monotone(d1: int, d2: int, len: int)
    requires
        0 <= d1 <= d2 < DRAW_RANGE,
        0 < len,
    ensures
        warp(d1, len) <= warp(d2, len),
{
    let r = DRAW_RANGE as int;
    let big = 1000 * r * r * r;
    assert(big == 250 * r * r * r * 4) by (nonlinear_arith)
        requires
            big == 1000 * r * r * r,
    ;
    if 4 * d2 <= r {
        assert(d1 * len <= d2 * len) by (nonlinear_arith)
            requires
                d1 <= d2,
                0 < len,
        ;
        lemma_div_is_ordered(d1 * len, d2 * len, r);
    } else if 4 * d1 > r {
        let c1 = 10 * d1 - r;
        let c2 = 10 * d2 - r;
        assert(c1 * c1 * c1 <= c2 * c2 * c2) by (nonlinear_arith)
            requires
                0 < c1 <= c2,
        ;
        assert(len * (c1 * c1 * c1 + 250 * r * r * r) <= len * (c2 * c2 * c2 + 250 * r * r * r))
            by (nonlinear_arith)
            requires
                c1 * c1 * c1 <= c2 * c2 * c2,
                0 < len,
        ;
        lemma_div_is_ordered(
            len * (c1 * c1 * c1 + 250 * r * r * r),
            len * (c2 * c2 * c2 + 250 * r * r * r),
            big,
        );
    } else {
        // d1 lies in the linear part, d2 in the cubic one; both sides are
        // compared with the quarter of the items.
        let c2 = 10 * d2 - r;
        assert(d1 * len * 4 <= r * len) by (nonlinear_arith)
            requires
                4 * d1 <= r,
                0 < len,
        ;
        assert(d1 * len / r <= len / 4) by (nonlinear_arith)
            requires
                d1 * len * 4 <= r * len,
                r == 65536,
                0 <= d1,
                0 < len,
        ;
        assert(0 < c2 * c2 * c2) by (nonlinear_arith)
            requires
                0 < c2,
        ;
        assert(len * 250 * r * r * r <= len * (c2 * c2 * c2 + 250 * r * r * r)) by (nonlinear_arith)
            requires
                0 < c2 * c2 * c2,
                0 < len,
        ;
        assert((len * 250 * r * r * r) / big == len / 4) by (nonlinear_arith)
            requires
                big == 250 * r * r * r * 4,
                r == 65536,
        ;
        lemma_div_is_ordered(len * 250 * r * r * r, len * (c2 * c2 * c2 + 250 * r * r * r), big);
    }
}

/// Computes [`warp`] for a draw below `DRAW_RANGE`.
pub fn warp_index(d: u32, len: usize) -> (r: usize)
    requires
        d < DRAW_RANGE,
        0 < len,
    ensures
        r == warp(d as int, len as int),
        r < len,
{
    proof {
        lemma_warp_bounds(d as int, len as int);
    }
    let r: u128 = 65536;
    let dd: u128 = d as u128;
    let n: u128 = len as u128;
    if 4 * dd <= r {
        assert(dd * n <= 65536 * 0x1_0000_0000_0000_0000) by (nonlinear_arith)
            requires
                dd < 65536,
                n < 0x1_0000_0000_0000_0000,
        ;
        (dd * n / r) as usize
    } else {
        let c: u128 = 10 * dd - r;
        assert(c < 0x10_0000);
        assert(c * c <= 0x100_0000_0000) by (nonlinear_arith)
            requires
                c < 0x10_0000,
        ;
        assert(c * c * c <= 0x1000_0000_0000_0000) by (nonlinear_arith)
            requires
                c < 0x10_0000,
                c * c <= 0x100_0000_0000,
        ;
        let top: u128 = c * c * c + 250 * 281474976710656;
        assert(n * top <= 0x1_0000_0000_0000_0000 * 0x2000_0000_0000_0000) by (nonlinear_arith)
            requires
                n < 0x1_0000_0000_0000_0000,
                top < 0x2000_0000_0000_0000,
        ;
        assert(r * r * r == 281474976710656) by (nonlinear_arith)
            requires
                r == 65536,
        ;
        let scaled: u128 = n * top;
        let q: u128 = scaled / 281474976710656000;
        q as usize
    }
}

/// Whether `k` is among the indices of `c`.
fn holds_index(c: &Vec<usize>, k: usize) -> (b: bool)
    ensures
        b == ints(c@).contains(k as int),
{
    let mut i: usize = 0;
    while i < c.len()
        invariant
            i <= c.len(),
            forall|j: int| 0 <= j < i ==> c@[j] != k,
        decreases c.len() - i,
    {
        if c[i] == k {
            assert(ints(c@)[i as int] == k as int);
            return true;
        }
        i = i + 1;
    }
    proof {
        if ints(c@).contains(k as int) {
            let j = choose|j: int| 0 <= j < ints(c@).len() && ints(c@)[j] == k as int;
            assert(c@[j] == k);
        }
    }
    false
}

/// `collect` keeps its indices distinct and below `len`, and stops at `n`.
pub proof fn lemma_collect(draws: Seq<u32>, len: int, n: int)
    requires
        n <= len,
    ensures
        distinct_below(collect(draws, len, n), len),
        collect(draws, len, n).len() <= if n < 0 { 0 } else { n },
    decreases draws.len(),
{
    if draws.len() > 0 {
        lemma_collect(draws.drop_last(), len, n);
        let c = collect(draws.drop_last(), len, n);
        let i = warp((draws.last() % DRAW_RANGE) as int, len);
        if c.len() < n && !c.contains(i) {
            lemma_warp_bounds((draws.last() % DRAW_RANGE) as int, len);
            let p = c.push(i);
            assert forall|a: int, b: int| 0 <= a < b < p.len() implies p[a] != p[b] by {
                if b == c.len() {
                    assert(c.contains(c[a]));
                }
            }
            assert forall|k: int| 0 <= k < p.len() implies 0 <= #[trigger] p[k] < len by {
                if k < c.len() {
                    assert(p[k] == c[k]);
                }
            }
        }
    }
}

/// `fill` keeps its indices distinct and below `len`, and reaches `n`.
pub proof fn lemma_fill(c: Seq<int>, k: int, len: int, n: int)
    requires
        distinct_below(c, len),
        0 <= k <= len,
        0 <= n <= len,
        c.len() <= n,
        forall|j: int| 0 <= j < k ==> c.contains(j),
    ensures
        distinct_below(fill(c, k, len, n), len),
        fill(c, k, len, n).len() == n,
    decreases len - k,
{
    if c.len() >= n {
    } else if k >= len {
        assert(c.to_set().subset_of(set_int_range(0, len)));
        assert(set_int_range(0, len).subset_of(c.to_set()));
        lemma_int_range(0, len);
        c.unique_seq_to_set();
        lemma_len_subset(set_int_range(0, len), c.to_set());
    } else if c.contains(k) {
        lemma_fill(c, k + 1, len, n);
    } else {
        let p = c.push(k);
        assert forall|a: int, b: int| 0 <= a < b < p.len() implies p[a] != p[b] by {
            if b == c.len() {
                assert(c.contains(c[a]));
            }
        }
        assert forall|j: int| 0 <= j < p.len() implies 0 <= #[trigger] p[j] < len by {
            if j < c.len() {
                assert(p[j] == c[j]);
            }
        }
        assert forall|j: int| 0 <= j < k + 1 implies p.contains(j) by {
            if j < k {
                assert(c.contains(j));
                let q = choose|q: int| 0 <= q < c.len() && c[q] == j;
                assert(p[q] == j);
            } else {
                assert(p[c.len() as int] == j);
            }
        }
        lemma_fill(p, k + 1, len, n);
    }
}

/// The selection for any draws is `n` distinct indices below `len`.
pub proof fn lemma_pick(draws: Seq<u32>, len: int, n: int)
    requires
        0 <= n <= len,
    ensures
        distinct_below(pick(draws, len, n), len),
        pick(draws, len, n).len() == n,
{
    lemma_collect(draws, len, n);
    lemma_fill(collect(draws, len, n), 0, len, n);
}

/// The `n` indices among `len` items that the draws select: the distinct
/// indices that the draws warp to, in order, topped up with the smallest
/// indices left.
pub fn pick_indices(draws: &[u32], len: usize, n: usize) -> (r: Vec<usize>)
    requires
        n <= len,
    ensures
        ints(r@) == pick(draws@, len as int, n as int),
        distinct_below(ints(r@), len as int),
        r@.len() == n,
{
    let mut r: Vec<usize> = Vec::new();
    let mut i: usize = 0;
    while i < draws.len()
        invariant
            n <= len,
            i <= draws.len(),
            ints(r@) == collect(draws@.take(i as int), len as int, n as int),
        decreases draws.len() - i,
    {
        proof {
            lemma_collect(draws@.take(i as int), len as int, n as int);
        }
        assert(draws@.take(i as int + 1).drop_last() =~= draws@.take(i as int));
        if r.len() < n {
            let d = draws[i] % DRAW_RANGE;
            let k = warp_index(d, len);
            if !holds_index(&r, k) {
                r.push(k);
                assert(ints(r@) =~= collect(draws@.take(i as int), len as int, n as int).push(
                    k as int,
                ));
            }
        }
        i = i + 1;
    }
    assert(draws@.take(i as int) =~= draws@);
    proof {
        lemma_collect(draws@, len as int, n as int);
    }
    let mut k: usize = 0;
    while r.len() < n && k < len
        invariant
            n <= len,
            k <= len,
            fill(ints(r@), k as int, len as int, n as int) == pick(draws@, len as int, n as int),
        decreases len - k,
    {
        if !holds_index(&r, k) {
            let ghost before = ints(r@);
            r.push(k);
            assert(ints(r@) =~= before.push(k as int));
        }
        k = k + 1;
    }
    proof {
        lemma_pick(draws@, len as int, n as int);
    }
    r
}

} // verus!
