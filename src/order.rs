use vstd::prelude::*;
use crate::item::{HumansortItem, Rated};

verus! {

/// Where a rating stands in the order of ratings, from its single-precision
/// bit pattern. Two ordinary numbers compare as their ranks do, and both
/// zeros have rank 0; NaN patterns rank beyond the infinities.
pub open spec fn rank(bits: u32) -> int {
    if bits < 0x8000_0000 {
        bits as int
    } else {
        0x8000_0000 - bits
    }
}

/// Computes [`rank`].
pub fn rank_of(bits: u32) -> (r: i64)
    ensures
        r == rank(bits),
{
    if bits < 0x8000_0000 {
        bits as i64
    } else {
        0x8000_0000i64 - bits as i64
    }
}

/// The models of a sequence of items.
pub open spec fn views(s: Seq<HumansortItem>) -> Seq<Rated> {
    s.map_values(|i: HumansortItem| i@)
}

/// No two entries share a value.
pub open spec fn distinct_values(s: Seq<Rated>) -> bool {
    forall|i: int, j: int| 0 <= i < j < s.len() ==> s[i].0 != s[j].0
}

/// Ratings never increase along the sequence.
pub open spec fn sorted_desc(s: Seq<Rated>) -> bool {
    forall|i: int, j: int| 0 <= i < j < s.len() ==> rank(s[i].1) >= rank(s[j].1)
}

/// `x` placed after every entry of `s` rated at least as high, and before
/// the rest.
pub open spec fn insert_desc(s: Seq<Rated>, x: Rated) -> Seq<Rated>
    decreases s.len(),
{
    if s.len() == 0 {
        seq![x]
    } else if rank(s[0].1) < rank(x.1) {
        seq![x] + s
    } else {
        seq![s[0]] + insert_desc(s.drop_first(), x)
    }
}

/// `s` sorted by descending rating; entries with equal ratings keep their
/// relative order.
pub open spec fn sort_desc(s: Seq<Rated>) -> Seq<Rated>
    decreases s.len(),
{
    if s.len() == 0 {
        s
    } else {
        insert_desc(sort_desc(s.drop_last()), s.last())
    }
}

/// The place where `insert_desc` puts `x`.
pub open spec fn insert_pos(s: Seq<Rated>, x: Rated) -> int
    decreases s.len(),
{
    if s.len() == 0 {
        0
    } else if rank(s[0].1) < rank(x.1) {
        0
    } else {
        1 + insert_pos(s.drop_first(), x)
    }
}

/// Inserting at the first entry rated below `x` is what `insert_desc` does.
pub proof fn lemma_insert_at(s: Seq<Rated>, x: Rated, p: int)
    requires
        0 <= p <= s.len(),
        forall|k: int| 0 <= k < p ==> rank(s[k].1) >= rank(x.1),
        p < s.len() ==> rank(s[p].1) < rank(x.1),
    ensures
        insert_desc(s, x) == s.insert(p, x),
        insert_pos(s, x) == p,
    decreases s.len(),
{
    if s.len() == 0 {
        assert(insert_desc(s, x) =~= s.insert(p, x));
    } else if p == 0 {
        assert(insert_desc(s, x) =~= s.insert(p, x));
    } else {
        let t = s.drop_first();
        assert forall|k: int| 0 <= k < p - 1 implies rank(t[k].1) >= rank(x.1) by {
            assert(t[k] == s[k + 1]);
        }
        lemma_insert_at(t, x, p - 1);
        assert(insert_desc(s, x) =~= s.insert(p, x));
    }
}

/// `insert_pos` is the first entry rated below `x`.
pub proof fn lemma_insert_pos(s: Seq<Rated>, x: Rated)
    ensures
        0 <= insert_pos(s, x) <= s.len(),
        forall|k: int| 0 <= k < insert_pos(s, x) ==> rank(s[k].1) >= rank(x.1),
        insert_pos(s, x) < s.len() ==> rank(s[insert_pos(s, x)].1) < rank(x.1),
        insert_desc(s, x) == s.insert(insert_pos(s, x), x),
    decreases s.len(),
{
    if s.len() > 0 && rank(s[0].1) >= rank(x.1) {
        let t = s.drop_first();
        lemma_insert_pos(t, x);
        assert forall|k: int| 0 <= k < insert_pos(s, x) implies rank(s[k].1) >= rank(x.1) by {
            if k > 0 {
                assert(s[k] == t[k - 1]);
            }
        }
    }
    lemma_insert_at(s, x, insert_pos(s, x));
}

/// Inserting into a sorted sequence keeps it sorted.
pub proof fn lemma_insert_sorted(s: Seq<Rated>, x: Rated)
    requires
        sorted_desc(s),
    ensures
        sorted_desc(insert_desc(s, x)),
{
    lemma_insert_pos(s, x);
    let p = insert_pos(s, x);
    let r = insert_desc(s, x);
    assert forall|i: int, j: int| 0 <= i < j < r.len() implies rank(r[i].1) >= rank(r[j].1) by {
        if j > p && p < s.len() {
            assert(rank(s[p].1) >= rank(s[j - 1].1));
        }
    }
}

/// Inserting adds exactly `x`.
pub proof fn lemma_insert_contents(s: Seq<Rated>, x: Rated)
    ensures
        insert_desc(s, x).len() == s.len() + 1,
        forall|y: Rated| #[trigger] insert_desc(s, x).contains(y) <==> (s.contains(y) || y == x),
        distinct_values(s) && !s.map_values(|e: Rated| e.0).contains(x.0) ==> distinct_values(
            insert_desc(s, x),
        ),
{
    lemma_insert_pos(s, x);
    let p = insert_pos(s, x);
    let r = insert_desc(s, x);
    assert forall|y: Rated| r.contains(y) implies (s.contains(y) || y == x) by {
        let k = choose|k: int| 0 <= k < r.len() && r[k] == y;
        if k < p {
            assert(s[k] == y);
        } else if k > p {
            assert(s[k - 1] == y);
        }
    }
    assert forall|y: Rated| (s.contains(y) || y == x) implies r.contains(y) by {
        if y == x {
            assert(r[p] == y);
        } else {
            let k = choose|k: int| 0 <= k < s.len() && s[k] == y;
            if k < p {
                assert(r[k] == y);
            } else {
                assert(r[k + 1] == y);
            }
        }
    }
    if distinct_values(s) && !s.map_values(|e: Rated| e.0).contains(x.0) {
        assert forall|i: int, j: int| 0 <= i < j < r.len() implies r[i].0 != r[j].0 by {
            if i == p {
                assert(s.map_values(|e: Rated| e.0)[j - 1] == r[j].0);
            } else if j == p {
                assert(s.map_values(|e: Rated| e.0)[i] == r[i].0);
            }
        }
    }
}

/// Sorting yields a sorted sequence with the same entries.
pub proof fn lemma_sort(s: Seq<Rated>)
    ensures
        sorted_desc(sort_desc(s)),
        sort_desc(s).len() == s.len(),
        forall|y: Rated| #[trigger] sort_desc(s).contains(y) <==> s.contains(y),
        distinct_values(s) ==> distinct_values(sort_desc(s)),
    decreases s.len(),
{
    if s.len() > 0 {
        let t = s.drop_last();
        let x = s.last();
        lemma_sort(t);
        lemma_insert_sorted(sort_desc(t), x);
        lemma_insert_contents(sort_desc(t), x);
        assert(s == t.push(x));
        assert forall|y: Rated| s.contains(y) <==> (t.contains(y) || y == x) by {
            if s.contains(y) && y != x {
                let k = choose|k: int| 0 <= k < s.len() && s[k] == y;
                assert(t[k] == y);
            }
            if t.contains(y) {
                let k = choose|k: int| 0 <= k < t.len() && t[k] == y;
                assert(s[k] == y);
            }
        }
        if distinct_values(s) {
            assert(distinct_values(t));
            if sort_desc(t).map_values(|e: Rated| e.0).contains(x.0) {
                let vs = sort_desc(t).map_values(|e: Rated| e.0);
                let k = choose|k: int| 0 <= k < vs.len() && vs[k] == x.0;
                assert(sort_desc(t).contains(sort_desc(t)[k]));
                let y = sort_desc(t)[k];
                assert(t.contains(y));
                let m = choose|m: int| 0 <= m < t.len() && t[m] == y;
                assert(s[m].0 == s[s.len() - 1].0);
            }
        }
    }
}

/// A sorted sequence is its own sort.
pub proof fn lemma_sort_sorted(s: Seq<Rated>)
    requires
        sorted_desc(s),
    ensures
        sort_desc(s) == s,
    decreases s.len(),
{
    if s.len() > 0 {
        let t = s.drop_last();
        assert(sorted_desc(t));
        lemma_sort_sorted(t);
        lemma_insert_at(t, s.last(), t.len() as int);
        assert(t.insert(t.len() as int, s.last()) =~= s);
    }
}

/// Puts `x` into `v` after every item rated at least as high.
pub(crate) fn insert_by_rating(v: &mut Vec<HumansortItem>, x: HumansortItem)
    ensures
        views(final(v)@) == insert_desc(views(old(v)@), x@),
{
    let k = rank_of(x.rating_bits());
    let mut p: usize = 0;
    while p < v.len() && rank_of(v[p].rating_bits()) >= k
        invariant
            p <= v.len(),
            k == rank(x@.1),
            forall|q: int| 0 <= q < p ==> rank(v@[q]@.1) >= rank(x@.1),
        decreases v.len() - p,
    {
        p = p + 1;
    }
    proof {
        lemma_insert_at(views(v@), x@, p as int);
    }
    let ghost before = v@;
    v.insert(p, x);
    assert(views(v@) =~= views(before).insert(p as int, x@));
}

/// The items of `v`, sorted by descending rating; items with equal ratings
/// keep their relative order.
pub fn sort_by_rating(v: &Vec<HumansortItem>) -> (r: Vec<HumansortItem>)
    ensures
        views(r@) == sort_desc(views(v@)),
{
    let mut r: Vec<HumansortItem> = Vec::new();
    let mut i: usize = 0;
    while i < v.len()
        invariant
            i <= v.len(),
            views(r@) == sort_desc(views(v@).take(i as int)),
        decreases v.len() - i,
    {
        let x = v[i].copy();
        insert_by_rating(&mut r, x);
        assert(views(v@).take(i as int + 1).drop_last() =~= views(v@).take(i as int));
        i = i + 1;
    }
    assert(views(v@).take(i as int) =~= views(v@));
    r
}

} // verus!
