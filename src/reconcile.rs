use vstd::prelude::*;
use crate::item::{Rated, ZERO_RATING};
use crate::order::{distinct_values, lemma_sort, sort_desc, sorted_desc};
use crate::state::{strs, values_of};

verus! {

/// The lines of a list that name items: all but the empty ones, in order.
pub open spec fn non_blank(lines: Seq<Seq<char>>) -> Seq<Seq<char>>
    decreases lines.len(),
{
    if lines.len() == 0 {
        seq![]
    } else {
        let d = non_blank(lines.drop_last());
        if lines.last().len() == 0 {
            d
        } else {
            d.push(lines.last())
        }
    }
}

/// The item names of a list file's lines: the lines that are not empty, in
/// order.
pub fn non_blank_lines(lines: &[String]) -> (r: Vec<String>)
    ensures
        strs(r@) == non_blank(strs(lines@)),
{
    let mut r: Vec<String> = Vec::new();
    let mut i: usize = 0;
    while i < lines.len()
        invariant
            i <= lines@.len(),
            strs(r@) == non_blank(strs(lines@).take(i as int)),
        decreases lines@.len() - i,
    {
        assert(strs(lines@).take(i as int + 1).drop_last() =~= strs(lines@).take(i as int));
        assert(strs(lines@).take(i as int + 1).last() == lines@[i as int]@);
        if !lines[i].as_str().is_empty() {
            let ghost prev = r@;
            r.push(lines[i].clone());
            assert(strs(r@) =~= strs(prev).push(lines@[i as int]@));
        }
        i = i + 1;
    }
    assert(strs(lines@).take(i as int) =~= strs(lines@));
    r
}

/// The names of `names` that are not in `taken`, each once, in the order of
/// their first appearance.
pub open spec fn fresh_names(taken: Seq<Seq<char>>, names: Seq<Seq<char>>) -> Seq<Seq<char>>
    decreases names.len(),
{
    if names.len() == 0 {
        seq![]
    } else {
        let d = fresh_names(taken, names.drop_last());
        let x = names.last();
        if taken.contains(x) || d.contains(x) {
            d
        } else {
            d.push(x)
        }
    }
}

/// Each name of `names` once, in the order of its first appearance.
pub open spec fn first_seen(names: Seq<Seq<char>>) -> Seq<Seq<char>> {
    fresh_names(seq![], names)
}

/// New items with the given values, all rated zero.
pub open spec fn unrated(vals: Seq<Seq<char>>) -> Seq<Rated> {
    vals.map_values(|v: Seq<char>| (v, ZERO_RATING))
}

/// The entries of `s` whose value is among `names`, in their order.
pub open spec fn kept(s: Seq<Rated>, names: Seq<Seq<char>>) -> Seq<Rated>
    decreases s.len(),
{
    if s.len() == 0 {
        s
    } else {
        let k = kept(s.drop_last(), names);
        if names.contains(s.last().0) {
            k.push(s.last())
        } else {
            k
        }
    }
}

/// The items `s` reconciled with the list `names`: the items whose value is
/// listed keep their rating, the others go, listed names that are new join
/// with rating zero, and the result is sorted by descending rating.
pub open spec fn merged(s: Seq<Rated>, names: Seq<Seq<char>>) -> Seq<Rated> {
    sort_desc(kept(s, names) + unrated(fresh_names(values_of(s), names)))
}

/// What `fresh_names` holds.
pub proof fn lemma_fresh(taken: Seq<Seq<char>>, names: Seq<Seq<char>>)
    ensures
        fresh_names(taken, names).no_duplicates(),
        forall|x: Seq<char>|
            #[trigger] fresh_names(taken, names).contains(x) <==> (names.contains(x) && !taken.contains(x)),
    decreases names.len(),
{
    if names.len() > 0 {
        let t = names.drop_last();
        lemma_fresh(taken, t);
        assert forall|x: Seq<char>| names.contains(x) <==> (t.contains(x) || x == names.last()) by {
            if names.contains(x) && x != names.last() {
                let k = choose|k: int| 0 <= k < names.len() && names[k] == x;
                assert(t[k] == x);
            }
            if t.contains(x) {
                let k = choose|k: int| 0 <= k < t.len() && t[k] == x;
                assert(names[k] == x);
            }
            if x == names.last() {
                assert(names[names.len() - 1] == x);
            }
        }
        let d = fresh_names(taken, t);
        let x = names.last();
        if !(taken.contains(x) || d.contains(x)) {
            let p = d.push(x);
            assert forall|y: Seq<char>| p.contains(y) <==> (d.contains(y) || y == x) by {
                if p.contains(y) && y != x {
                    let k = choose|k: int| 0 <= k < p.len() && p[k] == y;
                    assert(d[k] == y);
                }
                if d.contains(y) {
                    let k = choose|k: int| 0 <= k < d.len() && d[k] == y;
                    assert(p[k] == y);
                }
                if y == x {
                    assert(p[d.len() as int] == y);
                }
            }
            assert forall|a: int, b: int| 0 <= a < p.len() && 0 <= b < p.len() && a != b implies p[a]
                != p[b] by {
                if a == d.len() {
                    assert(d.contains(p[b]));
                } else if b == d.len() {
                    assert(d.contains(p[a]));
                }
            }
        }
    }
}

/// What `unrated` holds.
pub proof fn lemma_unrated(vals: Seq<Seq<char>>)
    ensures
        values_of(unrated(vals)) == vals,
        sorted_desc(unrated(vals)),
        vals.no_duplicates() ==> distinct_values(unrated(vals)),
        forall|y: Rated| #[trigger] unrated(vals).contains(y) <==> (vals.contains(y.0) && y.1 == ZERO_RATING),
{
    assert(values_of(unrated(vals)) =~= vals);
    let u = unrated(vals);
    assert forall|y: Rated| u.contains(y) <==> (vals.contains(y.0) && y.1 == ZERO_RATING) by {
        if u.contains(y) {
            let k = choose|k: int| 0 <= k < u.len() && u[k] == y;
            assert(vals[k] == y.0);
        }
        if vals.contains(y.0) && y.1 == ZERO_RATING {
            let k = choose|k: int| 0 <= k < vals.len() && vals[k] == y.0;
            assert(u[k] == y);
        }
    }
}

/// What `kept` holds.
pub proof fn lemma_kept(s: Seq<Rated>, names: Seq<Seq<char>>)
    ensures
        forall|y: Rated| #[trigger] kept(s, names).contains(y) <==> (s.contains(y) && names.contains(y.0)),
        distinct_values(s) ==> distinct_values(kept(s, names)),
        (forall|k: int| 0 <= k < s.len() ==> names.contains(#[trigger] s[k].0)) ==> kept(s, names)
            == s,
    decreases s.len(),
{
    if s.len() > 0 {
        let t = s.drop_last();
        let x = s.last();
        lemma_kept(t, names);
        assert forall|y: Rated| s.contains(y) <==> (t.contains(y) || y == x) by {
            if s.contains(y) && y != x {
                let k = choose|k: int| 0 <= k < s.len() && s[k] == y;
                assert(t[k] == y);
            }
            if t.contains(y) {
                let k = choose|k: int| 0 <= k < t.len() && t[k] == y;
                assert(s[k] == y);
            }
            if y == x {
                assert(s[s.len() - 1] == y);
            }
        }
        let k = kept(t, names);
        if names.contains(x.0) {
            let p = k.push(x);
            assert forall|y: Rated| p.contains(y) <==> (k.contains(y) || y == x) by {
                if p.contains(y) && y != x {
                    let j = choose|j: int| 0 <= j < p.len() && p[j] == y;
                    assert(k[j] == y);
                }
                if k.contains(y) {
                    let j = choose|j: int| 0 <= j < k.len() && k[j] == y;
                    assert(p[j] == y);
                }
                if y == x {
                    assert(p[k.len() as int] == y);
                }
            }
            if distinct_values(s) {
                assert(distinct_values(t));
                assert forall|a: int, b: int| 0 <= a < b < p.len() implies p[a].0 != p[b].0 by {
                    if b == k.len() {
                        assert(k.contains(k[a]));
                        assert(t.contains(k[a]));
                        let m = choose|m: int| 0 <= m < t.len() && t[m] == k[a];
                        assert(s[m] == k[a]);
                        assert(s[m].0 != s[s.len() - 1].0);
                    }
                }
            }
        }
        if forall|j: int| 0 <= j < s.len() ==> names.contains(#[trigger] s[j].0) {
            assert forall|j: int| 0 <= j < t.len() implies names.contains(#[trigger] t[j].0) by {
                assert(s[j] == t[j]);
            }
            assert(names.contains(s[s.len() - 1].0));
            assert(k.push(x) =~= s);
        }
    }
}

/// Reconciling gives a sorted sequence with distinct values.
pub proof fn lemma_merged(s: Seq<Rated>, names: Seq<Seq<char>>)
    requires
        distinct_values(s),
    ensures
        distinct_values(merged(s, names)),
        sorted_desc(merged(s, names)),
{
    let k = kept(s, names);
    let f = fresh_names(values_of(s), names);
    let u = unrated(f);
    let c = k + u;
    lemma_kept(s, names);
    lemma_fresh(values_of(s), names);
    lemma_unrated(f);
    assert forall|a: int, b: int| 0 <= a < b < c.len() implies c[a].0 != c[b].0 by {
        if a < k.len() && b >= k.len() {
            assert(k.contains(k[a]));
            assert(s.contains(k[a]));
            let m = choose|m: int| 0 <= m < s.len() && s[m] == k[a];
            assert(values_of(s)[m] == k[a].0);
            assert(u.contains(u[b - k.len()]));
        } else if a >= k.len() {
            assert(u[a - k.len()].0 == f[a - k.len()]);
            assert(u[b - k.len()].0 == f[b - k.len()]);
        }
    }
    lemma_sort(c);
}

} // verus!
