use vstd::prelude::*;
use crate::item::{Rated, ZERO_RATING};
use crate::order::{
    distinct_values, insert_desc, insert_pos, lemma_insert_contents, lemma_insert_pos,
    lemma_insert_sorted, lemma_sort, lemma_sort_sorted, rank, sort_desc, sorted_desc,
};
use crate::reconcile::{
    first_seen, fresh_names, kept, lemma_fresh, lemma_kept, lemma_unrated, merged, unrated,
};
use crate::state::{index_of, lemma_index_of, valid_num_items, values_of, HumansortState};

verus! {

/// Some occurrence of `u` in `names` comes before every occurrence of `v`.
pub open spec fn occurs_before(names: Seq<Seq<char>>, u: Seq<char>, v: Seq<char>) -> bool {
    exists|p: int| 0 <= p < names.len() && #[trigger] names[p] == u && !names.take(p).contains(v)
}

/// A ranking built from a list of names holds each name once and no other,
/// every item rated zero, in the order in which the names first appear: of
/// two items, the earlier one's name occurs in the list before any
/// occurrence of the later one's.
pub proof fn lemma_from_items(names: Seq<Seq<char>>)
    ensures
        distinct_values(unrated(first_seen(names))),
        forall|x: Seq<char>| values_of(unrated(first_seen(names))).contains(x) <==> names.contains(x),
        forall|k: int|
            0 <= k < first_seen(names).len() ==> (#[trigger] unrated(first_seen(names))[k]).1
                == ZERO_RATING,
        forall|a: int, b: int|
            #![trigger first_seen(names)[a], first_seen(names)[b]]
            0 <= a < b < first_seen(names).len() ==> occurs_before(
                names,
                first_seen(names)[a],
                first_seen(names)[b],
            ),
    decreases names.len(),
{
    let f = first_seen(names);
    lemma_fresh(seq![], names);
    lemma_unrated(f);
    if names.len() == 0 {
        assert(f.len() == 0);
    } else {
        let t = names.drop_last();
        let x = names.last();
        let d = first_seen(t);
        lemma_from_items(t);
        lemma_fresh(seq![], t);
        assert(!Seq::<Seq<char>>::empty().contains(x));
        if d.contains(x) {
            assert(f == d);
        } else {
            assert(f == d.push(x));
        }
        assert forall|a: int, b: int|
            #![trigger first_seen(names)[a], first_seen(names)[b]]
            0 <= a < b < first_seen(names).len() implies occurs_before(
                names,
                first_seen(names)[a],
                first_seen(names)[b],
            ) by {
            assert(f[a] == d[a]);
            if b < d.len() {
                assert(f[b] == d[b]);
                assert(occurs_before(t, d[a], d[b]));
                let p = choose|p: int|
                    0 <= p < t.len() && #[trigger] t[p] == d[a] && !t.take(p).contains(d[b]);
                assert(names.take(p) =~= t.take(p));
                assert(names[p] == f[a]);
            } else {
                assert(f[b] == x);
                assert(!d.contains(x));
                assert(!t.contains(x));
                assert(d.contains(d[a]));
                assert(!Seq::<Seq<char>>::empty().contains(d[a]));
                assert(t.contains(d[a]));
                let p = choose|p: int| 0 <= p < t.len() && t[p] == d[a];
                assert(names[p] == f[a]);
                if names.take(p).contains(x) {
                    let q = choose|q: int| 0 <= q < names.take(p).len() && names.take(p)[q] == x;
                    assert(names.take(p)[q] == names[q]);
                    assert(t[q] == x);
                    assert(t.contains(x));
                }
            }
        }
    }
}

/// Restoring the items and batch size that a well-formed ranking hands out
/// succeeds and gives back the same items in the same order, with the same
/// batch size.
pub proof fn lemma_save_restore(s: HumansortState)
    requires
        s.wf(),
    ensures
        valid_num_items(s.spec_num_items()),
        distinct_values(s@),
        sort_desc(s@) == s@,
{
    lemma_sort_sorted(s@);
}

/// Reconciling twice with the same list gives what reconciling once gave.
pub proof fn lemma_merge_idempotent(s: Seq<Rated>, names: Seq<Seq<char>>)
    ensures
        merged(merged(s, names), names) == merged(s, names),
{
    let k = kept(s, names);
    let f = fresh_names(values_of(s), names);
    let c = k + unrated(f);
    let m = merged(s, names);
    lemma_kept(s, names);
    lemma_fresh(values_of(s), names);
    lemma_unrated(f);
    lemma_sort(c);
    assert forall|y: Rated| c.contains(y) <==> (k.contains(y) || unrated(f).contains(y)) by {
        if c.contains(y) {
            let j = choose|j: int| 0 <= j < c.len() && c[j] == y;
            if j < k.len() {
                assert(k[j] == y);
            } else {
                assert(unrated(f)[j - k.len()] == y);
            }
        }
        if k.contains(y) {
            let j = choose|j: int| 0 <= j < k.len() && k[j] == y;
            assert(c[j] == y);
        }
        if unrated(f).contains(y) {
            let j = choose|j: int| 0 <= j < unrated(f).len() && unrated(f)[j] == y;
            assert(c[j + k.len()] == y);
        }
    }
    assert forall|j: int| 0 <= j < m.len() implies names.contains(#[trigger] m[j].0) by {
        let y = m[j];
        assert(m.contains(y));
        assert(c.contains(y));
        if k.contains(y) {
            assert(names.contains(y.0));
        } else {
            assert(unrated(f).contains(y));
            assert(f.contains(y.0));
        }
    }
    lemma_kept(m, names);
    assert forall|x: Seq<char>| names.contains(x) implies values_of(m).contains(x) by {
        if values_of(s).contains(x) {
            let i = choose|i: int| 0 <= i < values_of(s).len() && values_of(s)[i] == x;
            assert(s.contains(s[i]));
            assert(k.contains(s[i]));
            assert(m.contains(s[i]));
            let j = choose|j: int| 0 <= j < m.len() && m[j] == s[i];
            assert(values_of(m)[j] == x);
        } else {
            assert(f.contains(x));
            assert(unrated(f).contains((x, ZERO_RATING)));
            assert(c.contains((x, ZERO_RATING)));
            assert(m.contains((x, ZERO_RATING)));
            let j = choose|j: int| 0 <= j < m.len() && m[j] == (x, ZERO_RATING);
            assert(values_of(m)[j] == x);
        }
    }
    lemma_fresh(values_of(m), names);
    let g = fresh_names(values_of(m), names);
    if g.len() > 0 {
        assert(g.contains(g[0]));
    }
    assert(unrated(g) =~= Seq::<Rated>::empty());
    assert(kept(m, names) + unrated(g) =~= m);
    lemma_sort_sorted(m);
}

/// Removing an item and adding its value again leaves the other items as
/// removal left them and puts the value back, rated zero, after every item
/// rated zero or more and before every item rated below zero.
pub proof fn lemma_remove_then_add(s: Seq<Rated>, name: Seq<char>)
    requires
        distinct_values(s),
        sorted_desc(s),
        values_of(s).contains(name),
    ensures
        !values_of(s.remove(index_of(s, name))).contains(name),
        insert_desc(s.remove(index_of(s, name)), (name, ZERO_RATING)) == s.remove(
            index_of(s, name),
        ).insert(insert_pos(s.remove(index_of(s, name)), (name, ZERO_RATING)), (name, ZERO_RATING)),
        forall|k: int|
            0 <= k < insert_pos(s.remove(index_of(s, name)), (name, ZERO_RATING)) ==> rank(
                #[trigger] s.remove(index_of(s, name))[k].1,
            ) >= 0,
        forall|k: int|
            insert_pos(s.remove(index_of(s, name)), (name, ZERO_RATING)) <= k < s.len() - 1
                ==> rank(#[trigger] s.remove(index_of(s, name))[k].1) < 0,
        sorted_desc(insert_desc(s.remove(index_of(s, name)), (name, ZERO_RATING))),
        distinct_values(insert_desc(s.remove(index_of(s, name)), (name, ZERO_RATING))),
{
    let i = choose|i: int| 0 <= i < values_of(s).len() && values_of(s)[i] == name;
    lemma_index_of(s, name, i);
    let t = s.remove(i);
    let x = (name, ZERO_RATING);
    assert(sorted_desc(t));
    assert(distinct_values(t));
    if values_of(t).contains(name) {
        let j = choose|j: int| 0 <= j < values_of(t).len() && values_of(t)[j] == name;
        if j < i {
            assert(s[j].0 == name);
        } else {
            assert(s[j + 1].0 == name);
        }
    }
    lemma_insert_pos(t, x);
    lemma_insert_sorted(t, x);
    lemma_insert_contents(t, x);
    let p = insert_pos(t, x);
    assert forall|k: int| p <= k < s.len() - 1 implies rank(#[trigger] t[k].1) < 0 by {
        assert(rank(t[p].1) >= rank(t[k].1));
    }
}

} // verus!
