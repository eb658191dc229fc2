use vstd::prelude::*;
use crate::item::{HumansortItem, Rated, ZERO_RATING};
use crate::order::{
    distinct_values, insert_by_rating, insert_desc, lemma_insert_contents, lemma_insert_sorted,
    lemma_sort, sort_by_rating, sort_desc, sorted_desc, views,
};
use crate::reconcile::{
    first_seen, fresh_names, kept, lemma_fresh, lemma_merged, lemma_unrated, merged, unrated,
};
use crate::select::{
    distinct_below, draw_below, ints, pick, pick_indices, DRAWS_PER_ITEM, DRAW_RANGE,
};

verus! {

/// How many items are shown together when nothing else was asked for.
pub const DEFAULT_NUM_ITEMS: usize = 5;

/// The fewest items a batch can hold: one winner and one loser.
pub const MIN_NUM_ITEMS: usize = 2;

/// The most items a batch can hold, so that one keystroke picks any of them.
pub const MAX_NUM_ITEMS: usize = 9;

/// Why an operation on a ranking was refused. A refused operation leaves
/// the ranking as it was.
#[derive(Clone, Copy, Debug, PartialEq, Eq, Structural)]
pub enum HumansortError {
    /// Fewer items than a batch holds.
    InsufficientItems,
    /// A judgment names fewer than two items.
    TooFewItems,
    /// A value that is not in the ranking.
    UnknownItem,
    /// A value that is already in the ranking.
    DuplicateItem,
    /// A batch size outside `MIN_NUM_ITEMS..=MAX_NUM_ITEMS`.
    InvalidBatchSize,
}

/// The views of a sequence of strings.
pub open spec fn strs(s: Seq<String>) -> Seq<Seq<char>> {
    s.map_values(|x: String| x@)
}

/// The values of a sequence of item models.
pub open spec fn values_of(s: Seq<Rated>) -> Seq<Seq<char>> {
    s.map_values(|e: Rated| e.0)
}

/// The place of the entry with value `name` (meaningful where there is one).
pub open spec fn index_of(s: Seq<Rated>, name: Seq<char>) -> int {
    choose|i: int| 0 <= i < s.len() && s[i].0 == name
}

/// A batch size that a ranking accepts.
pub open spec fn valid_num_items(n: int) -> bool {
    MIN_NUM_ITEMS <= n <= MAX_NUM_ITEMS
}

/// `b` is a batch of `n` distinct values of the items `s`.
pub open spec fn is_batch(b: Seq<Seq<char>>, s: Seq<Rated>, n: int) -> bool {
    &&& b.len() == n
    &&& b.no_duplicates()
    &&& forall|k: int| 0 <= k < b.len() ==> values_of(s).contains(#[trigger] b[k])
}

/// The values at the given places.
pub open spec fn values_at(s: Seq<Rated>, idx: Seq<int>) -> Seq<Seq<char>> {
    idx.map_values(|i: int| s[i].0)
}

/// Distinct places among items with distinct values give a batch.
pub proof fn lemma_values_at(s: Seq<Rated>, idx: Seq<int>)
    requires
        distinct_values(s),
        distinct_below(idx, s.len() as int),
    ensures
        is_batch(values_at(s, idx), s, idx.len() as int),
{
    let b = values_at(s, idx);
    assert forall|a: int, c: int| 0 <= a < b.len() && 0 <= c < b.len() && a != c implies b[a]
        != b[c] by {
        assert(idx[a] != idx[c]);
        assert(0 <= idx[a] < s.len());
        assert(0 <= idx[c] < s.len());
        if idx[a] < idx[c] {
            assert(s[idx[a]].0 != s[idx[c]].0);
        } else {
            assert(s[idx[c]].0 != s[idx[a]].0);
        }
    }
    assert forall|k: int| 0 <= k < b.len() implies values_of(s).contains(#[trigger] b[k]) by {
        assert(0 <= idx[k] < s.len());
        assert(values_of(s)[idx[k]] == b[k]);
    }
}

/// Every name of `names` is a value of `s`.
pub open spec fn all_known(s: Seq<Rated>, names: Seq<Seq<char>>) -> bool {
    forall|k: int| 0 <= k < names.len() ==> values_of(s).contains(#[trigger] names[k])
}

/// The entries of `s` with the values `names`, in that order.
pub open spec fn judged(s: Seq<Rated>, names: Seq<Seq<char>>) -> Seq<Rated> {
    names.map_values(|n: Seq<char>| s[index_of(s, n)])
}

/// `s` with the entry of each value in `js` given the rating listed beside
/// it; where a value is listed twice, the later rating stands.
pub open spec fn with_ratings(s: Seq<Rated>, js: Seq<Rated>) -> Seq<Rated>
    decreases js.len(),
{
    if js.len() == 0 {
        s
    } else {
        let t = with_ratings(s, js.drop_last());
        t.update(index_of(t, js.last().0), js.last())
    }
}

/// Among distinct values, `index_of` finds the one entry with that value.
pub proof fn lemma_index_of(s: Seq<Rated>, name: Seq<char>, i: int)
    requires
        distinct_values(s),
        0 <= i < s.len(),
        s[i].0 == name,
    ensures
        index_of(s, name) == i,
        values_of(s).contains(name),
{
    let j = index_of(s, name);
    assert(values_of(s)[i] == name);
    if j != i {
        if j < i {
            assert(s[j].0 != s[i].0);
        } else {
            assert(s[i].0 != s[j].0);
        }
    }
}

/// The place of the first item of `v` with value `name`, if any.
pub(crate) fn find_value(v: &Vec<HumansortItem>, name: &String) -> (r: Option<usize>)
    ensures
        match r {
            Some(i) => i < v@.len() && views(v@)[i as int].0 == name@ && values_of(
                views(v@),
            ).contains(name@),
            None => !values_of(views(v@)).contains(name@),
        },
{
    let mut i: usize = 0;
    while i < v.len()
        invariant
            i <= v.len(),
            forall|j: int| 0 <= j < i ==> views(v@)[j].0 != name@,
        decreases v.len() - i,
    {
        if v[i].value().eq(name) {
            assert(values_of(views(v@))[i as int] == name@);
            return Some(i);
        }
        i = i + 1;
    }
    proof {
        if values_of(views(v@)).contains(name@) {
            let j = choose|j: int|
                0 <= j < values_of(views(v@)).len() && values_of(views(v@))[j] == name@;
            assert(views(v@)[j].0 == name@);
        }
    }
    None
}

/// Whether `x` is among `names`.
fn lists(names: &[String], x: &String) -> (b: bool)
    ensures
        b == strs(names@).contains(x@),
{
    let mut i: usize = 0;
    while i < names.len()
        invariant
            i <= names@.len(),
            forall|j: int| 0 <= j < i ==> strs(names@)[j] != x@,
        decreases names@.len() - i,
    {
        if names[i].eq(x) {
            assert(strs(names@)[i as int] == x@);
            return true;
        }
        i = i + 1;
    }
    proof {
        if strs(names@).contains(x@) {
            let j = choose|j: int| 0 <= j < strs(names@).len() && strs(names@)[j] == x@;
        }
    }
    false
}

/// Appends to `added`, in order, an unrated item for each name of `names`
/// that neither `present` nor `added` has yet.
fn push_fresh(present: &Vec<HumansortItem>, names: &[String], added: &mut Vec<HumansortItem>)
    requires
        old(added)@.len() == 0,
    ensures
        views(final(added)@) == unrated(fresh_names(values_of(views(present@)), strs(names@))),
{
    let ghost taken = values_of(views(present@));
    let mut i: usize = 0;
    assert(views(added@) =~= unrated(fresh_names(taken, strs(names@).take(0))));
    while i < names.len()
        invariant
            i <= names@.len(),
            taken == values_of(views(present@)),
            views(added@) == unrated(fresh_names(taken, strs(names@).take(i as int))),
        decreases names@.len() - i,
    {
        let ghost prefix = strs(names@).take(i as int);
        assert(strs(names@).take(i as int + 1).drop_last() =~= prefix);
        assert(strs(names@).take(i as int + 1).last() == names@[i as int]@);
        proof {
            lemma_unrated(fresh_names(taken, prefix));
        }
        if find_value(present, &names[i]).is_none() && find_value(added, &names[i]).is_none() {
            let ghost prev = added@;
            added.push(HumansortItem::new(names[i].clone(), ZERO_RATING));
            assert(views(added@) =~= views(prev).push((names@[i as int]@, ZERO_RATING)));
            assert(views(added@) =~= unrated(fresh_names(taken, prefix).push(names@[i as int]@)));
        }
        i = i + 1;
    }
    assert(strs(names@).take(i as int) =~= strs(names@));
}

/// A ranking: items kept in descending order of rating, the number of items
/// shown per judgment, and a cursor for reading the items out in order.
#[derive(Clone, Debug, PartialEq)]
pub struct HumansortState {
    items: Vec<HumansortItem>,
    num_items: usize,
    current_idx: usize,
}

impl View for HumansortState {
    type V = Seq<Rated>;

    /// The items, best first.
    closed spec fn view(&self) -> Seq<Rated> {
        views(self.items@)
    }
}

impl HumansortState {
    /// The number of items shown per judgment.
    pub closed spec fn spec_num_items(&self) -> int {
        self.num_items as int
    }

    /// How many items the ranked read-out has handed out.
    pub closed spec fn spec_cursor(&self) -> int {
        self.current_idx as int
    }

    /// Values are unique, ratings descend, the batch size is valid and the
    /// cursor lies within the items.
    pub open spec fn wf(&self) -> bool {
        &&& distinct_values(self@)
        &&& sorted_desc(self@)
        &&& valid_num_items(self.spec_num_items())
        &&& 0 <= self.spec_cursor() <= self@.len()
    }

    /// An empty ranking with the default batch size.
    pub fn new() -> (r: HumansortState)
        ensures
            r.wf(),
            r@ == Seq::<Rated>::empty(),
            r.spec_num_items() == DEFAULT_NUM_ITEMS,
            r.spec_cursor() == 0,
    {
        let r = HumansortState { items: Vec::new(), num_items: DEFAULT_NUM_ITEMS, current_idx: 0 };
        assert(r@ =~= Seq::<Rated>::empty());
        r
    }

    /// A ranking of the distinct names of `names`, in the order of their first
    /// appearance, all rated zero, with the default batch size.
    pub fn from_items(names: &[String]) -> (r: HumansortState)
        ensures
            r.wf(),
            r@ == unrated(first_seen(strs(names@))),
            r.spec_num_items() == DEFAULT_NUM_ITEMS,
            r.spec_cursor() == 0,
    {
        let mut items: Vec<HumansortItem> = Vec::new();
        push_fresh(&Vec::new(), names, &mut items);
        proof {
            assert(values_of(views(Seq::<HumansortItem>::empty())) =~= Seq::<Seq<char>>::empty());
            lemma_fresh(seq![], strs(names@));
            lemma_unrated(first_seen(strs(names@)));
        }
        HumansortState { items, num_items: DEFAULT_NUM_ITEMS, current_idx: 0 }
    }

    /// Reconciles the ranking with the list `items_to_merge`: listed items
    /// keep their rating, unlisted ones go, new names join with rating zero,
    /// and the items are sorted again. The read-out cursor is kept within
    /// the items.
    pub fn merge(&mut self, items_to_merge: &[String])
        requires
            old(self).wf(),
        ensures
            final(self).wf(),
            final(self)@ == merged(old(self)@, strs(items_to_merge@)),
            final(self).spec_num_items() == old(self).spec_num_items(),
            final(self).spec_cursor() == if old(self).spec_cursor() <= final(self)@.len() {
                old(self).spec_cursor()
            } else {
                final(self)@.len() as int
            },
    {
        let ghost names = strs(items_to_merge@);
        let mut new_items: Vec<HumansortItem> = Vec::new();
        let mut i: usize = 0;
        while i < self.items.len()
            invariant
                i <= self.items@.len(),
                names == strs(items_to_merge@),
                views(new_items@) == kept(views(self.items@).take(i as int), names),
            decreases self.items@.len() - i,
        {
            let ghost prefix = views(self.items@).take(i as int);
            assert(views(self.items@).take(i as int + 1).drop_last() =~= prefix);
            if lists(items_to_merge, self.items[i].value()) {
                let ghost prev = new_items@;
                new_items.push(self.items[i].copy());
                assert(views(new_items@) =~= views(prev).push(views(self.items@)[i as int]));
            }
            i = i + 1;
        }
        assert(views(self.items@).take(i as int) =~= views(self.items@));
        let mut added: Vec<HumansortItem> = Vec::new();
        push_fresh(&self.items, items_to_merge, &mut added);
        let ghost k = new_items@;
        let ghost a = added@;
        new_items.append(&mut added);
        assert(views(new_items@) =~= views(k) + views(a));
        self.items = sort_by_rating(&new_items);
        if self.current_idx > self.items.len() {
            self.current_idx = self.items.len();
        }
        proof {
            lemma_merged(old(self)@, names);
        }
    }

    /// Checks a judgment: fewer than two names give `TooFewItems`, a name
    /// that is not in the ranking `UnknownItem`.
    fn check_judgment(&self, names: Ghost<Seq<Seq<char>>>, judged: &Vec<&String>) -> (r: Result<
        (),
        HumansortError,
    >)
        requires
            self.wf(),
            judged@.len() == names@.len(),
            forall|k: int| 0 <= k < names@.len() ==> judged@[k]@ == names@[k],
        ensures
            r == Err::<(), HumansortError>(HumansortError::TooFewItems) <==> names@.len() < 2,
            r == Err::<(), HumansortError>(HumansortError::UnknownItem) <==> names@.len() >= 2
                && !all_known(self@, names@),
            r is Ok <==> names@.len() >= 2 && all_known(self@, names@),
    {
        if judged.len() < 2 {
            return Err(HumansortError::TooFewItems);
        }
        let mut i: usize = 0;
        while i < judged.len()
            invariant
                i <= judged@.len(),
                judged@.len() == names@.len(),
                names@.len() >= 2,
                forall|k: int| 0 <= k < names@.len() ==> judged@[k]@ == names@[k],
                forall|k: int| 0 <= k < i ==> values_of(self@).contains(#[trigger] names@[k]),
            decreases judged@.len() - i,
        {
            if find_value(&self.items, judged[i]).is_none() {
                assert(!values_of(self@).contains(names@[i as int]));
                return Err(HumansortError::UnknownItem);
            }
            i = i + 1;
        }
        Ok(())
    }

    /// The items that a judgment names, in its order, with their ratings
    /// before the judgment is recorded: the first is the winner, the rest
    /// lost to it. `TooFewItems` for fewer than two names, `UnknownItem`
    /// for a name that is not in the ranking.
    pub fn judged_items(&self, new_data: &[String]) -> (r: Result<
        Vec<HumansortItem>,
        HumansortError,
    >)
        requires
            self.wf(),
        ensures
            r == Err::<Vec<HumansortItem>, HumansortError>(HumansortError::TooFewItems) <==> new_data@.len()
                < 2,
            r == Err::<Vec<HumansortItem>, HumansortError>(HumansortError::UnknownItem) <==> new_data@.len()
                >= 2 && !all_known(self@, strs(new_data@)),
            r is Ok <==> new_data@.len() >= 2 && all_known(self@, strs(new_data@)),
            r is Ok ==> views(r->Ok_0@) == judged(self@, strs(new_data@)),
    {
        let mut refs: Vec<&String> = Vec::new();
        let mut i: usize = 0;
        while i < new_data.len()
            invariant
                i <= new_data@.len(),
                refs@.len() == i,
                forall|k: int| 0 <= k < i ==> refs@[k]@ == strs(new_data@)[k],
            decreases new_data@.len() - i,
        {
            refs.push(&new_data[i]);
            i = i + 1;
        }
        self.check_judgment(Ghost(strs(new_data@)), &refs)?;
        let mut out: Vec<HumansortItem> = Vec::new();
        let mut k: usize = 0;
        while k < new_data.len()
            invariant
                self.wf(),
                k <= new_data@.len(),
                all_known(self@, strs(new_data@)),
                views(out@) == judged(self@, strs(new_data@)).take(k as int),
            decreases new_data@.len() - k,
        {
            assert(values_of(self@).contains(strs(new_data@)[k as int]));
            if let Some(idx) = find_value(&self.items, &new_data[k]) {
                proof {
                    lemma_index_of(self@, new_data@[k as int]@, idx as int);
                }
                let ghost prev = out@;
                out.push(self.items[idx].copy());
                assert(views(out@) =~= views(prev).push(self@[idx as int]));
                assert(views(out@) =~= judged(self@, strs(new_data@)).take(k as int + 1));
            }
            k = k + 1;
        }
        assert(judged(self@, strs(new_data@)).take(k as int) =~= judged(self@, strs(new_data@)));
        Ok(out)
    }

    /// Records the outcome of a judgment: each listed item takes the rating
    /// listed with it (where a value is listed twice, the later rating
    /// stands), and the items are sorted again. `TooFewItems` for fewer than
    /// two entries, `UnknownItem` for a value that is not in the ranking.
    pub fn update(&mut self, judged: &[HumansortItem]) -> (r: Result<(), HumansortError>)
        requires
            old(self).wf(),
        ensures
            final(self).wf(),
            r == Err::<(), HumansortError>(HumansortError::TooFewItems) <==> judged@.len() < 2,
            r == Err::<(), HumansortError>(HumansortError::UnknownItem) <==> judged@.len() >= 2
                && !all_known(old(self)@, values_of(views(judged@))),
            r is Ok <==> judged@.len() >= 2 && all_known(old(self)@, values_of(views(judged@))),
            r is Err ==> *final(self) == *old(self),
            r is Ok ==> final(self)@ == sort_desc(with_ratings(old(self)@, views(judged@))),
            final(self).spec_num_items() == old(self).spec_num_items(),
            final(self).spec_cursor() == old(self).spec_cursor(),
    {
        let ghost names = values_of(views(judged@));
        let mut refs: Vec<&String> = Vec::new();
        let mut i: usize = 0;
        while i < judged.len()
            invariant
                i <= judged@.len(),
                names == values_of(views(judged@)),
                refs@.len() == i,
                forall|k: int| 0 <= k < i ==> refs@[k]@ == names[k],
            decreases judged@.len() - i,
        {
            refs.push(judged[i].value());
            i = i + 1;
        }
        self.check_judgment(Ghost(names), &refs)?;
        let ghost start = self@;
        let mut k: usize = 0;
        while k < judged.len()
            invariant
                k <= judged@.len(),
                names == values_of(views(judged@)),
                all_known(start, names),
                distinct_values(self@),
                values_of(self@) == values_of(start),
                self@ == with_ratings(start, views(judged@).take(k as int)),
                self.items@.len() == start.len(),
                self.spec_num_items() == old(self).spec_num_items(),
                self.spec_cursor() == old(self).spec_cursor(),
                valid_num_items(self.spec_num_items()),
                self.spec_cursor() <= start.len(),
            decreases judged@.len() - k,
        {
            let ghost prev = self@;
            assert(views(judged@).take(k as int + 1).drop_last() =~= views(judged@).take(k as int));
            assert(values_of(prev).contains(names[k as int]));
            if let Some(idx) = find_value(&self.items, judged[k].value()) {
                proof {
                    lemma_index_of(prev, names[k as int], idx as int);
                }
                self.items[idx] = judged[k].copy();
                assert(self@ =~= prev.update(idx as int, views(judged@)[k as int]));
                assert(values_of(self@) =~= values_of(prev));
                assert forall|a: int, b: int| 0 <= a < b < self@.len() implies self@[a].0
                    != self@[b].0 by {
                    assert(values_of(self@)[a] == values_of(prev)[a]);
                    assert(values_of(self@)[b] == values_of(prev)[b]);
                }
            }
            k = k + 1;
        }
        assert(views(judged@).take(k as int) =~= views(judged@));
        proof {
            lemma_sort(self@);
        }
        self.items = sort_by_rating(&self.items);
        Ok(())
    }

    /// A ranking restored from saved items and batch size, with the cursor
    /// at the start; the items are put in rating order. `InvalidBatchSize`
    /// for a batch size outside `MIN_NUM_ITEMS..=MAX_NUM_ITEMS`,
    /// `DuplicateItem` where two items share a value.
    pub fn from_saved(items: Vec<HumansortItem>, num_items: usize) -> (r: Result<
        HumansortState,
        HumansortError,
    >)
        ensures
            r == Err::<HumansortState, HumansortError>(HumansortError::InvalidBatchSize)
                <==> !valid_num_items(num_items as int),
            r == Err::<HumansortState, HumansortError>(HumansortError::DuplicateItem)
                <==> valid_num_items(num_items as int) && !distinct_values(views(items@)),
            r is Ok <==> valid_num_items(num_items as int) && distinct_values(views(items@)),
            r is Ok ==> r->Ok_0.wf() && r->Ok_0@ == sort_desc(views(items@))
                && r->Ok_0.spec_num_items() == num_items && r->Ok_0.spec_cursor() == 0,
    {
        if num_items < MIN_NUM_ITEMS || num_items > MAX_NUM_ITEMS {
            return Err(HumansortError::InvalidBatchSize);
        }
        let mut i: usize = 0;
        while i < items.len()
            invariant
                i <= items@.len(),
                valid_num_items(num_items as int),
                forall|a: int, b: int| 0 <= a < b < i ==> views(items@)[a].0 != views(items@)[b].0,
            decreases items@.len() - i,
        {
            let mut j: usize = 0;
            while j < i
                invariant
                    j <= i < items@.len(),
                    valid_num_items(num_items as int),
                    forall|a: int| 0 <= a < j ==> views(items@)[a].0 != views(items@)[i as int].0,
                decreases i - j,
            {
                if items[j].value().eq(items[i].value()) {
                    assert(views(items@)[j as int].0 == views(items@)[i as int].0);
                    return Err(HumansortError::DuplicateItem);
                }
                j = j + 1;
            }
            i = i + 1;
        }
        proof {
            lemma_sort(views(items@));
        }
        let sorted = sort_by_rating(&items);
        Ok(HumansortState { items: sorted, num_items, current_idx: 0 })
    }

    /// A copy of the ranking.
    pub fn copy(&self) -> (r: HumansortState)
        ensures
            r@ == self@,
            r.spec_num_items() == self.spec_num_items(),
            r.spec_cursor() == self.spec_cursor(),
    {
        HumansortState {
            items: self.get_all_items(),
            num_items: self.num_items,
            current_idx: self.current_idx,
        }
    }

    /// The number of items shown per judgment.
    pub fn num_items(&self) -> (r: usize)
        ensures
            r == self.spec_num_items(),
    {
        self.num_items
    }

    /// Sets the number of items shown per judgment; refused with
    /// `InvalidBatchSize` outside `MIN_NUM_ITEMS..=MAX_NUM_ITEMS`.
    pub fn set_num_items(&mut self, new_num_items: usize) -> (r: Result<(), HumansortError>)
        requires
            old(self).wf(),
        ensures
            final(self).wf(),
            r is Ok <==> valid_num_items(new_num_items as int),
            r is Err ==> r == Err::<(), HumansortError>(HumansortError::InvalidBatchSize)
                && *final(self) == *old(self),
            r is Ok ==> final(self)@ == old(self)@ && final(self).spec_num_items()
                == new_num_items && final(self).spec_cursor() == old(self).spec_cursor(),
    {
        if new_num_items < MIN_NUM_ITEMS || new_num_items > MAX_NUM_ITEMS {
            return Err(HumansortError::InvalidBatchSize);
        }
        self.num_items = new_num_items;
        Ok(())
    }

    /// A copy of the items, best first.
    pub fn get_all_items(&self) -> (r: Vec<HumansortItem>)
        ensures
            views(r@) == self@,
    {
        let mut r: Vec<HumansortItem> = Vec::new();
        let mut i: usize = 0;
        while i < self.items.len()
            invariant
                i <= self.items@.len(),
                views(r@) == views(self.items@).take(i as int),
            decreases self.items@.len() - i,
        {
            let x = self.items[i].copy();
            assert(x@ == views(self.items@)[i as int]);
            let ghost prev = r@;
            r.push(x);
            assert(views(r@) =~= views(prev).push(x@));
            assert(views(r@) =~= views(self.items@).take(i as int + 1));
            i = i + 1;
        }
        assert(views(self.items@).take(i as int) =~= views(self.items@));
        r
    }

    /// The place of the item with value `needle`; `UnknownItem` if there is
    /// none.
    fn find_item_idx_by_value(&self, needle: &String) -> (r: Result<usize, HumansortError>)
        requires
            self.wf(),
        ensures
            r is Ok <==> values_of(self@).contains(needle@),
            r is Err ==> r == Err::<usize, HumansortError>(HumansortError::UnknownItem),
            r is Ok ==> r->Ok_0 < self@.len() && r->Ok_0 == index_of(self@, needle@)
                && self@[r->Ok_0 as int].0 == needle@,
    {
        match find_value(&self.items, needle) {
            Some(i) => {
                proof {
                    lemma_index_of(self@, needle@, i as int);
                }
                Ok(i)
            },
            None => Err(HumansortError::UnknownItem),
        }
    }

    /// Adds `new_item` with rating zero, in its place by rating;
    /// `DuplicateItem` if the value is already there.
    pub fn add_item(&mut self, new_item: &String) -> (r: Result<(), HumansortError>)
        requires
            old(self).wf(),
        ensures
            final(self).wf(),
            r is Ok <==> !values_of(old(self)@).contains(new_item@),
            r is Err ==> r == Err::<(), HumansortError>(HumansortError::DuplicateItem)
                && *final(self) == *old(self),
            r is Ok ==> final(self)@ == insert_desc(old(self)@, (new_item@, ZERO_RATING)),
            final(self).spec_num_items() == old(self).spec_num_items(),
            final(self).spec_cursor() == old(self).spec_cursor(),
    {
        if find_value(&self.items, new_item).is_some() {
            return Err(HumansortError::DuplicateItem);
        }
        let ghost before = self@;
        insert_by_rating(&mut self.items, HumansortItem::new(new_item.clone(), ZERO_RATING));
        proof {
            lemma_insert_sorted(before, (new_item@, ZERO_RATING));
            lemma_insert_contents(before, (new_item@, ZERO_RATING));
        }
        Ok(())
    }

    /// Gives the item `old_item_name` the value `new_item_name`, keeping its
    /// rating and place; `UnknownItem` if there is no such item,
    /// `DuplicateItem` if another item already has the new value.
    pub fn rename_item(&mut self, old_item_name: &String, new_item_name: &String) -> (r: Result<
        (),
        HumansortError,
    >)
        requires
            old(self).wf(),
        ensures
            final(self).wf(),
            r == Err::<(), HumansortError>(HumansortError::UnknownItem) <==> !values_of(
                old(self)@,
            ).contains(old_item_name@),
            r == Err::<(), HumansortError>(HumansortError::DuplicateItem) <==> values_of(
                old(self)@,
            ).contains(old_item_name@) && old_item_name@ != new_item_name@ && values_of(
                old(self)@,
            ).contains(new_item_name@),
            r is Ok <==> values_of(old(self)@).contains(old_item_name@) && (old_item_name@
                == new_item_name@ || !values_of(old(self)@).contains(new_item_name@)),
            r is Err ==> *final(self) == *old(self),
            r is Ok ==> final(self)@ == old(self)@.update(
                index_of(old(self)@, old_item_name@),
                (new_item_name@, old(self)@[index_of(old(self)@, old_item_name@)].1),
            ),
            final(self).spec_num_items() == old(self).spec_num_items(),
            final(self).spec_cursor() == old(self).spec_cursor(),
    {
        let idx = self.find_item_idx_by_value(old_item_name)?;
        if !old_item_name.eq(new_item_name) && find_value(&self.items, new_item_name).is_some() {
            return Err(HumansortError::DuplicateItem);
        }
        let ghost before = self@;
        let renamed = HumansortItem::new(new_item_name.clone(), self.items[idx].rating_bits());
        self.items[idx] = renamed;
        assert(self@ =~= before.update(idx as int, (new_item_name@, before[idx as int].1)));
        proof {
            if old_item_name@ != new_item_name@ {
                assert forall|j: int| 0 <= j < before.len() implies before[j].0 != new_item_name@ by {
                    if before[j].0 == new_item_name@ {
                        assert(values_of(before)[j] == new_item_name@);
                    }
                }
            }
        }
        Ok(())
    }

    /// Removes the item `item_to_remove`, leaving the others in their order;
    /// `UnknownItem` if there is no such item. The read-out cursor is kept
    /// within the items.
    pub fn remove_item(&mut self, item_to_remove: &String) -> (r: Result<(), HumansortError>)
        requires
            old(self).wf(),
        ensures
            final(self).wf(),
            r is Ok <==> values_of(old(self)@).contains(item_to_remove@),
            r is Err ==> r == Err::<(), HumansortError>(HumansortError::UnknownItem)
                && *final(self) == *old(self),
            r is Ok ==> final(self)@ == old(self)@.remove(index_of(old(self)@, item_to_remove@)),
            final(self).spec_num_items() == old(self).spec_num_items(),
            final(self).spec_cursor() == if old(self).spec_cursor() <= final(self)@.len() {
                old(self).spec_cursor()
            } else {
                final(self)@.len() as int
            },
    {
        let idx = self.find_item_idx_by_value(item_to_remove)?;
        let ghost before = self@;
        self.items.remove(idx);
        assert(self@ =~= before.remove(idx as int));
        if self.current_idx > self.items.len() {
            self.current_idx = self.items.len();
        }
        Ok(())
    }

    /// The batch that selection returns for the given draws: the distinct
    /// places that the draws select (see `crate::select::warp`), topped up with the
    /// best-rated places left, and their values in that order;
    /// `InsufficientItems` if the batch is larger than the ranking.
    pub fn next_from_draws(&self, draws: &[u32]) -> (r: Result<Vec<String>, HumansortError>)
        requires
            self.wf(),
        ensures
            r is Err <==> self@.len() < self.spec_num_items(),
            r is Err ==> r == Err::<Vec<String>, HumansortError>(
                HumansortError::InsufficientItems,
            ),
            r is Ok ==> strs(r->Ok_0@) == values_at(
                self@,
                pick(draws@, self@.len() as int, self.spec_num_items()),
            ),
            r is Ok ==> is_batch(strs(r->Ok_0@), self@, self.spec_num_items()),
    {
        if self.items.len() < self.num_items {
            return Err(HumansortError::InsufficientItems);
        }
        let idx = pick_indices(draws, self.items.len(), self.num_items);
        let mut values: Vec<String> = Vec::new();
        let mut k: usize = 0;
        while k < idx.len()
            invariant
                k <= idx@.len(),
                distinct_below(ints(idx@), self.items@.len() as int),
                strs(values@) == values_at(self@, ints(idx@)).take(k as int),
            decreases idx@.len() - k,
        {
            assert(0 <= ints(idx@)[k as int] < self.items@.len());
            let v = self.items[idx[k]].value().clone();
            assert(v@ == values_at(self@, ints(idx@))[k as int]);
            let ghost prev = values@;
            values.push(v);
            assert(strs(values@) =~= strs(prev).push(v@));
            assert(strs(values@) =~= values_at(self@, ints(idx@)).take(k as int + 1));
            k = k + 1;
        }
        assert(values_at(self@, ints(idx@)).take(k as int) =~= values_at(self@, ints(idx@)));
        proof {
            lemma_values_at(self@, ints(idx@));
        }
        Ok(values)
    }

    /// A batch of `num_items` distinct values to judge, drawn at random with
    /// a bias towards the best-rated items; `InsufficientItems` if the batch
    /// is larger than the ranking.
    pub fn next(&self) -> (r: Result<Vec<String>, HumansortError>)
        requires
            self.wf(),
        ensures
            r is Err <==> self@.len() < self.spec_num_items(),
            r is Err ==> r == Err::<Vec<String>, HumansortError>(
                HumansortError::InsufficientItems,
            ),
            r is Ok ==> is_batch(strs(r->Ok_0@), self@, self.spec_num_items()),
    {
        let count = self.num_items * DRAWS_PER_ITEM;
        let mut draws: Vec<u32> = Vec::new();
        let mut i: usize = 0;
        while i < count
            invariant
                i <= count,
            decreases count - i,
        {
            draws.push(draw_below(DRAW_RANGE));
            i = i + 1;
        }
        self.next_from_draws(draws.as_slice())
    }

    /// Hands out the next item in ranked order and advances the cursor;
    /// `None` once every item has been handed out.
    pub fn next_ranked(&mut self) -> (r: Option<HumansortItem>)
        requires
            old(self).wf(),
        ensures
            final(self).wf(),
            final(self)@ == old(self)@,
            final(self).spec_num_items() == old(self).spec_num_items(),
            old(self).spec_cursor() < old(self)@.len() ==> r is Some && r->Some_0@ == old(
                self,
            )@[old(self).spec_cursor()] && final(self).spec_cursor() == old(self).spec_cursor()
                + 1,
            old(self).spec_cursor() >= old(self)@.len() ==> r is None && final(self).spec_cursor()
                == old(self).spec_cursor(),
    {
        if self.current_idx < self.items.len() {
            let item = self.items[self.current_idx].copy();
            self.current_idx = self.current_idx + 1;
            Some(item)
        } else {
            None
        }
    }
}

impl Default for HumansortState {
    fn default() -> (r: HumansortState)
        ensures
            r.wf(),
            r@ == Seq::<Rated>::empty(),
            r.spec_num_items() == DEFAULT_NUM_ITEMS,
            r.spec_cursor() == 0,
    {
        HumansortState::new()
    }
}

} // verus!
