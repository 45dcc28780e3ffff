//! The selectable ordered collection.
//!
//! An ordered sequence of [`TicketItem`]s, each carrying a `selected` flag,
//! plus a single optional anchor index holding the first endpoint of a range
//! selection in progress.  Insertion order is significant: it is the display
//! order and the basis for range selection.

use vstd::prelude::*;

verus! {

/// One entry of the collection: a display uid and a selection flag.
#[derive(Debug)]
pub struct TicketItem {
    pub uid: String,
    pub selected: bool,
}

/// Mathematical model of one item: its uid characters and its flag.
#[verifier::ext_equal]
pub ghost struct TicketModel {
    pub uid: Seq<char>,
    pub selected: bool,
}

impl View for TicketItem {
    type V = TicketModel;

    open spec fn view(&self) -> TicketModel {
        TicketModel { uid: self.uid@, selected: self.selected }
    }
}

/// Mathematical model of the whole component: the item sequence and the
/// pending anchor, if any.
#[verifier::ext_equal]
pub ghost struct CollectionModel {
    pub items: Seq<TicketModel>,
    pub anchor: Option<int>,
}

/// `s` with every index of `[lo, hi]` that is within bounds set to `v`;
/// indices outside the bounds of `s` are skipped, uids are untouched.
pub open spec fn set_range(s: Seq<TicketModel>, lo: int, hi: int, v: bool) -> Seq<TicketModel> {
    Seq::new(s.len(), |i: int| if lo <= i <= hi {
        TicketModel { uid: s[i].uid, selected: v }
    } else {
        s[i]
    })
}

/// How many indices of the inclusive range `[lo, hi]` fall within a
/// collection of length `len` (assuming `0 <= lo <= hi`).
pub open spec fn in_bounds_count(lo: int, hi: int, len: int) -> int {
    if lo >= len {
        0
    } else if hi < len {
        hi - lo + 1
    } else {
        len - lo
    }
}

/// Number of selected items in `s`.
pub open spec fn count_selected_in(s: Seq<TicketModel>) -> int
    decreases s.len(),
{
    if s.len() == 0 {
        0
    } else {
        count_selected_in(s.drop_last()) + if s.last().selected { 1int } else { 0int }
    }
}

/// `s` with every flag cleared; uids and order are untouched.
pub open spec fn clear_all(s: Seq<TicketModel>) -> Seq<TicketModel> {
    Seq::new(s.len(), |i: int| TicketModel { uid: s[i].uid, selected: false })
}

/// The subsequence of items that are not selected, in their original order:
/// what is left behind by a bulk delete.
pub open spec fn survivors(s: Seq<TicketModel>) -> Seq<TicketModel> {
    s.filter(|t: TicketModel| !t.selected)
}

/// The indices of the selected items among the first `n` entries of `s`,
/// in ascending order: the deletion schedule of a bulk delete.
pub open spec fn selected_indices(s: Seq<TicketModel>, n: int) -> Seq<int>
    decreases n,
{
    if n <= 0 {
        Seq::empty()
    } else if s[n - 1].selected {
        selected_indices(s, n - 1).push(n - 1)
    } else {
        selected_indices(s, n - 1)
    }
}

/// The collection part-way through a bulk delete that removes the selected
/// items from the highest index downwards: everything below `b` is still
/// untouched, everything from `b` up has already been collapsed.
pub open spec fn partial_delete(s: Seq<TicketModel>, b: int) -> Seq<TicketModel> {
    s.take(b) + survivors(s.skip(b))
}

/// Filtering keeps a sequence without selected items intact.
proof fn lemma_survivors_all_kept(s: Seq<TicketModel>)
    requires
        forall|i: int| 0 <= i < s.len() ==> !s[i].selected,
    ensures
        survivors(s) == s,
    decreases s.len(),
{
    reveal_with_fuel(Seq::<_>::filter, 2);
    if s.len() > 0 {
        lemma_survivors_all_kept(s.drop_last());
        assert(s.last() == s[s.len() - 1]);
        assert(!s.last().selected);
        assert(survivors(s) == survivors(s.drop_last()).push(s.last()));
        assert(s.drop_last().push(s.last()) =~= s);
    }
}

/// How many selected indices a prefix holds: the deletion schedule is
/// exactly as long as the selected count.
proof fn lemma_selected_indices_len(s: Seq<TicketModel>, n: int)
    requires
        0 <= n <= s.len(),
    ensures
        selected_indices(s, n).len() == count_selected_in(s.subrange(0, n)),
    decreases n,
{
    if n > 0 {
        lemma_selected_indices_len(s, n - 1);
        assert(s.subrange(0, n).drop_last() =~= s.subrange(0, n - 1));
        assert(s.subrange(0, n).last() == s[n - 1]);
    }
}

/// The deletion schedule is ascending, points at selected items only, and
/// misses no selected item.
proof fn lemma_selected_indices_props(s: Seq<TicketModel>, n: int)
    requires
        0 <= n <= s.len(),
    ensures
        forall|k: int| 0 <= k < selected_indices(s, n).len()
            ==> 0 <= #[trigger] selected_indices(s, n)[k] < n
                && s[selected_indices(s, n)[k]].selected,
        forall|k1: int, k2: int| 0 <= k1 < k2 < selected_indices(s, n).len()
            ==> selected_indices(s, n)[k1] < selected_indices(s, n)[k2],
        forall|j: int| 0 <= j < n && s[j].selected ==> selected_indices(s, n).contains(j),
    decreases n,
{
    if n > 0 {
        lemma_selected_indices_props(s, n - 1);
        let prev = selected_indices(s, n - 1);
        let cur = selected_indices(s, n);
        if s[n - 1].selected {
            assert forall|j: int| 0 <= j < n && s[j].selected implies cur.contains(j) by {
                if j < n - 1 {
                    assert(prev.contains(j));
                    let w = choose|w: int| 0 <= w < prev.len() && prev[w] == j;
                    assert(cur[w] == j);
                } else {
                    assert(cur[cur.len() - 1] == j);
                }
            }
        } else {
            assert forall|j: int| 0 <= j < n && s[j].selected implies cur.contains(j) by {
                assert(j < n - 1);
                assert(prev.contains(j));
                let w = choose|w: int| 0 <= w < prev.len() && prev[w] == j;
                assert(cur[w] == j);
            }
        }
    }
}

/// Removing the lowest not-yet-removed selected index `j` from a collection
/// already collapsed above `b` yields the collection collapsed above `j`.
proof fn lemma_partial_delete_step(s: Seq<TicketModel>, j: int, b: int)
    requires
        0 <= j < b <= s.len(),
        s[j].selected,
        forall|m: int| j < m < b ==> !s[m].selected,
    ensures
        partial_delete(s, b).remove(j) == partial_delete(s, j),
{
    broadcast use vstd::seq_lib::group_filter_ensures;

    let mid = s.subrange(j + 1, b);
    let one = s.subrange(j, j + 1);
    assert(s.skip(j) =~= one + (mid + s.skip(b)));
    assert(one.drop_last() =~= Seq::<TicketModel>::empty());
    assert(one.last() == s[j]);
    reveal_with_fuel(Seq::<_>::filter, 2);
    assert(survivors(one) =~= Seq::<TicketModel>::empty());
    assert(survivors(s.skip(j)) == survivors(one) + survivors(mid + s.skip(b)));
    assert(survivors(mid + s.skip(b)) == survivors(mid) + survivors(s.skip(b)));
    lemma_survivors_all_kept(mid);
    assert(survivors(s.skip(j)) =~= mid + survivors(s.skip(b)));
    assert(partial_delete(s, b).remove(j) =~= s.take(j) + (mid + survivors(s.skip(b))));
    assert(partial_delete(s, j) =~= s.take(j) + (mid + survivors(s.skip(b))));
}

/// A bulk delete finished at the lowest selected index `b0` (or never
/// started, on a collection with nothing selected) has produced exactly the
/// surviving subsequence.
proof fn lemma_partial_delete_done(s: Seq<TicketModel>, b0: int)
    requires
        0 <= b0 <= s.len(),
        forall|m: int| 0 <= m < b0 ==> !s[m].selected,
    ensures
        partial_delete(s, b0) == survivors(s),
{
    broadcast use vstd::seq_lib::group_filter_ensures;

    assert(s =~= s.take(b0) + s.skip(b0));
    assert(survivors(s.take(b0) + s.skip(b0)) == survivors(s.take(b0)) + survivors(s.skip(b0)));
    lemma_survivors_all_kept(s.take(b0));
}

/// The survivors of a bulk delete are exactly the items that were not
/// selected: together with the selected count they account for the whole
/// collection.
pub proof fn lemma_survivors_len(s: Seq<TicketModel>)
    ensures
        survivors(s).len() + count_selected_in(s) == s.len(),
    decreases s.len(),
{
    reveal_with_fuel(Seq::<_>::filter, 2);
    if s.len() > 0 {
        lemma_survivors_len(s.drop_last());
        assert(s.last() == s[s.len() - 1]);
        if s.last().selected {
            assert(survivors(s) == survivors(s.drop_last()));
        } else {
            assert(survivors(s) == survivors(s.drop_last()).push(s.last()));
        }
    }
}

/// Range selection is order-independent: the two endpoints may come in
/// either order and the same items are marked, with the same number of
/// indices falling inside the bounds.
pub proof fn lemma_select_range_order_independent(s: Seq<TicketModel>, b: int, e: int, v: bool)
    ensures
        ({
            let lo = if b <= e { b } else { e };
            let hi = if b <= e { e } else { b };
            let lo2 = if e <= b { e } else { b };
            let hi2 = if e <= b { b } else { e };
            set_range(s, lo, hi, v) == set_range(s, lo2, hi2, v)
                && in_bounds_count(lo, hi, s.len() as int)
                    == in_bounds_count(lo2, hi2, s.len() as int)
        }),
{
    let lo = if b <= e { b } else { e };
    let hi = if b <= e { e } else { b };
    let lo2 = if e <= b { e } else { b };
    let hi2 = if e <= b { b } else { e };
    assert(lo == lo2);
    assert(hi == hi2);
}

/// Selecting an inclusive range on an all-unselected collection marks
/// exactly the indices of the range that fall within bounds.
proof fn lemma_count_set_range_all_clear(s: Seq<TicketModel>, lo: int, hi: int)
    requires
        forall|i: int| 0 <= i < s.len() ==> !s[i].selected,
        0 <= lo <= hi,
    ensures
        count_selected_in(set_range(s, lo, hi, true)) == in_bounds_count(lo, hi, s.len() as int),
    decreases s.len(),
{
    let t = set_range(s, lo, hi, true);
    if s.len() > 0 {
        lemma_count_set_range_all_clear(s.drop_last(), lo, hi);
        assert(t.drop_last() =~= set_range(s.drop_last(), lo, hi, true));
        assert(t.last() == t[s.len() - 1]);
    }
}

/// Counting right after a fresh range selection: on an all-unselected
/// collection large enough to contain the whole range `[lo, hi]`, the
/// selected count is exactly `hi - lo + 1`.
pub proof fn lemma_count_after_select_range(s: Seq<TicketModel>, lo: int, hi: int)
    requires
        forall|i: int| 0 <= i < s.len() ==> !s[i].selected,
        0 <= lo <= hi,
        hi + 1 <= s.len(),
    ensures
        count_selected_in(set_range(s, lo, hi, true)) == hi - lo + 1,
{
    lemma_count_set_range_all_clear(s, lo, hi);
}

/// Clearing the selection is idempotent: a second clear changes nothing
/// and finds zero selected items to report.
pub proof fn lemma_clear_selection_idempotent(s: Seq<TicketModel>)
    ensures
        clear_all(clear_all(s)) == clear_all(s),
        count_selected_in(clear_all(s)) == 0,
{
    assert(clear_all(clear_all(s)) =~~= clear_all(s));
    lemma_count_none_selected(clear_all(s));
}

/// What a single click did to the collection: the event kind and the
/// integer a status sink would report.
#[derive(Debug, PartialEq, Eq, Structural)]
pub enum ClickOutcome {
    /// The index was outside the current bounds; nothing changed.
    Skipped,
    /// The clicked item was selected: it is now deselected and the pending
    /// anchor, wherever it pointed, is cleared.
    Deselected,
    /// No range was in progress: the clicked item is now selected and is
    /// the anchor of a new range selection.
    AnchorSet { index: usize },
    /// A pending anchor was completed: the whole inclusive range between
    /// the anchor and the clicked index is now selected.
    RangeSelected { size: usize },
}

/// A sequence with no selected item has a selected-count of zero.
pub proof fn lemma_count_none_selected(s: Seq<TicketModel>)
    requires
        forall|i: int| 0 <= i < s.len() ==> !s[i].selected,
    ensures
        count_selected_in(s) == 0,
    decreases s.len(),
{
    if s.len() > 0 {
        lemma_count_none_selected(s.drop_last());
    }
}

/// The ordered collection of tickets together with the pending range anchor.
pub struct Collection {
    items: Vec<TicketItem>,
    anchor: Option<usize>,
}

impl View for Collection {
    type V = CollectionModel;

    closed spec fn view(&self) -> CollectionModel {
        CollectionModel {
            items: self.items@.map_values(|t: TicketItem| t@),
            anchor: match self.anchor {
                Some(a) => Some(a as int),
                None => None,
            },
        }
    }
}

impl Collection {
    /// The anchor is only ever set to the index of an item that was present
    /// at the time, so it is always strictly below `usize::MAX` even after
    /// the collection shrinks.
    pub closed spec fn wf(&self) -> bool {
        match self.anchor {
            Some(a) => a < usize::MAX,
            None => true,
        }
    }

    /// An empty collection with no selection in progress.
    pub fn new() -> (c: Collection)
        ensures
            c@.items == Seq::<TicketModel>::empty(),
            c@.anchor is None,
            c.wf(),
    {
        let c = Collection { items: Vec::new(), anchor: None };
        proof {
            assert(c@.items =~= Seq::<TicketModel>::empty());
        }
        c
    }

    /// Number of items currently held.
    pub fn len(&self) -> (n: usize)
        ensures
            n == self@.items.len(),
    {
        self.items.len()
    }

    /// The pending anchor index, if a range selection is in progress.
    pub fn anchor(&self) -> (a: Option<usize>)
        ensures
            a matches Some(i) ==> self@.anchor == Some(i as int),
            a is None <==> self@.anchor is None,
    {
        self.anchor
    }

    /// Appends a freshly minted item at the back of the collection.
    pub fn append(&mut self, item: TicketItem)
        ensures
            final(self)@.items == old(self)@.items.push(item@),
            final(self)@.anchor == old(self)@.anchor,
            final(self).wf() == old(self).wf(),
    {
        self.items.push(item);
        proof {
            assert(self@.items =~= old(self)@.items.push(item@));
        }
    }

    /// Inserts a freshly minted item at the front of the collection.
    /// Indices of all existing items shift up by one; the anchor, being
    /// process state rather than item state, is deliberately not adjusted.
    pub fn prepend(&mut self, item: TicketItem)
        ensures
            final(self)@.items == seq![item@] + old(self)@.items,
            final(self)@.anchor == old(self)@.anchor,
            final(self).wf() == old(self).wf(),
    {
        self.items.insert(0, item);
        proof {
            assert(self@.items =~= seq![item@] + old(self)@.items);
        }
    }

    /// Sets the flag of every item with an index in the inclusive range
    /// between `begin` and `end` (in either order) to `selected`.  Indices
    /// outside the current bounds are skipped, never a hard failure.
    /// Returns how many items were actually touched; the anchor is left
    /// alone.
    #[verifier::rlimit(30)]
    pub fn select_range(&mut self, begin: usize, end: usize, selected: bool) -> (applied: usize)
        ensures
            ({
                let lo = if begin <= end { begin as int } else { end as int };
                let hi = if begin <= end { end as int } else { begin as int };
                final(self)@.items == set_range(old(self)@.items, lo, hi, selected)
                    && applied == in_bounds_count(lo, hi, old(self)@.items.len() as int)
            }),
            final(self)@.anchor == old(self)@.anchor,
            final(self).wf() == old(self).wf(),
    {
        let ghost morig = self@.items;
        let ghost anch = self.anchor;
        let lo = if begin <= end { begin } else { end };
        let hi = if begin <= end { end } else { begin };
        let len = self.items.len();
        let mut i = lo;
        let mut applied: usize = 0;
        proof {
            assert forall|j: int| 0 <= j < morig.len() implies self.items@[j]@ == morig[j] by {}
        }
        while i <= hi && i < len
            invariant
                lo <= i,
                lo <= hi,
                i <= hi + 1 || i == lo,
                i <= len || i == lo,
                len == self.items@.len(),
                self.items@.len() == morig.len(),
                self.anchor == anch,
                forall|j: int| 0 <= j < morig.len() && !(lo <= j < i)
                    ==> #[trigger] self.items@[j]@ == morig[j],
                forall|j: int| lo <= j < i ==> #[trigger] self.items@[j]@.uid == morig[j].uid,
                forall|j: int| lo <= j < i ==> #[trigger] self.items@[j]@.selected == selected,
                applied == i - lo,
            decreases hi + 1 - i,
        {
            let ghost prev = self.items@;
            proof {
                assert(self.items@[i as int]@ == morig[i as int]);
            }
            let elem = &mut self.items[i];
            elem.selected = selected;
            let ghost i_set = i as int;
            i = i + 1;
            applied = applied + 1;
            proof {
                assert(self.items@.len() == prev.len());
                assert(self.items@[i_set]@.uid == morig[i_set].uid);
                assert(self.items@[i_set]@.selected == selected);
                assert forall|j: int| 0 <= j < morig.len() && !(lo <= j < i)
                    implies #[trigger] self.items@[j]@ == morig[j] by {
                    assert(self.items@[j] == prev[j]);
                    assert(prev[j]@ == morig[j]);
                }
                assert forall|j: int| lo <= j < i implies #[trigger] self.items@[j]@.uid
                    == morig[j].uid && self.items@[j]@.selected == selected by {
                    if j != i_set {
                        assert(self.items@[j] == prev[j]);
                        assert(prev[j]@.uid == morig[j].uid);
                        assert(prev[j]@.selected == selected);
                    }
                }
            }
        }
        proof {
            let lo_s = if begin <= end { begin as int } else { end as int };
            let hi_s = if begin <= end { end as int } else { begin as int };
            let target = set_range(morig, lo_s, hi_s, selected);
            assert(self@.items.len() == target.len());
            assert forall|j: int| 0 <= j < morig.len() implies self@.items[j] =~~= target[j] by {
                assert(self@.items[j] == self.items@[j]@);
            }
            assert(self@.items =~~= target);
        }
        applied
    }

    /// Clears the flag of every selected item; uids, order and the anchor
    /// are untouched.  Returns how many flags were cleared.
    pub fn clear_selection(&mut self) -> (cleared: usize)
        ensures
            final(self)@.items == clear_all(old(self)@.items),
            count_selected_in(final(self)@.items) == 0,
            final(self)@.anchor == old(self)@.anchor,
            final(self).wf() == old(self).wf(),
            cleared == count_selected_in(old(self)@.items),
    {
        let ghost morig = self@.items;
        let ghost anch = self.anchor;
        let mut cleared: usize = 0;
        let mut i: usize = 0;
        proof {
            assert forall|j: int| 0 <= j < morig.len() implies self.items@[j]@ == morig[j] by {}
        }
        while i < self.items.len()
            invariant
                0 <= i <= self.items@.len(),
                self.items@.len() == morig.len(),
                self.anchor == anch,
                forall|j: int| 0 <= j < i ==> #[trigger] self.items@[j]@.uid == morig[j].uid,
                forall|j: int| 0 <= j < i ==> !(#[trigger] self.items@[j]@.selected),
                forall|j: int| i <= j < morig.len() ==> #[trigger] self.items@[j]@ == morig[j],
                cleared == count_selected_in(morig.subrange(0, i as int)),
                cleared <= i,
            decreases self.items@.len() - i,
        {
            let ghost prev = self.items@;
            proof {
                assert(self.items@[i as int]@ == morig[i as int]);
                assert(morig.subrange(0, i + 1).drop_last() =~= morig.subrange(0, i as int));
                assert(morig.subrange(0, i + 1).last() == morig[i as int]);
            }
            if self.items[i].selected {
                let elem = &mut self.items[i];
                elem.selected = false;
                cleared = cleared + 1;
            }
            proof {
                assert(self.items@.len() == prev.len());
                assert(self.items@[i as int]@.uid == morig[i as int].uid);
                assert(!self.items@[i as int]@.selected);
                assert forall|j: int| 0 <= j < i + 1 implies #[trigger] self.items@[j]@.uid
                    == morig[j].uid && !self.items@[j]@.selected by {
                    if j < i as int {
                        assert(self.items@[j] == prev[j]);
                        assert(prev[j]@.uid == morig[j].uid);
                        assert(!prev[j]@.selected);
                    }
                }
                assert forall|j: int| i + 1 <= j < morig.len() implies #[trigger] self.items@[j]@
                    == morig[j] by {
                    assert(self.items@[j] == prev[j]);
                    assert(prev[j]@ == morig[j]);
                }
            }
            i = i + 1;
        }
        proof {
            assert(morig.subrange(0, morig.len() as int) =~= morig);
            let target = clear_all(morig);
            assert forall|j: int| 0 <= j < morig.len() implies self@.items[j] =~~= target[j] by {
                assert(self@.items[j] == self.items@[j]@);
            }
            assert(self@.items =~~= target);
            lemma_count_none_selected(clear_all(morig));
        }
        cleared
    }

    /// Handles one click on the item at `index`: toggles a selected item
    /// off (cancelling any pending range), starts a range selection when no
    /// anchor is set, or completes the pending range.  A click outside the
    /// current bounds is skipped, never a hard failure.
    pub fn toggle_or_anchor(&mut self, index: usize) -> (out: ClickOutcome)
        requires
            old(self).wf(),
        ensures
            final(self).wf(),
            index >= old(self)@.items.len() ==> final(self)@ == old(self)@
                && out == ClickOutcome::Skipped,
            index < old(self)@.items.len() && old(self)@.items[index as int].selected ==> {
                &&& final(self)@.items == set_range(old(self)@.items, index as int, index as int,
                    false)
                &&& final(self)@.anchor is None
                &&& out == ClickOutcome::Deselected
            },
            index < old(self)@.items.len() && !old(self)@.items[index as int].selected
                && old(self)@.anchor is None ==> {
                &&& final(self)@.items == set_range(old(self)@.items, index as int, index as int,
                    true)
                &&& final(self)@.anchor == Some(index as int)
                &&& out == (ClickOutcome::AnchorSet { index })
            },
            forall|a: int| index < old(self)@.items.len()
                && !old(self)@.items[index as int].selected
                && old(self)@.anchor == Some(a) ==> ({
                let lo = if a <= index as int { a } else { index as int };
                let hi = if a <= index as int { index as int } else { a };
                &&& final(self)@.items == set_range(old(self)@.items, lo, hi, true)
                &&& final(self)@.anchor is None
                &&& out == (ClickOutcome::RangeSelected { size: (hi - lo + 1) as usize })
            }),
    {
        let len = self.items.len();
        if index >= len {
            return ClickOutcome::Skipped;
        }
        if self.items[index].selected {
            let _applied = self.select_range(index, index, false);
            self.anchor = None;
            ClickOutcome::Deselected
        } else {
            match self.anchor {
                None => {
                    let _applied = self.select_range(index, index, true);
                    self.anchor = Some(index);
                    ClickOutcome::AnchorSet { index }
                },
                Some(a) => {
                    let lo = if a <= index { a } else { index };
                    let hi = if a <= index { index } else { a };
                    let size = hi - lo + 1;
                    let _applied = self.select_range(a, index, true);
                    self.anchor = None;
                    ClickOutcome::RangeSelected { size }
                },
            }
        }
    }

    /// The uid of the item at `index`, if the index is in bounds.
    pub fn uid_at(&self, index: usize) -> (uid: Option<String>)
        ensures
            index < self@.items.len() ==> (uid matches Some(u)
                && u@ == self@.items[index as int].uid),
            index >= self@.items.len() ==> uid is None,
    {
        if index < self.items.len() {
            Some(self.items[index].uid.clone())
        } else {
            None
        }
    }

    /// The selection flag of the item at `index`, if the index is in bounds.
    pub fn selected_at(&self, index: usize) -> (sel: Option<bool>)
        ensures
            index < self@.items.len() ==> sel == Some(self@.items[index as int].selected),
            index >= self@.items.len() ==> sel is None,
    {
        if index < self.items.len() {
            Some(self.items[index].selected)
        } else {
            None
        }
    }

    /// Removes every selected item, preserving the relative order of the
    /// surviving items, and returns how many were removed.  The indices of
    /// the selected items are collected first and then removed from the
    /// highest to the lowest, so an earlier removal never shifts an index
    /// that is still due to be removed.
    pub fn delete_selected(&mut self) -> (removed: usize)
        ensures
            final(self)@.items == survivors(old(self)@.items),
            final(self)@.anchor == old(self)@.anchor,
            final(self).wf() == old(self).wf(),
            removed == count_selected_in(old(self)@.items),
            final(self)@.items.len() + removed == old(self)@.items.len(),
    {
        let ghost morig = self@.items;
        let ghost anch = self.anchor;
        let n = self.items.len();

        // First pass: collect the indices of the selected items, ascending.
        let mut idx: Vec<usize> = Vec::new();
        let mut i: usize = 0;
        proof {
            assert forall|j: int| 0 <= j < morig.len() implies self.items@[j]@ == morig[j] by {}
        }
        while i < n
            invariant
                0 <= i <= n,
                n == self.items@.len(),
                self.items@.len() == morig.len(),
                self.anchor == anch,
                forall|j: int| 0 <= j < morig.len() ==> #[trigger] self.items@[j]@ == morig[j],
                idx@.len() == selected_indices(morig, i as int).len(),
                forall|m: int| 0 <= m < idx@.len()
                    ==> #[trigger] idx@[m] as int == selected_indices(morig, i as int)[m],
            decreases n - i,
        {
            proof {
                assert(self.items@[i as int]@ == morig[i as int]);
            }
            let ghost pidx = idx@;
            if self.items[i].selected {
                idx.push(i);
            }
            i = i + 1;
            proof {
                let cur = selected_indices(morig, i as int);
                if morig[i - 1].selected {
                    assert(cur == selected_indices(morig, i - 1).push(i - 1));
                    assert(idx@ == pidx.push((i - 1) as usize));
                } else {
                    assert(cur == selected_indices(morig, i - 1));
                    assert(idx@ == pidx);
                }
                assert forall|m: int| 0 <= m < idx@.len() implies #[trigger] idx@[m] as int
                    == cur[m] by {
                    if m < pidx.len() {
                        assert(idx@[m] == pidx[m]);
                    }
                }
            }
        }
        proof {
            lemma_selected_indices_props(morig, morig.len() as int);
            lemma_selected_indices_len(morig, morig.len() as int);
            assert(morig.subrange(0, morig.len() as int) =~= morig);
        }
        let ghost si = selected_indices(morig, morig.len() as int);

        // Second pass: remove the collected indices, highest first.
        let mut removed: usize = 0;
        let mut k = idx.len();
        proof {
            assert(self.items@.len() as int == morig.len());
            assert(morig.take(morig.len() as int) =~= morig);
            assert(morig.skip(morig.len() as int) =~= Seq::<TicketModel>::empty());
            reveal_with_fuel(Seq::<_>::filter, 1);
            assert(survivors(morig.skip(morig.len() as int)) =~= Seq::<TicketModel>::empty());
            assert forall|j: int| 0 <= j < morig.len() implies self@.items[j]
                == partial_delete(morig, morig.len() as int)[j] by {
                assert(self@.items[j] == self.items@[j]@);
            }
            assert(self@.items =~= partial_delete(morig, morig.len() as int));
        }
        while k > 0
            invariant
                0 <= k <= si.len(),
                si == selected_indices(morig, morig.len() as int),
                idx@.len() == si.len(),
                idx@.len() <= usize::MAX,
                forall|m: int| 0 <= m < si.len() ==> #[trigger] idx@[m] as int == si[m],
                forall|m: int| 0 <= m < si.len() ==> 0 <= #[trigger] si[m] < morig.len()
                    && morig[si[m]].selected,
                forall|m1: int, m2: int| 0 <= m1 < m2 < si.len()
                    ==> #[trigger] si[m1] < #[trigger] si[m2],
                forall|j: int| 0 <= j < morig.len() && morig[j].selected ==> si.contains(j),
                self.anchor == anch,
                removed == si.len() - k,
                self@.items == partial_delete(morig,
                    if k == si.len() { morig.len() as int } else { si[k as int] }),
            decreases k,
        {
            k = k - 1;
            let target = idx[k];
            let ghost b_prev: int = if k + 1 == si.len() { morig.len() as int } else {
                si[k as int + 1]
            };
            proof {
                assert(si[k as int] < b_prev);
                assert(self@.items.len() == b_prev + survivors(morig.skip(b_prev)).len());
                assert(self@.items.len() >= b_prev);
                assert(target < self.items@.len());
                assert forall|m: int| si[k as int] < m < b_prev implies !morig[m].selected by {
                    if morig[m].selected {
                        assert(si.contains(m));
                        let w = choose|w: int| 0 <= w < si.len() && si[w] == m;
                        assert(si[k as int] < si[w]);
                        assert((k as int) < w);
                        if (k as int) + 1 < si.len() {
                            assert(w < (k as int) + 1);
                        }
                    }
                }
            }
            let ghost prevraw = self.items@;
            let ghost prevm = self@.items;
            proof {
                assert forall|j: int| 0 <= j < prevraw.len() implies prevm[j] == prevraw[j]@ by {}
            }
            self.items.remove(target);
            removed = removed + 1;
            proof {
                lemma_partial_delete_step(morig, si[k as int], b_prev);
                assert(self.items@ == prevraw.remove(target as int));
                assert(self.items@.len() == prevraw.len() - 1);
                assert forall|j: int| 0 <= j < self.items@.len() implies self@.items[j]
                    == prevm.remove(target as int)[j] by {
                    assert(self@.items[j] == self.items@[j]@);
                    if j < target as int {
                        assert(self.items@[j] == prevraw[j]);
                    } else {
                        assert(self.items@[j] == prevraw[j + 1]);
                    }
                }
                assert(self@.items =~= prevm.remove(target as int));
                assert(self@.items == partial_delete(morig, si[k as int]));
            }
        }
        proof {
            let b0: int = if si.len() == 0 { morig.len() as int } else { si[0] };
            assert forall|m: int| 0 <= m < b0 implies !morig[m].selected by {
                if morig[m].selected {
                    assert(si.contains(m));
                    let w = choose|w: int| 0 <= w < si.len() && si[w] == m;
                    if 0 < w {
                        assert(si[0] < si[w]);
                    }
                }
            }
            lemma_partial_delete_done(morig, b0);
            lemma_survivors_len(morig);
        }
        removed
    }

    /// Number of items whose flag is set; pure, no mutation.
    pub fn count_selected(&self) -> (n: usize)
        ensures
            n == count_selected_in(self@.items),
    {
        let ghost s = self@.items;
        let mut n: usize = 0;
        let mut i: usize = 0;
        while i < self.items.len()
            invariant
                0 <= i <= self.items.len(),
                s == self@.items,
                self@.items.len() == self.items@.len(),
                n == count_selected_in(s.subrange(0, i as int)),
                n <= i,
            decreases self.items.len() - i,
        {
            proof {
                assert(s.subrange(0, i + 1).drop_last() =~= s.subrange(0, i as int));
                assert(s.subrange(0, i + 1).last() == s[i as int]);
            }
            if self.items[i].selected {
                n = n + 1;
            }
            i = i + 1;
        }
        proof {
            assert(s.subrange(0, s.len() as int) =~= s);
        }
        n
    }
}

} // verus!
