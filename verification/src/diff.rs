//! The `Diff` type: a batch of writes to a state map, between two update ids.
use vstd::prelude::*;

use crate::entries::{entries_to_map, entries_view, keys_distinct, upsert, EntryView};
use crate::keys::copy_bytes;

verus! {

/// A `Diff` says how to update the values of a [`crate::StateMap`]:
/// [`Diff::get_diff`] gives the `(key, value)` writes, in the order they apply.
/// It also says whether it carries the whole state, and which update ids it spans.
#[derive(Debug, Clone)]
pub struct Diff {
    diff: Vec<(Vec<u8>, Vec<u8>)>,
    is_full: bool,
    from_update_id: u64,
    upto_update_id: u64,
}

/// What a [`Diff`] holds.
pub struct DiffView {
    pub entries: Seq<EntryView>,
    pub is_full: bool,
    pub from_update_id: u64,
    pub upto_update_id: u64,
}

impl View for Diff {
    type V = DiffView;

    closed spec fn view(&self) -> DiffView {
        DiffView {
            entries: entries_view(self.diff@),
            is_full: self.is_full,
            from_update_id: self.from_update_id,
            upto_update_id: self.upto_update_id,
        }
    }
}

/// The views of a sequence of diffs.
pub open spec fn diffs_view(s: Seq<Diff>) -> Seq<DiffView> {
    s.map_values(|d: Diff| d@)
}

/// The map obtained by writing the entries of the diffs, diff after diff.
pub open spec fn history_map(h: Seq<DiffView>) -> Map<Seq<u8>, Seq<u8>>
    decreases h.len(),
{
    if h.len() == 0 {
        Map::empty()
    } else {
        history_map(h.drop_last()).union_prefer_right(entries_to_map(h.last().entries))
    }
}

/// The smallest `from_update_id` of the diffs (`u64::MAX` for none).
pub open spec fn min_from(h: Seq<DiffView>) -> u64
    decreases h.len(),
{
    if h.len() == 0 {
        u64::MAX
    } else {
        let m = min_from(h.drop_last());
        if h.last().from_update_id < m {
            h.last().from_update_id
        } else {
            m
        }
    }
}

/// The largest `upto_update_id` of the diffs (0 for none).
pub open spec fn max_upto(h: Seq<DiffView>) -> u64
    decreases h.len(),
{
    if h.len() == 0 {
        0
    } else {
        let m = max_upto(h.drop_last());
        if h.last().upto_update_id > m {
            h.last().upto_update_id
        } else {
            m
        }
    }
}

/// `d` is the merge of the diffs `h`: one write per key, with the value the last of
/// the diffs gives it, spanning from the smallest to the largest of their update ids.
pub open spec fn is_merge_of(d: DiffView, h: Seq<DiffView>) -> bool {
    &&& keys_distinct(d.entries)
    &&& entries_to_map(d.entries) == history_map(h)
    &&& !d.is_full
    &&& d.from_update_id == min_from(h)
    &&& d.upto_update_id == max_upto(h)
}

/// `d` is `old` with the writes that a later write to the same key overrides left out.
pub open spec fn is_compression_of(d: DiffView, old: DiffView) -> bool {
    &&& keys_distinct(d.entries)
    &&& entries_to_map(d.entries) == entries_to_map(old.entries)
    &&& d.is_full == old.is_full
    &&& d.from_update_id == old.from_update_id
    &&& d.upto_update_id == old.upto_update_id
}

/// The history map of a concatenation is the first overridden by the second.
pub proof fn lemma_history_map_concat(a: Seq<DiffView>, b: Seq<DiffView>)
    ensures
        history_map(a + b) == history_map(a).union_prefer_right(history_map(b)),
    decreases b.len(),
{
    if b.len() == 0 {
        assert(a + b =~= a);
        assert(history_map(a).union_prefer_right(history_map(b)) =~= history_map(a));
    } else {
        lemma_history_map_concat(a, b.drop_last());
        assert((a + b).drop_last() =~= a + b.drop_last());
        assert(history_map(a + b) =~= history_map(a).union_prefer_right(history_map(b)));
    }
}

impl Diff {
    /// Creates a `Diff` from its writes, whether it carries the whole state, and the
    /// update ids it spans.
    pub fn new(diff: Vec<(Vec<u8>, Vec<u8>)>, is_full: bool, from_update_id: u64, upto_update_id: u64) -> (r: Diff)
        ensures
            r@ == (DiffView {
                entries: entries_view(diff@),
                is_full,
                from_update_id,
                upto_update_id,
            }),
    {
        Diff { diff, is_full, from_update_id, upto_update_id }
    }

    /// A diff without writes, spanning update ids 0 to 0; [`Diff::is_empty`] holds of it.
    pub fn empty() -> (r: Diff)
        ensures
            r@ == (DiffView {
                entries: Seq::empty(),
                is_full: false,
                from_update_id: 0,
                upto_update_id: 0,
            }),
    {
        let r = Diff { diff: Vec::new(), is_full: false, from_update_id: 0, upto_update_id: 0 };
        assert(r@.entries =~= Seq::empty());
        r
    }

    /// The writes of the diff.
    pub fn get_diff(&self) -> (r: &Vec<(Vec<u8>, Vec<u8>)>)
        ensures
            entries_view(r@) == self@.entries,
    {
        &self.diff
    }

    /// Whether the diff carries the whole state.
    pub fn is_full_update(&self) -> (r: bool)
        ensures
            r == self@.is_full,
    {
        self.is_full
    }

    /// The update id the diff applies to.
    pub fn from_update_id(&self) -> (r: u64)
        ensures
            r == self@.from_update_id,
    {
        self.from_update_id
    }

    /// The update id a state map has once the diff is applied.
    pub fn upto_update_id(&self) -> (r: u64)
        ensures
            r == self@.upto_update_id,
    {
        self.upto_update_id
    }

    /// Whether the diff has no writes.
    pub fn is_empty(&self) -> (r: bool)
        ensures
            r == (self@.entries.len() == 0),
    {
        self.diff.len() == 0
    }

    /// Leaves out the writes that a later write to the same key overrides, so that
    /// each key is written once, with its last value.
    pub fn compress(self) -> (r: Diff)
        ensures
            is_compression_of(r@, self@),
            r@.is_full == self@.is_full,
            r@.from_update_id == self@.from_update_id,
            r@.upto_update_id == self@.upto_update_id,
            entries_to_map(r@.entries) == entries_to_map(self@.entries),
    {
        let mut acc: Vec<(Vec<u8>, Vec<u8>)> = Vec::new();
        let mut j: usize = 0;
        let ghost e = self@.entries;
        assert(entries_view(acc@) =~= Seq::<EntryView>::empty());
        assert(e.take(0) =~= Seq::<EntryView>::empty());
        while j < self.diff.len()
            invariant
                e == entries_view(self.diff@),
                j <= self.diff@.len(),
                keys_distinct(entries_view(acc@)),
                entries_to_map(entries_view(acc@)) == entries_to_map(e.take(j as int)),
            decreases self.diff@.len() - j,
        {
            let k = copy_bytes(self.diff[j].0.as_slice());
            let v = copy_bytes(self.diff[j].1.as_slice());
            upsert(&mut acc, k, v);
            assert(e.take(j + 1).drop_last() =~= e.take(j as int));
            j = j + 1;
        }
        assert(e.take(self.diff@.len() as int) =~= e);
        Diff {
            diff: acc,
            is_full: self.is_full,
            from_update_id: self.from_update_id,
            upto_update_id: self.upto_update_id,
        }
    }

    /// Merges the diffs `h[start..end]` into one diff.
    pub(crate) fn merge_range(h: &Vec<Diff>, start: usize, end: usize) -> (r: Diff)
        requires
            start <= end <= h@.len(),
        ensures
            is_merge_of(r@, diffs_view(h@).subrange(start as int, end as int)),
    {
        let ghost hv = diffs_view(h@);
        let mut acc: Vec<(Vec<u8>, Vec<u8>)> = Vec::new();
        let mut min_id: u64 = u64::MAX;
        let mut max_id: u64 = 0;
        let mut i: usize = start;
        assert(entries_view(acc@) =~= Seq::<EntryView>::empty());
        assert(hv.subrange(start as int, start as int) =~= Seq::<DiffView>::empty());
        assert(history_map(Seq::<DiffView>::empty()) =~= Map::empty());
        while i < end
            invariant
                hv == diffs_view(h@),
                start <= i <= end <= h@.len(),
                keys_distinct(entries_view(acc@)),
                entries_to_map(entries_view(acc@)) == history_map(
                    hv.subrange(start as int, i as int),
                ),
                min_id == min_from(hv.subrange(start as int, i as int)),
                max_id == max_upto(hv.subrange(start as int, i as int)),
            decreases end - i,
        {
            let d = &h[i];
            let ghost e = d@.entries;
            let ghost base = history_map(hv.subrange(start as int, i as int));
            assert(hv[i as int] == d@);
            if d.from_update_id < min_id {
                min_id = d.from_update_id;
            }
            if d.upto_update_id > max_id {
                max_id = d.upto_update_id;
            }
            let mut j: usize = 0;
            assert(e.take(0) =~= Seq::<EntryView>::empty());
            assert(base.union_prefer_right(entries_to_map(e.take(0))) =~= base);
            while j < d.diff.len()
                invariant
                    e == entries_view(d.diff@),
                    j <= d.diff@.len(),
                    keys_distinct(entries_view(acc@)),
                    entries_to_map(entries_view(acc@)) == base.union_prefer_right(
                        entries_to_map(e.take(j as int)),
                    ),
                decreases d.diff@.len() - j,
            {
                let k = copy_bytes(d.diff[j].0.as_slice());
                let v = copy_bytes(d.diff[j].1.as_slice());
                upsert(&mut acc, k, v);
                assert(e.take(j + 1).drop_last() =~= e.take(j as int));
                assert(base.union_prefer_right(entries_to_map(e.take(j + 1))) =~= base.union_prefer_right(
                    entries_to_map(e.take(j as int)),
                ).insert(k@, v@));
                j = j + 1;
            }
            assert(e.take(d.diff@.len() as int) =~= e);
            assert(hv.subrange(start as int, i + 1).drop_last() =~= hv.subrange(
                start as int,
                i as int,
            ));
            i = i + 1;
        }
        Diff { diff: acc, is_full: false, from_update_id: min_id, upto_update_id: max_id }
    }

    /// Merges a sequence of diffs into one: each key is written once, with the value the
    /// last diff writing it gives; the result spans from the smallest `from_update_id` to
    /// the largest `upto_update_id` (`u64::MAX` and 0 when there are no diffs), and is not
    /// a full update.
    pub fn merge(diffs: Vec<Diff>) -> (r: Diff)
        ensures
            is_merge_of(r@, diffs_view(diffs@)),
    {
        let r = Diff::merge_range(&diffs, 0, diffs.len());
        assert(diffs_view(diffs@).subrange(0, diffs@.len() as int) =~= diffs_view(diffs@));
        r
    }
}

} // verus!
