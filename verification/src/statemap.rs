//! The `StateMap`: a key-value state that one master changes and replicas follow.
//!
//! Keys are pushed while the map is being built; freezing it computes a SHA-256 digest of
//! that initial state, which identifies the map. Afterwards only the values change: on a
//! master through [`StateMap::set`] and [`StateMapModifier::commit`], each of which records a
//! diff in the map's history, and on a replica by applying the diffs its remote fetches
//! ([`StateMap::set_update_id`]).
use vstd::prelude::*;

use crate::diff::{diffs_view, is_merge_of, Diff, DiffView};
use crate::digest::{hash_input, push_record, sha256, sha256_digest};
use crate::entries::{
    copy_entries, entries_to_map, entries_view, find_key, keys_distinct, lemma_distinct_lookup,
    lemma_entries_to_map_dom, upsert, EntryView,
};
use crate::keys::{copy_bytes, key_order, keys_view, lemma_key_order_total, sort_keys};
use crate::remote::Remote;
use vstd::string::StringExecFns;

pub use crate::keys::{StateMapKey, StateMapValue};

verus! {

/// The errors of state map operations.
#[derive(Debug, PartialEq, Eq)]
pub enum StateMapError {
    /// The map is frozen: keys cannot be added, and only a master changes values.
    Frozen,
    /// The map is not frozen yet; freeze it before fetching updates.
    Unfrozen,
    /// Fetching updates failed; the message says why.
    FetchUpdateError(String),
    /// The key is not in the map.
    KeyNotFound,
    /// The fetched diff has no changes.
    EmptyDiff,
    /// Some other error, such as one of the remote.
    UnknownError(String),
}

/// The decimal digit `d` (below 10) as a character.
pub open spec fn digit_char(d: nat) -> char {
    (d + 48) as char
}

/// The decimal writing of `n`, without leading zeros.
pub open spec fn decimal(n: nat) -> Seq<char>
    decreases n,
{
    if n < 10 {
        seq![digit_char(n)]
    } else {
        decimal(n / 10).push(digit_char(n % 10))
    }
}

/// Writes `n` in decimal, with `to_string`. The contract claims what the `Display` of an
/// unsigned integer writes: its decimal digits, without leading zeros.
#[verifier::external_body]
fn decimal_text(n: u64) -> (r: String)
    ensures
        r@ == decimal(n as nat),
{
    n.to_string()
}

/// The message of the error for a fetched diff that starts after the map's update id.
pub open spec fn inconsistent_diff_message(from_update_id: u64, update_id: u64) -> Seq<char> {
    "The from update id is not consistent, diff from_update_id: "@ + decimal(
        from_update_id as nat,
    ) + ", self update_id: "@ + decimal(update_id as nat)
}

/// The message of the error for a fetched diff that starts after the map's update id.
fn inconsistent_diff_text(from_update_id: u64, update_id: u64) -> (r: String)
    ensures
        r@ == inconsistent_diff_message(from_update_id, update_id),
{
    let mut s = String::from_str("The from update id is not consistent, diff from_update_id: ");
    let from = decimal_text(from_update_id);
    s.append(from.as_str());
    s.append(", self update_id: ");
    let current = decimal_text(update_id);
    s.append(current.as_str());
    s
}

/// The message of the error for a fetched diff that ends before the map's update id.
pub open spec fn backward_diff_message(upto_update_id: u64, update_id: u64) -> Seq<char> {
    "The diff would move the state backwards, diff upto_update_id: "@ + decimal(
        upto_update_id as nat,
    ) + ", self update_id: "@ + decimal(update_id as nat)
}

/// The message of the error for a fetched diff that ends before the map's update id.
fn backward_diff_text(upto_update_id: u64, update_id: u64) -> (r: String)
    ensures
        r@ == backward_diff_message(upto_update_id, update_id),
{
    let mut s = String::from_str("The diff would move the state backwards, diff upto_update_id: ");
    let upto = decimal_text(upto_update_id);
    s.append(upto.as_str());
    s.append(", self update_id: ");
    let current = decimal_text(update_id);
    s.append(current.as_str());
    s
}

/// A key-value state that preserves the order in which keys were pushed, takes new keys
/// only until it is frozen, and never loses a key.
///
/// Freezing it computes a SHA-256 digest of the initial keys and values, which identifies
/// the map. Afterwards updates can be fetched with [`StateMap::set_update_id`]; a master map
/// changes values with [`StateMap::set`] or [`StateMap::begin_modification`].
/// The initial state of the map has update id 0.
pub struct StateMap<R> {
    table: Table,
    update_id: u64,
    hash: Option<[u8; 32]>,
    remote: R,
    is_master: bool,
    diffs: Vec<Diff>,
}

/// What a [`StateMap`] holds.
pub struct StateMapView {
    /// Each key with its current value.
    pub data: Map<Seq<u8>, Seq<u8>>,
    /// The keys in the order they were pushed (sorted once the map is frozen).
    pub order: Seq<Seq<u8>>,
    pub update_id: u64,
    /// The digest of the initial state, once the map is frozen.
    pub hash: Option<Seq<u8>>,
    pub is_master: bool,
    /// The diffs recorded, oldest first.
    pub history: Seq<DiffView>,
}

impl<R> View for StateMap<R> {
    type V = StateMapView;

    closed spec fn view(&self) -> StateMapView {
        StateMapView {
            data: self.table.data_map(),
            order: keys_view(self.table.order@),
            update_id: self.update_id,
            hash: match self.hash {
                Some(h) => Some(h@),
                None => None,
            },
            is_master: self.is_master,
            history: diffs_view(self.diffs@),
        }
    }
}

/// The digest that identifies a map frozen with the keys `order` and the values `data`:
/// SHA-256 over the records of the keys in ascending order.
pub open spec fn frozen_hash(order: Seq<Seq<u8>>, data: Map<Seq<u8>, Seq<u8>>) -> Seq<u8> {
    sha256_digest(hash_input(order.sort_by(key_order()), data))
}

/// `d` carries the whole state of `v`: its values for all keys, from update id 0 up to
/// the map's update id.
pub open spec fn is_full_diff_of(d: DiffView, v: StateMapView) -> bool {
    &&& keys_distinct(d.entries)
    &&& entries_to_map(d.entries) == v.data
    &&& d.is_full
    &&& d.from_update_id == 0
    &&& d.upto_update_id == v.update_id
}

/// The diff without changes whose update ids are both 0.
pub open spec fn empty_diff_view() -> DiffView {
    DiffView { entries: Seq::empty(), is_full: false, from_update_id: 0, upto_update_id: 0 }
}

/// `new` is `old` frozen: keys sorted, digest computed, and a full diff recorded.
pub open spec fn froze(old: StateMapView, new: StateMapView) -> bool {
    &&& new.data == old.data
    &&& new.update_id == old.update_id
    &&& new.is_master == old.is_master
    &&& new.order == old.order.sort_by(key_order())
    &&& new.hash == Some(frozen_hash(old.order, old.data))
    &&& new.history.len() == old.history.len() + 1
    &&& new.history.drop_last() == old.history
    &&& is_full_diff_of(new.history.last(), old)
}

/// What a call does to the digest of a map: a call of [`StateMap::freeze`] (`freezes`)
/// leaves the map frozen and keeps the digest of a map that was already frozen; any other
/// call keeps the digest, or its absence.
pub open spec fn digest_step(old: StateMapView, new: StateMapView, freezes: bool) -> bool {
    if freezes {
        new.hash is Some && (old.hash is Some ==> new.hash == old.hash)
    } else {
        new.hash == old.hash
    }
}

/// The map after `set(key, value)` succeeded.
pub open spec fn after_set(v: StateMapView, key: Seq<u8>, value: Seq<u8>) -> StateMapView {
    after_commit(v, seq![(key, value)])
}

/// The map after changes `pending` were committed as one diff.
pub open spec fn after_commit(v: StateMapView, pending: Seq<EntryView>) -> StateMapView {
    StateMapView {
        data: v.data.union_prefer_right(entries_to_map(pending)),
        update_id: (v.update_id + 1) as u64,
        history: v.history.push(
            DiffView {
                entries: pending,
                is_full: false,
                from_update_id: v.update_id,
                upto_update_id: (v.update_id + 1) as u64,
            },
        ),
        ..v
    }
}

/// The map after the fetched diff `d` was applied: the values it gives to keys of the map
/// are written, and it takes the diff's update id.
pub open spec fn after_fetch(v: StateMapView, d: DiffView) -> StateMapView {
    StateMapView {
        data: v.data.union_prefer_right(entries_to_map(d.entries).restrict(v.data.dom())),
        update_id: d.upto_update_id,
        ..v
    }
}

/// The view of what a remote returned.
pub open spec fn fetched_view(f: Result<Diff, String>) -> Result<DiffView, Seq<char>> {
    match f {
        Ok(d) => Ok(d@),
        Err(m) => Err(m@),
    }
}

/// What applying the result `fetched` of a fetch does: a failed fetch, a diff without
/// changes, a diff that starts after the map's update id and a diff that ends before it
/// are refused and change nothing; any other diff is applied.
pub open spec fn applies_fetched(
    old: StateMapView,
    fetched: Result<DiffView, Seq<char>>,
    new: StateMapView,
    r: Result<(), StateMapError>,
) -> bool {
    match fetched {
        Err(msg) => new == old && (r matches Err(StateMapError::FetchUpdateError(m)) && m@ == msg),
        Ok(d) => if d.entries.len() == 0 {
            new == old && r == Err::<(), StateMapError>(StateMapError::EmptyDiff)
        } else if d.from_update_id > old.update_id {
            new == old && (r matches Err(StateMapError::FetchUpdateError(m)) && m@
                == inconsistent_diff_message(d.from_update_id, old.update_id))
        } else if d.upto_update_id < old.update_id {
            new == old && (r matches Err(StateMapError::FetchUpdateError(m)) && m@
                == backward_diff_message(d.upto_update_id, old.update_id))
        } else {
            new == after_fetch(old, d) && r is Ok
        },
    }
}

/// The index of the first diff of `h`, from index `i` on, whose `from_update_id` is at
/// least `from` (`h.len()` if there is none).
pub open spec fn first_from_at_least(h: Seq<DiffView>, from: u64, i: int) -> int
    decreases h.len() - i,
{
    if i < 0 || i >= h.len() {
        h.len() as int
    } else if h[i].from_update_id >= from {
        i
    } else {
        first_from_at_least(h, from, i + 1)
    }
}

/// The index of the last diff of `h`, up to index `j`, whose `upto_update_id` is at most
/// `upto` (-1 if there is none).
pub open spec fn last_upto_at_most(h: Seq<DiffView>, upto: u64, j: int) -> int
    decreases j + 1,
{
    if j < 0 || j >= h.len() {
        -1
    } else if h[j].upto_update_id <= upto {
        j
    } else {
        last_upto_at_most(h, upto, j - 1)
    }
}

/// Where a diff served for `from` starts in the history.
pub open spec fn diff_start(h: Seq<DiffView>, from: u64) -> int {
    first_from_at_least(h, from, 0)
}

/// Where a diff served up to `upto` ends in the history (inclusive).
pub open spec fn diff_end(h: Seq<DiffView>, upto: u64) -> int {
    last_upto_at_most(h, upto, h.len() - 1)
}

/// No diff of the history starts exactly at `from`, with none before it starting later:
/// the whole state is served.
pub open spec fn serves_full(h: Seq<DiffView>, from: u64) -> bool {
    let s = diff_start(h, from);
    s >= h.len() || h[s].from_update_id != from || h.last().from_update_id < from
}

/// No diff of the history ends at or before `upto`, or the one that ends exactly at
/// `upto` is preceded by a first diff that ends later: nothing is served.
pub open spec fn serves_empty(h: Seq<DiffView>, upto: u64) -> bool {
    let e = diff_end(h, upto);
    e < 0 || (h[e].upto_update_id == upto && h[0].upto_update_id > upto)
}

/// The inputs on which serving a diff is defined: a history that is not empty.
pub open spec fn get_diff_defined(h: Seq<DiffView>) -> bool {
    h.len() > 0
}

/// The diffs of the history from where a diff served for `from` starts would end before
/// it, up to `upto`: the request asks to go backwards.
pub open spec fn serves_backward(h: Seq<DiffView>, from: u64, upto: u64) -> bool {
    diff_start(h, from) > diff_end(h, upto) + 1
}

/// The diff that `v` serves for a replica at update id `from` asking for `upto`.
pub open spec fn get_diff_spec(v: StateMapView, from: u64, upto: u64, d: DiffView) -> bool {
    if serves_full(v.history, from) {
        is_full_diff_of(d, v)
    } else if serves_empty(v.history, upto) || serves_backward(v.history, from, upto) {
        d == empty_diff_view()
    } else {
        is_merge_of(d, v.history.subrange(diff_start(v.history, from), diff_end(v.history, upto) + 1))
    }
}

pub(crate) proof fn lemma_first_from(h: Seq<DiffView>, from: u64, i: int, idx: int)
    requires
        0 <= i <= idx <= h.len(),
        forall|q: int| i <= q < idx ==> h[q].from_update_id < from,
        idx < h.len() ==> h[idx].from_update_id >= from,
    ensures
        first_from_at_least(h, from, i) == idx,
    decreases idx - i,
{
    if i < idx {
        lemma_first_from(h, from, i + 1, idx);
    }
}

pub(crate) proof fn lemma_last_upto(h: Seq<DiffView>, upto: u64, j: int, e: int)
    requires
        -1 <= e <= j < h.len(),
        forall|q: int| e < q <= j ==> h[q].upto_update_id > upto,
        e >= 0 ==> h[e].upto_update_id <= upto,
    ensures
        last_upto_at_most(h, upto, j) == e,
    decreases j - e,
{
    if e < j {
        lemma_last_upto(h, upto, j - 1, e);
    }
}

/// The keys and values of a state map, and the keys in the order they were pushed.
struct Table {
    data: Vec<(Vec<u8>, Vec<u8>)>,
    order: Vec<Vec<u8>>,
}

impl Table {
    /// No key is stored twice, and every pushed key has a value.
    spec fn wf(&self) -> bool {
        &&& keys_distinct(entries_view(self.data@))
        &&& forall|i: int|
            0 <= i < self.order@.len() ==> #[trigger] self.data_map().contains_key(
                self.order@[i]@,
            )
    }

    spec fn data_map(&self) -> Map<Seq<u8>, Seq<u8>> {
        entries_to_map(entries_view(self.data@))
    }

    fn empty() -> (t: Table)
        ensures
            t.wf(),
            t.data_map() == Map::<Seq<u8>, Seq<u8>>::empty(),
            keys_view(t.order@) == Seq::<Seq<u8>>::empty(),
    {
        let t = Table { data: Vec::new(), order: Vec::new() };
        assert(entries_view(t.data@) =~= Seq::<EntryView>::empty());
        assert(keys_view(t.order@) =~= Seq::<Seq<u8>>::empty());
        t
    }

    /// Writes `value` for `key`, which need not be there yet; the pushed keys stay.
    fn write(&mut self, key: Vec<u8>, value: Vec<u8>)
        requires
            old(self).wf(),
        ensures
            final(self).wf(),
            final(self).data_map() == old(self).data_map().insert(key@, value@),
            final(self).order@ == old(self).order@,
    {
        let ghost old_map = self.data_map();
        upsert(&mut self.data, key, value);
        assert forall|i: int| 0 <= i < self.order@.len() implies #[trigger] self.data_map().contains_key(
            self.order@[i]@,
        ) by {
            assert(old_map.contains_key(self.order@[i]@));
        }
    }

    /// Writes the entries `entries` in order.
    fn write_all(&mut self, entries: &Vec<(Vec<u8>, Vec<u8>)>)
        requires
            old(self).wf(),
        ensures
            final(self).wf(),
            final(self).data_map() == old(self).data_map().union_prefer_right(
                entries_to_map(entries_view(entries@)),
            ),
            final(self).order@ == old(self).order@,
    {
        let ghost old_map = self.data_map();
        let ghost e = entries_view(entries@);
        let mut i: usize = 0;
        assert(e.take(0) =~= Seq::<EntryView>::empty());
        assert(old_map.union_prefer_right(entries_to_map(e.take(0))) =~= old_map);
        while i < entries.len()
            invariant
                e == entries_view(entries@),
                i <= entries@.len(),
                self.wf(),
                self.data_map() == old_map.union_prefer_right(entries_to_map(e.take(i as int))),
                self.order@ == old(self).order@,
            decreases entries@.len() - i,
        {
            let k = copy_bytes(entries[i].0.as_slice());
            let v = copy_bytes(entries[i].1.as_slice());
            self.write(k, v);
            proof {
                assert(e.take(i + 1).drop_last() =~= e.take(i as int));
                assert(old_map.union_prefer_right(entries_to_map(e.take(i + 1)))
                    =~= old_map.union_prefer_right(entries_to_map(e.take(i as int))).insert(
                    k@,
                    v@,
                ));
            }
            i = i + 1;
        }
        assert(e.take(entries@.len() as int) =~= e);
    }

    /// Adds `key` with `value`, and records `key` as pushed unless it already was.
    fn push_key(&mut self, key: Vec<u8>, value: Vec<u8>)
        requires
            old(self).wf(),
        ensures
            final(self).wf(),
            final(self).data_map() == old(self).data_map().insert(key@, value@),
            keys_view(final(self).order@) == if old(self).data_map().contains_key(key@) {
                keys_view(old(self).order@)
            } else {
                keys_view(old(self).order@).push(key@)
            },
    {
        if self.get(key.as_slice()).is_some() {
            self.write(key, value);
            return ;
        }
        let ghost old_order = self.order@;
        let ghost old_map = self.data_map();
        let k = copy_bytes(key.as_slice());
        upsert(&mut self.data, key, value);
        self.order.push(k);
        assert(keys_view(self.order@) =~= keys_view(old_order).push(k@));
        assert forall|i: int| 0 <= i < self.order@.len() implies #[trigger] self.data_map().contains_key(
            self.order@[i]@,
        ) by {
            if i < old_order.len() {
                assert(self.order@[i] == old_order[i]);
                assert(old_map.contains_key(old_order[i]@));
            } else {
                assert(self.order@[i] == k);
            }
        }
    }

    /// Writes the entries of `entries` whose keys the table already has, in order; the
    /// others are left out.
    fn write_known(&mut self, entries: &Vec<(Vec<u8>, Vec<u8>)>)
        requires
            old(self).wf(),
        ensures
            final(self).wf(),
            final(self).data_map() == old(self).data_map().union_prefer_right(
                entries_to_map(entries_view(entries@)).restrict(old(self).data_map().dom()),
            ),
            final(self).order@ == old(self).order@,
    {
        let ghost old_map = self.data_map();
        let ghost e = entries_view(entries@);
        let mut i: usize = 0;
        assert(e.take(0) =~= Seq::<EntryView>::empty());
        assert(old_map.union_prefer_right(entries_to_map(e.take(0)).restrict(old_map.dom()))
            =~= old_map);
        while i < entries.len()
            invariant
                e == entries_view(entries@),
                i <= entries@.len(),
                self.wf(),
                self.data_map() == old_map.union_prefer_right(
                    entries_to_map(e.take(i as int)).restrict(old_map.dom()),
                ),
                self.data_map().dom() == old_map.dom(),
                self.order@ == old(self).order@,
            decreases entries@.len() - i,
        {
            let ghost prev = entries_to_map(e.take(i as int));
            assert(e.take(i + 1).drop_last() =~= e.take(i as int));
            assert(entries_to_map(e.take(i + 1)) == prev.insert(e[i as int].0, e[i as int].1));
            if self.get(entries[i].0.as_slice()).is_some() {
                let k = copy_bytes(entries[i].0.as_slice());
                let v = copy_bytes(entries[i].1.as_slice());
                self.write(k, v);
                assert(old_map.union_prefer_right(
                    entries_to_map(e.take(i + 1)).restrict(old_map.dom()),
                ) =~= old_map.union_prefer_right(prev.restrict(old_map.dom())).insert(k@, v@));
                assert(self.data_map().dom() =~= old_map.dom());
            } else {
                assert(old_map.union_prefer_right(
                    entries_to_map(e.take(i + 1)).restrict(old_map.dom()),
                ) =~= old_map.union_prefer_right(prev.restrict(old_map.dom())));
            }
            i = i + 1;
        }
        assert(e.take(entries@.len() as int) =~= e);
    }

    /// The value of `key`, if there is one.
    fn get(&self, key: &[u8]) -> (r: Option<&Vec<u8>>)
        requires
            self.wf(),
        ensures
            match r {
                Some(v) => self.data_map().contains_key(key@) && v@ == self.data_map()[key@],
                None => !self.data_map().contains_key(key@),
            },
    {
        match find_key(&self.data, key) {
            Some(i) => {
                proof {
                    lemma_distinct_lookup(entries_view(self.data@), i as int);
                }
                Some(&self.data[i].1)
            },
            None => {
                proof {
                    lemma_entries_to_map_dom(entries_view(self.data@), key@);
                }
                None
            },
        }
    }

    /// Sorts the pushed keys ascending.
    fn sort_order(&mut self)
        requires
            old(self).wf(),
        ensures
            final(self).wf(),
            final(self).data_map() == old(self).data_map(),
            keys_view(final(self).order@) == keys_view(old(self).order@).sort_by(key_order()),
    {
        let ghost old_keys = keys_view(self.order@);
        let sorted = sort_keys(&self.order);
        self.order = sorted;
        proof {
            lemma_key_order_total();
            old_keys.lemma_sort_by_ensures(key_order());
            assert forall|i: int| 0 <= i < self.order@.len() implies #[trigger] self.data_map().contains_key(
                self.order@[i]@,
            ) by {
                let x = self.order@[i]@;
                assert(keys_view(self.order@)[i] == x);
                assert(keys_view(self.order@).contains(x));
                assert(old_keys.contains(x));
                let j = choose|j: int| 0 <= j < old_keys.len() && old_keys[j] == x;
                assert(old(self).order@[j]@ == x);
                assert(old(self).data_map().contains_key(old(self).order@[j]@));
                assert(self.data_map() == old(self).data_map());
            }
        }
    }

    /// The stream hashed for the pushed keys in their order.
    fn hash_stream(&self) -> (r: Vec<u8>)
        requires
            self.wf(),
        ensures
            r@ == hash_input(keys_view(self.order@), self.data_map()),
    {
        let ghost keys = keys_view(self.order@);
        let mut buf: Vec<u8> = Vec::new();
        let mut i: usize = 0;
        assert(keys.take(0) =~= Seq::<Seq<u8>>::empty());
        while i < self.order.len()
            invariant
                self.wf(),
                keys == keys_view(self.order@),
                i <= self.order@.len(),
                buf@ == hash_input(keys.take(i as int), self.data_map()),
            decreases self.order@.len() - i,
        {
            assert(keys[i as int] == self.order@[i as int]@);
            assert(self.data_map().contains_key(self.order@[i as int]@));
            match self.get(self.order[i].as_slice()) {
                Some(v) => {
                    assert(keys.take(i + 1).drop_last() =~= keys.take(i as int));
                    push_record(&mut buf, self.order[i].as_slice(), v.as_slice());
                },
                None => {},
            }
            i = i + 1;
        }
        assert(keys.take(self.order@.len() as int) =~= keys);
        buf
    }
}

impl<R> StateMap<R> {
    /// Every state map stores each key once and has a value for every pushed key.
    #[verifier::type_invariant]
    spec fn inv(self) -> bool {
        self.table.wf()
    }

    /// The remote the map fetches its updates from.
    pub closed spec fn remote_spec(&self) -> R {
        self.remote
    }

    /// Creates an empty, unfrozen, non-master map that fetches its updates from `remote`.
    pub fn new(remote: R) -> (r: StateMap<R>)
        ensures
            r@ == (StateMapView {
                data: Map::empty(),
                order: Seq::empty(),
                update_id: 0,
                hash: None,
                is_master: false,
                history: Seq::empty(),
            }),
            r.remote_spec() == remote,
    {
        let r = StateMap {
            table: Table::empty(),
            update_id: 0,
            hash: None,
            remote,
            is_master: false,
            diffs: Vec::new(),
        };
        assert(r@.history =~= Seq::empty());
        r
    }

    /// The update id of the map: the version of the state it holds.
    pub fn get_update_id(&self) -> (r: u64)
        ensures
            r == self@.update_id,
    {
        self.update_id
    }

    /// Whether the map is frozen, that is whether no more keys can be pushed.
    pub fn is_frozen(&self) -> (r: bool)
        ensures
            r == self@.hash is Some,
    {
        self.hash.is_some()
    }

    /// Makes the map a master map or not; only possible before it is frozen.
    pub fn set_master(&mut self, is_master: bool) -> (r: Result<(), StateMapError>)
        ensures
            digest_step(old(self)@, final(self)@, false),
            final(self).remote_spec() == old(self).remote_spec(),
            old(self)@.hash is Some ==> r == Err::<(), StateMapError>(StateMapError::Frozen)
                && final(self)@ == old(self)@,
            old(self)@.hash is None ==> r is Ok && final(self)@ == (StateMapView {
                is_master,
                ..old(self)@
            }),
    {
        proof {
            use_type_invariant(&*self);
        }
        if self.is_frozen() {
            Err(StateMapError::Frozen)
        } else {
            self.is_master = is_master;
            Ok(())
        }
    }

    /// The digest of the initial state, once the map is frozen.
    pub fn hash(&self) -> (r: Option<&[u8; 32]>)
        ensures
            match r {
                Some(h) => self@.hash == Some(h@),
                None => self@.hash is None,
            },
    {
        match &self.hash {
            Some(h) => Some(h),
            None => None,
        }
    }

    /// The value of `key`, if the map has the key.
    pub fn get(&self, key: &[u8]) -> (r: Option<&StateMapValue>)
        ensures
            match r {
                Some(v) => self@.data.contains_key(key@) && v@ == self@.data[key@],
                None => !self@.data.contains_key(key@),
            },
    {
        proof {
            use_type_invariant(self);
        }
        self.table.get(key)
    }

    /// The keys with their values, each key once.
    pub fn entries(&self) -> (r: &Vec<(Vec<u8>, Vec<u8>)>)
        ensures
            keys_distinct(entries_view(r@)),
            entries_to_map(entries_view(r@)) == self@.data,
    {
        proof {
            use_type_invariant(self);
        }
        &self.table.data
    }

    /// Consumes the map into its keys with their values, each key once.
    pub fn into_entries(self) -> (r: Vec<(Vec<u8>, Vec<u8>)>)
        ensures
            keys_distinct(entries_view(r@)),
            entries_to_map(entries_view(r@)) == self@.data,
    {
        proof {
            use_type_invariant(&self);
        }
        let StateMap { table, .. } = self;
        table.data
    }

    /// Adds a key with its initial value; only possible before the map is frozen.
    /// Pushing a key that is already there gives it the new value, and does not record the
    /// key again.
    pub fn push(&mut self, key: StateMapKey, value: StateMapValue) -> (r: Result<(), StateMapError>)
        ensures
            digest_step(old(self)@, final(self)@, false),
            final(self).remote_spec() == old(self).remote_spec(),
            old(self)@.hash is Some ==> r == Err::<(), StateMapError>(StateMapError::Frozen)
                && final(self)@ == old(self)@,
            old(self)@.hash is None ==> r is Ok && final(self)@ == (StateMapView {
                data: old(self)@.data.insert(key@, value@),
                order: if old(self)@.data.contains_key(key@) {
                    old(self)@.order
                } else {
                    old(self)@.order.push(key@)
                },
                ..old(self)@
            }),
    {
        proof {
            use_type_invariant(&*self);
        }
        if self.hash.is_some() {
            return Err(StateMapError::Frozen);
        }
        let mut t = Table::empty();
        std::mem::swap(&mut t, &mut self.table);
        t.push_key(key, value);
        self.table = t;
        Ok(())
    }

    /// Sorts the pushed keys ascending and returns the SHA-256 digest of the records of the
    /// keys in that order: for each key, 8 big-endian bytes of its length, its bytes, 8
    /// big-endian bytes of its value's length, the value's bytes.
    fn calculate_hash(&mut self) -> (r: [u8; 32])
        ensures
            final(self).remote_spec() == old(self).remote_spec(),
            final(self)@ == (StateMapView {
                order: old(self)@.order.sort_by(key_order()),
                ..old(self)@
            }),
            r@ == frozen_hash(old(self)@.order, old(self)@.data),
    {
        proof {
            use_type_invariant(&*self);
        }
        let mut t = Table::empty();
        std::mem::swap(&mut t, &mut self.table);
        t.sort_order();
        let stream = t.hash_stream();
        self.table = t;
        sha256(stream.as_slice())
    }

    /// Changes the value of `key`, which must already be in the map, as one update: the
    /// update id grows by one and a diff of this one change is recorded.
    /// Only a master map, or one that is not frozen yet, can be changed this way.
    pub fn set(&mut self, key: StateMapKey, value: StateMapValue) -> (r: Result<(), StateMapError>)
        requires
            old(self)@.data.contains_key(key@) && (old(self)@.hash is None || old(self)@.is_master)
                ==> old(self)@.update_id < u64::MAX,
        ensures
            digest_step(old(self)@, final(self)@, false),
            final(self).remote_spec() == old(self).remote_spec(),
            !old(self)@.data.contains_key(key@) ==> r == Err::<(), StateMapError>(
                StateMapError::KeyNotFound,
            ) && final(self)@ == old(self)@,
            old(self)@.data.contains_key(key@) && old(self)@.hash is Some && !old(self)@.is_master
                ==> r == Err::<(), StateMapError>(StateMapError::Frozen) && final(self)@ == old(
                self,
            )@,
            old(self)@.data.contains_key(key@) && (old(self)@.hash is None || old(self)@.is_master)
                ==> r is Ok && final(self)@ == after_set(old(self)@, key@, value@),
    {
        proof {
            use_type_invariant(&*self);
        }
        if self.table.get(key.as_slice()).is_none() {
            return Err(StateMapError::KeyNotFound);
        }
        if !(self.hash.is_none() || self.is_master) {
            return Err(StateMapError::Frozen);
        }
        let ghost old_v = self@;
        let k = copy_bytes(key.as_slice());
        let v = copy_bytes(value.as_slice());
        let mut t = Table::empty();
        std::mem::swap(&mut t, &mut self.table);
        t.write(k, v);
        self.table = t;
        self.update_id = self.update_id + 1;
        let mut change: Vec<(Vec<u8>, Vec<u8>)> = Vec::new();
        change.push((key, value));
        let d = Diff::new(change, false, self.update_id - 1, self.update_id);
        self.record(d);
        proof {
            assert(entries_view(change@) =~= seq![(key@, value@)]);
            assert(entries_to_map(seq![(key@, value@)]) =~= Map::empty().insert(key@, value@))
                by {
                assert(seq![(key@, value@)].drop_last() =~= Seq::<EntryView>::empty());
                assert(entries_to_map(Seq::<EntryView>::empty()) == Map::<
                    Seq<u8>,
                    Seq<u8>,
                >::empty());
            }
            assert(old_v.data.insert(key@, value@) =~= old_v.data.union_prefer_right(
                Map::empty().insert(key@, value@),
            ));
            assert(self@ =~= after_set(old_v, key@, value@));
        }
        Ok(())
    }

    /// Appends `d` to the recorded history.
    fn record(&mut self, d: Diff)
        ensures
            final(self).remote_spec() == old(self).remote_spec(),
            final(self)@ == (StateMapView { history: old(self)@.history.push(d@), ..old(self)@ }),
    {
        proof {
            use_type_invariant(&*self);
        }
        let ghost old_v = self@;
        let mut ds: Vec<Diff> = Vec::new();
        std::mem::swap(&mut ds, &mut self.diffs);
        let ghost old_diffs = ds@;
        ds.push(d);
        self.diffs = ds;
        assert(diffs_view(self.diffs@) =~= diffs_view(old_diffs).push(d@));
        assert(self@ =~= (StateMapView { history: old_v.history.push(d@), ..old_v }));
    }

    /// Starts a batch of changes that [`StateMapModifier::commit`] applies as one update.
    /// Only a master map, or one that is not frozen yet, can be changed this way.
    pub fn begin_modification(&mut self) -> (r: Result<StateMapModifier<'_, R>, StateMapError>)
        ensures
            r is Err ==> digest_step(old(self)@, final(self)@, false),
            (old(self)@.hash is None || old(self)@.is_master) ==> (r matches Ok(m) && m.target()
                == *old(self) && m.pending().is_empty() && *final(m.map_ref()) == *final(self)),
            old(self)@.hash is Some && !old(self)@.is_master ==> r == Err::<
                StateMapModifier<'_, R>,
                StateMapError,
            >(StateMapError::Frozen) && *final(self) == *old(self),
    {
        if self.hash.is_none() || self.is_master {
            Ok(StateMapModifier { statemap: self, diff: Vec::new() })
        } else {
            Err(StateMapError::Frozen)
        }
    }

    /// Freezes the initial state: keys can no longer be pushed. The pushed keys are sorted,
    /// the digest of the initial state is computed and kept, a full diff of the state is
    /// recorded, and the remote is asked to host the map (which may make network calls).
    /// Freezing a frozen map does nothing.
    ///
    /// # Errors
    /// * [`StateMapError::UnknownError`] with the remote's message if the remote fails; the
    ///   map is frozen all the same, and is `Ok` exactly when the remote succeeds.
    pub fn freeze(&mut self) -> (r: Result<(), StateMapError>)
        where R: Remote,
        ensures
            digest_step(old(self)@, final(self)@, true),
            final(self).remote_spec() == old(self).remote_spec(),
            old(self)@.hash is Some ==> r is Ok && final(self)@ == old(self)@,
            old(self)@.hash is None ==> froze(old(self)@, final(self)@),
            old(self)@.hash is None ==> exists|init: Result<(), String>|
                {
                    &&& old(self).remote_spec().init_outcome(*final(self), init)
                    &&& match init {
                        Ok(()) => r is Ok,
                        Err(msg) => r == Err::<(), StateMapError>(
                            StateMapError::UnknownError(msg),
                        ),
                    }
                },
    {
        if self.hash.is_none() {
            let ghost old_v = self@;
            let h = self.calculate_hash();
            proof {
                use_type_invariant(&*self);
            }
            self.hash = Some(h);
            let full = Diff::full_diff(self);
            self.record(full);
            assert(self@.history.drop_last() =~= old_v.history);
            let init = self.remote.init(self);
            let ghost init_g = init;
            let r = match init {
                Ok(()) => Ok(()),
                Err(msg) => Err(StateMapError::UnknownError(msg)),
            };
            assert(self.remote.init_outcome(*self, init_g));
            return r;
        }
        Ok(())
    }

    /// Fetches updates from the remote to bring the map towards update id `update_id`.
    /// A map that is not frozen cannot be updated. The state never moves backwards: nothing
    /// happens when `update_id` is not above the map's update id. Otherwise the remote is
    /// asked for the diff from the map's update id to `update_id`, which is applied as
    /// [`StateMap::apply_fetched_updates`] says.
    ///
    /// # Errors
    /// * [`StateMapError::Unfrozen`] if an update is asked of a map that is not frozen.
    /// * The errors of [`StateMap::apply_fetched_updates`].
    pub fn set_update_id(&mut self, update_id: u64) -> (r: Result<(), StateMapError>)
        where R: Remote,
        ensures
            digest_step(old(self)@, final(self)@, false),
            final(self).remote_spec() == old(self).remote_spec(),
            old(self)@.hash is None ==> r == Err::<(), StateMapError>(StateMapError::Unfrozen)
                && final(self)@ == old(self)@,
            old(self)@.hash is Some && update_id <= old(self)@.update_id ==> r is Ok
                && final(self)@ == old(self)@,
            old(self)@.hash is Some && update_id > old(self)@.update_id ==> exists|
                fetched: Result<Diff, String>,
            |
                {
                    &&& old(self).remote_spec().fetch_outcome(
                        old(self)@.update_id,
                        update_id,
                        old(self)@.hash->0,
                        fetched,
                    )
                    &&& applies_fetched(old(self)@, fetched_view(fetched), final(self)@, r)
                },
    {
        match &self.hash {
            None => Err(StateMapError::Unfrozen),
            Some(hash) => {
                if update_id <= self.update_id {
                    return Ok(());
                }
                let fetched = self.remote.fetch_updates(self.update_id, update_id, hash);
                let ghost f = fetched;
                assert(hash@ == old(self)@.hash->0);
                assert(old(self).remote_spec().fetch_outcome(
                    old(self)@.update_id,
                    update_id,
                    old(self)@.hash->0,
                    f,
                ));
                let r = self.apply_fetched_updates(fetched);
                assert(applies_fetched(old(self)@, fetched_view(f), self@, r));
                r
            },
        }
    }

    /// Serves the diff that brings a replica at update id `from_update_id` towards
    /// `upto_update_id`, from the recorded history:
    /// * the whole state ([`Diff::full_diff`]) when no recorded diff starts exactly at
    ///   `from_update_id` (with none before it starting later), or the last diff starts
    ///   before it;
    /// * an empty diff ([`Diff::empty`]) when no recorded diff ends at or before
    ///   `upto_update_id`, or the first diff ends after it and one ends exactly at it, or
    ///   the request asks to go backwards (the diffs up to `upto_update_id` end before the
    ///   one starting at `from_update_id`);
    /// * otherwise the merge of the recorded diffs from the one starting at
    ///   `from_update_id` to the last one ending at or before `upto_update_id`.
    pub fn get_diff(&self, from_update_id: u64, upto_update_id: u64) -> (r: Diff)
        requires
            get_diff_defined(self@.history),
        ensures
            get_diff_spec(self@, from_update_id, upto_update_id, r@),
    {
        let n = self.diffs.len();
        let s = self.find_diff_start(from_update_id);
        proof {
            assert(self@.history[n - 1] == self.diffs@[n - 1]@);
            if s < n {
                assert(self@.history[s as int] == self.diffs@[s as int]@);
            }
        }
        if s == n || self.diffs[s].from_update_id() != from_update_id || self.diffs[n
            - 1].from_update_id() < from_update_id {
            return Diff::full_diff(self);
        }
        let e = self.find_diff_end(upto_update_id);
        proof {
            assert(self@.history[0] == self.diffs@[0]@);
            if e > 0 {
                assert(self@.history[e - 1] == self.diffs@[e - 1]@);
            }
        }
        if e == 0 {
            return Diff::empty();
        }
        if self.diffs[e - 1].upto_update_id() == upto_update_id && self.diffs[0].upto_update_id()
            > upto_update_id {
            return Diff::empty();
        }
        if s > e {
            return Diff::empty();
        }
        Diff::merge_range(&self.diffs, s, e)
    }

    /// Whether [`StateMap::get_diff`] can serve diffs, which it cannot before a diff was
    /// recorded.
    pub fn can_serve_diff(&self) -> (r: bool)
        ensures
            r == get_diff_defined(self@.history),
    {
        self.diffs.len() > 0
    }

    /// The index of the first recorded diff whose `from_update_id` is at least `from`.
    fn find_diff_start(&self, from: u64) -> (s: usize)
        ensures
            s == diff_start(self@.history, from),
            s <= self@.history.len(),
    {
        let ghost h = self@.history;
        let n = self.diffs.len();
        let mut s: usize = 0;
        while s < n && self.diffs[s].from_update_id() < from
            invariant
                s <= n,
                n == h.len(),
                h == diffs_view(self.diffs@),
                forall|q: int| 0 <= q < s ==> #[trigger] h[q].from_update_id < from,
            decreases n - s,
        {
            assert(h[s as int] == self.diffs@[s as int]@);
            s = s + 1;
        }
        proof {
            if s < n {
                assert(h[s as int] == self.diffs@[s as int]@);
            }
            lemma_first_from(h, from, 0, s as int);
        }
        s
    }

    /// One past the index of the last recorded diff whose `upto_update_id` is at most
    /// `upto` (0 if there is none).
    fn find_diff_end(&self, upto: u64) -> (e: usize)
        ensures
            e - 1 == diff_end(self@.history, upto),
            e <= self@.history.len(),
    {
        let ghost h = self@.history;
        let n = self.diffs.len();
        let mut e: usize = n;
        while e > 0 && self.diffs[e - 1].upto_update_id() > upto
            invariant
                e <= n,
                n == h.len(),
                h == diffs_view(self.diffs@),
                forall|q: int| e <= q < n ==> #[trigger] h[q].upto_update_id > upto,
            decreases e,
        {
            assert(h[e - 1] == self.diffs@[e - 1]@);
            e = e - 1;
        }
        proof {
            if e > 0 {
                assert(h[e - 1] == self.diffs@[e - 1]@);
            }
            if n > 0 {
                lemma_last_upto(h, upto, n - 1, e - 1);
            }
        }
        e
    }

    /// Applies what a fetch of updates returned: an error of the fetch gives
    /// [`StateMapError::FetchUpdateError`]; a diff without changes gives
    /// [`StateMapError::EmptyDiff`]; a diff that starts after the map's update id, or ends
    /// before it, gives [`StateMapError::FetchUpdateError`]; of any other diff, the values it
    /// gives to keys of the map are written (a frozen map takes no new keys), and the map's
    /// update id becomes the diff's `upto_update_id`, which never lies below the old one.
    pub fn apply_fetched_updates(&mut self, fetched: Result<Diff, String>) -> (r: Result<
        (),
        StateMapError,
    >)
        ensures
            digest_step(old(self)@, final(self)@, false),
            final(self).remote_spec() == old(self).remote_spec(),
            applies_fetched(old(self)@, fetched_view(fetched), final(self)@, r),
    {
        proof {
            use_type_invariant(&*self);
        }
        match fetched {
            Err(msg) => Err(StateMapError::FetchUpdateError(msg)),
            Ok(diff) => {
                if diff.is_empty() {
                    return Err(StateMapError::EmptyDiff);
                }
                if diff.from_update_id() > self.update_id {
                    return Err(
                        StateMapError::FetchUpdateError(
                            inconsistent_diff_text(diff.from_update_id(), self.update_id),
                        ),
                    );
                }
                if diff.upto_update_id() < self.update_id {
                    return Err(
                        StateMapError::FetchUpdateError(
                            backward_diff_text(diff.upto_update_id(), self.update_id),
                        ),
                    );
                }
                let ghost old_v = self@;
                let mut t = Table::empty();
                std::mem::swap(&mut t, &mut self.table);
                t.write_known(diff.get_diff());
                self.table = t;
                self.update_id = diff.upto_update_id();
                assert(self@ =~= after_fetch(old_v, diff@));
                Ok(())
            },
        }
    }
}

impl Diff {
    /// The diff that carries the whole state of `statemap`: its value for every key, from
    /// update id 0 up to the map's update id.
    pub fn full_diff<R>(statemap: &StateMap<R>) -> (r: Diff)
        ensures
            is_full_diff_of(r@, statemap@),
    {
        proof {
            use_type_invariant(statemap);
        }
        Diff::new(copy_entries(&statemap.table.data), true, 0, statemap.update_id)
    }
}

/// A batch of changes to a [`StateMap`], applied as one update by
/// [`StateMapModifier::commit`]. Obtained from [`StateMap::begin_modification`], which
/// checks that the map may be changed.
pub struct StateMapModifier<'a, R> {
    /// The map the changes are for.
    statemap: &'a mut StateMap<R>,
    /// The pending changes, each key once.
    diff: Vec<(Vec<u8>, Vec<u8>)>,
}

impl<'a, R> StateMapModifier<'a, R> {
    /// The pending changes are sound: each key once, and only keys of the map.
    pub closed spec fn wf(&self) -> bool {
        &&& keys_distinct(entries_view(self.diff@))
        &&& forall|i: int|
            0 <= i < self.diff@.len() ==> #[trigger] self.target()@.data.contains_key(
                self.diff@[i].0@,
            )
    }

    /// The borrow of the map the changes are for.
    pub closed spec fn map_ref(&self) -> &'a mut StateMap<R> {
        self.statemap
    }

    /// The map the changes are for, as it is now.
    pub closed spec fn target(&self) -> StateMap<R> {
        *self.statemap
    }

    /// The pending changes, in the order they are recorded.
    pub closed spec fn pending_entries(&self) -> Seq<EntryView> {
        entries_view(self.diff@)
    }

    /// The pending changes as a map.
    pub open spec fn pending(&self) -> Map<Seq<u8>, Seq<u8>> {
        entries_to_map(self.pending_entries())
    }

    /// The value of `key` with the pending changes applied.
    pub fn get(&self, key: &[u8]) -> (r: Option<&StateMapValue>)
        requires
            self.wf(),
        ensures
            match r {
                Some(v) => self.target()@.data.union_prefer_right(self.pending()).contains_key(key@)
                    && v@ == self.target()@.data.union_prefer_right(self.pending())[key@],
                None => !self.target()@.data.union_prefer_right(self.pending()).contains_key(key@),
            },
    {
        match find_key(&self.diff, key) {
            Some(i) => {
                proof {
                    lemma_distinct_lookup(entries_view(self.diff@), i as int);
                }
                Some(&self.diff[i].1)
            },
            None => {
                proof {
                    lemma_entries_to_map_dom(entries_view(self.diff@), key@);
                }
                self.statemap.get(key)
            },
        }
    }

    /// Records a pending change of `key`, which must be in the map.
    pub fn set(&mut self, key: StateMapKey, value: StateMapValue) -> (r: Result<&mut Self, StateMapError>)
        requires
            old(self).wf(),
        ensures
            old(self).target()@.data.contains_key(key@) ==> (r matches Ok(m) && m.wf()
                && m.map_ref() == old(self).map_ref() && m.pending() == old(self).pending().insert(
                key@,
                value@,
            ) && *final(m) == *final(self)),
            !old(self).target()@.data.contains_key(key@) ==> r == Err::<&mut Self, StateMapError>(
                StateMapError::KeyNotFound,
            ) && *final(self) == *old(self),
    {
        if self.statemap.get(key.as_slice()).is_some() {
            let ghost old_diff = self.diff@;
            upsert(&mut self.diff, key, value);
            proof {
                assert forall|i: int| 0 <= i < self.diff@.len() implies #[trigger] self.target()@.data.contains_key(
                    self.diff@[i].0@,
                ) by {
                    let k = entries_view(self.diff@)[i].0;
                    assert(self.pending().contains_key(k)) by {
                        lemma_entries_to_map_dom(entries_view(self.diff@), k);
                    }
                    if k != key@ {
                        lemma_entries_to_map_dom(entries_view(old_diff), k);
                        let j = choose|j: int|
                            0 <= j < old_diff.len() && entries_view(old_diff)[j].0 == k;
                        assert(old_diff[j].0@ == k);
                    }
                }
            }
            Ok(self)
        } else {
            Err(StateMapError::KeyNotFound)
        }
    }

    /// Applies the pending changes to the map as one update: the update id grows by one and
    /// one diff of all the changes is recorded. Only a map that is not frozen, or a master,
    /// takes changes.
    pub fn commit(self)
        requires
            self.wf(),
            self.target()@.hash is None || self.target()@.is_master,
            self.target()@.update_id < u64::MAX,
        ensures
            digest_step(self.target()@, final(self.map_ref())@, false),
            final(self.map_ref()).remote_spec() == self.target().remote_spec(),
            final(self.map_ref())@ == after_commit(self.target()@, self.pending_entries()),
    {
        let StateMapModifier { statemap, diff } = self;
        proof {
            use_type_invariant(&*statemap);
        }
        let ghost old_v = statemap@;
        let mut t = Table::empty();
        std::mem::swap(&mut t, &mut statemap.table);
        t.write_all(&diff);
        statemap.table = t;
        statemap.update_id = statemap.update_id + 1;
        let d = Diff::new(diff, false, statemap.update_id - 1, statemap.update_id);
        statemap.record(d);
        assert(statemap@ =~= after_commit(old_v, entries_view(diff@)));
    }
}

} // verus!
