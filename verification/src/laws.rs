//! Laws of the library: what holds across calls.
//!
//! A master state map that was frozen with an empty history and then changed only by
//! [`crate::StateMap::set`] and [`crate::StateMapModifier::commit`] keeps a consistent
//! history: a full diff of its initial state, then one diff per update. From such a
//! history, the diff it serves to a replica brings the replica to the master's state, also
//! when it travels encoded over the wire.
//!
//! Along any run of calls, a map is frozen from its first `freeze` on and keeps its digest;
//! along any run of completed requests, a server holds no initialisation under way for
//! longer than the request that started it. Merging diffs is associative in the sense of
//! [`lemma_merge_concat`].
use vstd::prelude::*;

use crate::diff::{
    history_map, is_compression_of, is_merge_of, lemma_history_map_concat, max_upto, min_from,
    DiffView,
};
use crate::digest::{be_u64, hash_input, sha256_digest};
use crate::tcp::codec::{bincode_entries_decoding, bincode_entries_encoding};
use crate::entries::{entries_to_map, EntryView};
use crate::keys::{key_le, key_order, lemma_key_order_total};
use crate::statemap::{
    after_commit, after_fetch, after_set, applies_fetched, diff_end, diff_start, digest_step,
    frozen_hash,
    froze, get_diff_defined, get_diff_spec, last_upto_at_most,
    lemma_first_from, lemma_last_upto, serves_backward, serves_empty, serves_full, StateMapView,
};
use crate::tcp::server::{
    concludes, initial_digest, initial_keys, lemma_initial_master_digest, lemma_sorted_set_unique,
    processes, RequestError, ServerStep, ServerView,
};
use crate::tcp::{TcpStateServerRequest, TcpStateServerResponse};

verus! {

/// The history of `v` starts with a full diff of the state at its update id, followed
/// by one diff per update, and writing the history in order gives the current state.
pub open spec fn master_history_consistent(v: StateMapView) -> bool {
    let h = v.history;
    &&& h.len() >= 1
    &&& h[0].is_full
    &&& h[0].from_update_id == 0
    &&& forall|k: int|
        1 <= k < h.len() ==> (#[trigger] h[k]).from_update_id == h[0].upto_update_id + k - 1
            && h[k].upto_update_id == h[0].upto_update_id + k
    &&& forall|k: int|
        0 <= k < h.len() ==> entries_to_map((#[trigger] h[k]).entries).dom().subset_of(
            entries_to_map(h[0].entries).dom(),
        )
    &&& v.update_id == h.last().upto_update_id
    &&& v.data == history_map(h)
}

/// In a history whose diffs write only keys of its first diff, every state has exactly the
/// keys of the first diff.
proof fn lemma_history_keys(h: Seq<DiffView>, j: int)
    requires
        1 <= j <= h.len(),
        forall|k: int|
            0 <= k < h.len() ==> entries_to_map((#[trigger] h[k]).entries).dom().subset_of(
                entries_to_map(h[0].entries).dom(),
            ),
    ensures
        history_map(h.take(j)).dom() == entries_to_map(h[0].entries).dom(),
    decreases j,
{
    let t = h.take(j);
    assert(t.drop_last() =~= h.take(j - 1));
    assert(t.last() == h[j - 1]);
    if j == 1 {
        assert(history_map(h.take(0)) =~= Map::<Seq<u8>, Seq<u8>>::empty());
    } else {
        lemma_history_keys(h, j - 1);
        assert(entries_to_map(h[j - 1].entries).dom().subset_of(entries_to_map(h[0].entries).dom()));
    }
    assert(history_map(t).dom() =~= entries_to_map(h[0].entries).dom());
}

/// A master with a consistent history has, at each of its update ids, the keys it has now.
proof fn lemma_state_keys(v: StateMapView, id: u64)
    requires
        master_history_consistent(v),
        v.history[0].upto_update_id <= id <= v.update_id,
    ensures
        state_at(v.history, id).dom() == v.data.dom(),
{
    let h = v.history;
    lemma_last_upto_id(v);
    lemma_history_keys(h, id - h[0].upto_update_id + 1);
    lemma_history_keys(h, h.len() as int);
    assert(h.take(h.len() as int) =~= h);
}

/// The state of a master with consistent history `h` at update id `id`.
pub open spec fn state_at(h: Seq<DiffView>, id: u64) -> Map<Seq<u8>, Seq<u8>> {
    history_map(h.take(id - h[0].upto_update_id + 1))
}

/// The digest that identifies a frozen map depends on the pushed keys only as a
/// multiset: pushing the same keys in another order gives the same digest.
pub proof fn lemma_frozen_hash_ignores_push_order(
    order1: Seq<Seq<u8>>,
    order2: Seq<Seq<u8>>,
    data: Map<Seq<u8>, Seq<u8>>,
)
    requires
        order1.to_multiset() == order2.to_multiset(),
    ensures
        frozen_hash(order1, data) == frozen_hash(order2, data),
{
    lemma_key_order_total();
    order1.lemma_sort_by_ensures(key_order());
    order2.lemma_sort_by_ensures(key_order());
    vstd::seq_lib::lemma_sorted_unique(
        order1.sort_by(key_order()),
        order2.sort_by(key_order()),
        key_order(),
    );
}

/// Once frozen, a map keeps its digest: along a run of calls, each changing the digest only
/// as [`digest_step`] allows, the digest of a map frozen at call `i` is still its digest
/// after call `k`.
pub proof fn lemma_digest_fixed_once_frozen(
    states: Seq<StateMapView>,
    freezes: Seq<bool>,
    i: int,
    k: int,
)
    requires
        states.len() == freezes.len() + 1,
        forall|j: int|
            0 <= j < freezes.len() ==> digest_step(states[j], states[j + 1], #[trigger] freezes[j]),
        0 <= i <= k < states.len(),
        states[i].hash is Some,
    ensures
        states[k].hash == states[i].hash,
    decreases k - i,
{
    if k > i {
        lemma_digest_fixed_once_frozen(states, freezes, i, k - 1);
        assert(digest_step(states[k - 1], states[k], freezes[k - 1]));
    }
}

/// A map that starts unfrozen, as [`crate::StateMap::new`] makes it, is frozen after a run
/// of calls exactly when one of them was a call of `freeze`, whatever that call returned.
pub proof fn lemma_frozen_from_first_freeze(states: Seq<StateMapView>, freezes: Seq<bool>, k: int)
    requires
        states.len() == freezes.len() + 1,
        forall|j: int|
            0 <= j < freezes.len() ==> digest_step(states[j], states[j + 1], #[trigger] freezes[j]),
        states[0].hash is None,
        0 <= k < states.len(),
    ensures
        states[k].hash is Some <==> exists|j: int| 0 <= j < k && #[trigger] freezes[j],
    decreases k,
{
    if k > 0 {
        lemma_frozen_from_first_freeze(states, freezes, k - 1);
        assert(digest_step(states[k - 1], states[k], freezes[k - 1]));
        if freezes[k - 1] {
            assert(states[k].hash is Some);
        } else if exists|j: int| 0 <= j < k && #[trigger] freezes[j] {
            let j = choose|j: int| 0 <= j < k && #[trigger] freezes[j];
            assert(j < k - 1);
        }
    }
}

/// Freezing a map that has recorded no diff starts a consistent history.
pub proof fn lemma_freeze_starts_history(old: StateMapView, new: StateMapView)
    requires
        old.history.len() == 0,
        froze(old, new),
    ensures
        master_history_consistent(new),
{
    let h = new.history;
    assert(entries_to_map(h[0].entries).dom().subset_of(entries_to_map(h[0].entries).dom()));
    assert(h.drop_last() =~= Seq::<DiffView>::empty());
    assert(history_map(h.drop_last()) == Map::<Seq<u8>, Seq<u8>>::empty());
    assert(history_map(h) =~= entries_to_map(h[0].entries));
}

/// Committing a batch of changes to keys the map has keeps a consistent history
/// consistent.
pub proof fn lemma_commit_keeps_history_consistent(v: StateMapView, pending: Seq<EntryView>)
    requires
        master_history_consistent(v),
        v.update_id < u64::MAX,
        forall|i: int| 0 <= i < pending.len() ==> v.data.contains_key(#[trigger] pending[i].0),
    ensures
        master_history_consistent(after_commit(v, pending)),
{
    let w = after_commit(v, pending);
    let h = v.history;
    assert(w.history.drop_last() =~= h);
    assert(w.history[0] == h[0]);
    lemma_history_keys(h, h.len() as int);
    assert(h.take(h.len() as int) =~= h);
    assert forall|x: Seq<u8>| #[trigger] entries_to_map(pending).contains_key(x) implies entries_to_map(h[0].entries).contains_key(x) by {
        crate::entries::lemma_entries_to_map_dom(pending, x);
    }
    assert forall|k: int| 0 <= k < w.history.len() implies entries_to_map(
        (#[trigger] w.history[k]).entries,
    ).dom().subset_of(entries_to_map(w.history[0].entries).dom()) by {
        if k < h.len() {
            assert(w.history[k] == h[k]);
        }
    }
    assert forall|k: int| 1 <= k < w.history.len() implies (#[trigger] w.history[k]).from_update_id
        == w.history[0].upto_update_id + k - 1 && w.history[k].upto_update_id
        == w.history[0].upto_update_id + k by {
        if k < h.len() {
            assert(w.history[k] == h[k]);
        } else {
            lemma_last_upto_id(v);
        }
    }
}

/// Setting the value of a key the map has keeps a consistent history consistent.
pub proof fn lemma_set_keeps_history_consistent(v: StateMapView, key: Seq<u8>, value: Seq<u8>)
    requires
        master_history_consistent(v),
        v.update_id < u64::MAX,
        v.data.contains_key(key),
    ensures
        master_history_consistent(after_set(v, key, value)),
{
    lemma_commit_keeps_history_consistent(v, seq![(key, value)]);
}

/// In a consistent history, the update id is the first diff's plus the number of later
/// diffs.
proof fn lemma_last_upto_id(v: StateMapView)
    requires
        master_history_consistent(v),
    ensures
        v.update_id == v.history[0].upto_update_id + v.history.len() - 1,
{
    let h = v.history;
    if h.len() > 1 {
        assert(h[h.len() - 1].upto_update_id == h[0].upto_update_id + h.len() - 1);
    }
}

/// The last `upto_update_id` of a range of a consistent history is its largest.
proof fn lemma_max_upto_range(v: StateMapView, s: int, e: int)
    requires
        master_history_consistent(v),
        0 <= s < e <= v.history.len(),
    ensures
        max_upto(v.history.subrange(s, e)) == v.history[e - 1].upto_update_id,
    decreases e - s,
{
    let h = v.history;
    let sub = h.subrange(s, e);
    assert(sub.last() == h[e - 1]);
    assert(sub.drop_last() =~= h.subrange(s, e - 1));
    if e - 1 > s {
        lemma_max_upto_range(v, s, e - 1);
        if e - 2 >= 1 {
            assert(h[e - 2].upto_update_id == h[0].upto_update_id + e - 2);
        }
        assert(h[e - 1].upto_update_id == h[0].upto_update_id + e - 1);
    } else {
        assert(h.subrange(s, e - 1) =~= Seq::<DiffView>::empty());
        assert(max_upto(h.subrange(s, e - 1)) == 0);
    }
}

/// The smallest `from_update_id` of a range is at most that of its first diff.
proof fn lemma_min_from_range(h: Seq<DiffView>, s: int, e: int)
    requires
        0 <= s < e <= h.len(),
    ensures
        min_from(h.subrange(s, e)) <= h[s].from_update_id,
    decreases e - s,
{
    let sub = h.subrange(s, e);
    assert(sub.drop_last() =~= h.subrange(s, e - 1));
    if e - 1 > s {
        lemma_min_from_range(h, s, e - 1);
    } else {
        assert(sub.last() == h[s]);
    }
}

/// For a master with a consistent history, the diff served to a replica at update id `c`
/// (not before the first diff) that asks for an update id `t` at or beyond the master's is
/// always defined, spans up to the master's update id, starts at or before `c`, and
/// written over the master's state at `c` gives the master's current state.
#[verifier::spinoff_prover]
#[verifier::rlimit(40)]
pub proof fn lemma_get_diff_catches_up(master: StateMapView, c: u64, t: u64, d: DiffView)
    requires
        master_history_consistent(master),
        master.history[0].upto_update_id <= c <= master.update_id,
        master.update_id <= t,
    ensures
        get_diff_defined(master.history),
        get_diff_spec(master, c, t, d) ==> state_at(master.history, c).union_prefer_right(
            entries_to_map(d.entries),
        ) == master.data && d.upto_update_id == master.update_id && d.from_update_id <= c,
{
    let h = master.history;
    let n = h.len() as int;
    let u0 = h[0].upto_update_id;
    lemma_last_upto_id(master);
    let m = c - u0 + 1;
    // where the served diff starts
    if c == 0 {
        lemma_first_from(h, c, 0, 0);
    } else if c < master.update_id {
        assert forall|q: int| 0 <= q < m implies h[q].from_update_id < c by {
            if q >= 1 {
                assert(h[q].from_update_id == u0 + q - 1);
            }
        }
        assert(h[m].from_update_id == u0 + m - 1);
        lemma_first_from(h, c, 0, m);
    } else {
        assert forall|q: int| 0 <= q < n implies h[q].from_update_id < c by {
            if q >= 1 {
                assert(h[q].from_update_id == u0 + q - 1);
            }
        }
        lemma_first_from(h, c, 0, n);
    }
    if n > 1 {
        assert(h[n - 1].from_update_id == u0 + n - 2);
    }
    // where it ends
    assert(last_upto_at_most(h, t, n - 1) == n - 1);
    assert(diff_end(h, t) == n - 1);
    assert(!serves_empty(h, t));
    let s = diff_start(h, c);
    assert(h.take(n) =~= h);
    if serves_full(h, c) {
        assert(c == master.update_id && c != 0);
        assert(m == n);
        assert(state_at(h, c) == master.data);
        if get_diff_spec(master, c, t, d) {
            assert(master.data.union_prefer_right(entries_to_map(d.entries)) =~= master.data);
        }
    } else {
        assert(s <= n - 1);
        assert(!serves_backward(h, c, t));
        let range = h.subrange(s, n);
        lemma_max_upto_range(master, s, n);
        lemma_min_from_range(h, s, n);
        if c == 0 {
            assert(s == 0);
            assert(range =~= h);
            assert(h =~= h.take(1) + h.subrange(1, n));
            lemma_history_map_concat(h.take(1), h.subrange(1, n));
            assert(state_at(h, c) == history_map(h.take(1)));
            assert(history_map(h.take(1)).union_prefer_right(history_map(h)) =~= history_map(h));
        } else {
            assert(s == m);
            assert(h =~= h.take(m) + range);
            lemma_history_map_concat(h.take(m), range);
        }
    }
}

/// For a master with a consistent history, the diff served to a replica at update id `c`
/// (not before the first diff) that asks for an update id `t` from `c` up to, but not
/// including, the master's is always defined, and written over the master's state at `c`
/// gives the master's state at `t`; when `t` is beyond `c`, it spans up to `t` and starts
/// at or before `c`.
#[verifier::spinoff_prover]
pub proof fn lemma_get_diff_reaches_target(master: StateMapView, c: u64, t: u64, d: DiffView)
    requires
        master_history_consistent(master),
        master.history[0].upto_update_id <= c <= t,
        t < master.update_id,
    ensures
        get_diff_defined(master.history),
        get_diff_spec(master, c, t, d) ==> state_at(master.history, c).union_prefer_right(
            entries_to_map(d.entries),
        ) == state_at(master.history, t) && (c < t ==> d.upto_update_id == t
            && d.from_update_id <= c),
{
    let h = master.history;
    let n = h.len() as int;
    let u0 = h[0].upto_update_id;
    lemma_last_upto_id(master);
    let m = c - u0 + 1;
    let f = t - u0 + 1;
    // where the served diff starts
    if c == 0 {
        lemma_first_from(h, c, 0, 0);
    } else {
        assert forall|q: int| 0 <= q < m implies h[q].from_update_id < c by {
            if q >= 1 {
                assert(h[q].from_update_id == u0 + q - 1);
            }
        }
        assert(h[m].from_update_id == u0 + m - 1);
        lemma_first_from(h, c, 0, m);
    }
    assert(h[n - 1].from_update_id == u0 + n - 2);
    // where it ends
    assert forall|q: int| f - 1 < q <= n - 1 implies h[q].upto_update_id > t by {
        assert(h[q].upto_update_id == u0 + q);
    }
    if f - 1 >= 1 {
        assert(h[f - 1].upto_update_id == u0 + f - 1);
    }
    lemma_last_upto(h, t, n - 1, f - 1);
    assert(diff_end(h, t) == f - 1);
    let s = diff_start(h, c);
    assert(!serves_full(h, c));
    assert(!serves_empty(h, t));
    assert(!serves_backward(h, c, t));
    let range = h.subrange(s, f);
    if s < f {
        lemma_max_upto_range(master, s, f);
        lemma_min_from_range(h, s, f);
    }
    if c == 0 {
        assert(s == 0);
        assert(h.take(f) =~= h.take(1) + h.subrange(1, f));
        lemma_history_map_concat(h.take(1), h.subrange(1, f));
        assert(range =~= h.take(f));
        assert(history_map(h.take(1)).union_prefer_right(history_map(h.take(f))) =~= history_map(
            h.take(f),
        ));
    } else {
        assert(s == m);
        assert(h.take(f) =~= h.take(m) + range);
        lemma_history_map_concat(h.take(m), range);
    }
}

/// A replica at update id `c` whose state is the master's state at `c`, that asks the
/// master (with a consistent history) for an update id `t` beyond `c` and before the
/// master's, and applies the diff served, ends with the master's state at `t`; when the
/// diff was applied its update id is `t`, and otherwise the diff had no changes.
pub proof fn lemma_replica_reaches_target(
    master: StateMapView,
    replica: StateMapView,
    t: u64,
    d: DiffView,
    new_replica: StateMapView,
    r: Result<(), crate::statemap::StateMapError>,
)
    requires
        master_history_consistent(master),
        master.history[0].upto_update_id <= replica.update_id < t,
        t < master.update_id,
        replica.data == state_at(master.history, replica.update_id),
        get_diff_spec(master, replica.update_id, t, d),
        applies_fetched(replica, Ok(d), new_replica, r),
    ensures
        new_replica.data == state_at(master.history, t),
        r is Ok ==> new_replica.update_id == t,
        r is Err ==> r == Err::<(), crate::statemap::StateMapError>(
            crate::statemap::StateMapError::EmptyDiff,
        ),
{
    lemma_get_diff_reaches_target(master, replica.update_id, t, d);
    lemma_state_keys(master, replica.update_id);
    lemma_state_keys(master, t);
    let e = entries_to_map(d.entries);
    assert(e.restrict(replica.data.dom()) =~= e);
    if d.entries.len() == 0 {
        assert(d.entries =~= Seq::<EntryView>::empty());
        assert(replica.data.union_prefer_right(entries_to_map(d.entries)) =~= replica.data);
    }
}

/// A replica at update id `c` whose state is the master's state at `c`, that asks the
/// master (with a consistent history) for update id `t` at or beyond the master's and
/// applies the diff served, ends with the master's state; when the diff was applied its
/// update id is the master's, and otherwise the diff had no changes.
pub proof fn lemma_replica_catches_up(
    master: StateMapView,
    replica: StateMapView,
    t: u64,
    d: DiffView,
    new_replica: StateMapView,
    r: Result<(), crate::statemap::StateMapError>,
)
    requires
        master_history_consistent(master),
        master.history[0].upto_update_id <= replica.update_id <= master.update_id,
        master.update_id <= t,
        replica.data == state_at(master.history, replica.update_id),
        get_diff_spec(master, replica.update_id, t, d),
        applies_fetched(replica, Ok(d), new_replica, r),
    ensures
        new_replica.data == master.data,
        r is Ok ==> new_replica.update_id == master.update_id,
        r is Err ==> r == Err::<(), crate::statemap::StateMapError>(
            crate::statemap::StateMapError::EmptyDiff,
        ),
{
    lemma_get_diff_catches_up(master, replica.update_id, t, d);
    lemma_state_keys(master, replica.update_id);
    let e = entries_to_map(d.entries);
    assert(e.restrict(replica.data.dom()) =~= e);
    if d.entries.len() == 0 {
        assert(d.entries =~= Seq::<EntryView>::empty());
        assert(replica.data.union_prefer_right(entries_to_map(d.entries)) =~= replica.data);
    }
}

/// A client map frozen after pushing each of its keys once carries the digest that a
/// server computes for entries `es` holding the client's data: a server that decodes such
/// entries builds a map with the client's digest, so initialisation succeeds. That the
/// server decodes the entries the client encoded is a property of the encoding, which this
/// law takes as given through `es`; it is not stated of the encoding here.
pub proof fn lemma_server_digest_matches_client(
    pushed: StateMapView,
    frozen: StateMapView,
    es: Seq<EntryView>,
)
    requires
        froze(pushed, frozen),
        pushed.order.no_duplicates(),
        pushed.order.to_set() == pushed.data.dom(),
        entries_to_map(es) == pushed.data,
    ensures
        frozen.hash == Some(initial_digest(es)),
{
    broadcast use vstd::seq_lib::group_to_multiset_ensures;

    lemma_key_order_total();
    let o = pushed.order;
    o.lemma_sort_by_ensures(key_order());
    let sorted = o.sort_by(key_order());
    o.lemma_multiset_has_no_duplicates();
    assert forall|x: Seq<u8>| sorted.to_multiset().contains(x) implies sorted.to_multiset().count(x)
        == 1 by {
        assert(o.to_multiset().contains(x));
    }
    sorted.lemma_multiset_has_no_duplicates_conv();
    assert forall|x: Seq<u8>| #[trigger] sorted.to_set().contains(x) == o.to_set().contains(x) by {
        assert(sorted.contains(x) == (sorted.to_multiset().count(x) > 0));
        assert(o.contains(x) == (o.to_multiset().count(x) > 0));
    }
    assert(sorted.to_set() =~= entries_to_map(es).dom());
    let k = initial_keys(es);
    assert(vstd::relations::sorted_by(sorted, key_order()) && sorted.no_duplicates()
        && sorted.to_set() == entries_to_map(es).dom());
    lemma_sorted_set_unique(sorted, k);
}

/// A replica that reads the diff the master served over the wire and applies it ends with
/// the master's state. The server sends the `bincode` encoding of the entries of the diff
/// it serves ([`crate::tcp::server::StateServerCore::process_request`]), and the diff the
/// replica reads is the one whose entries encode to those bytes, with the update ids and
/// fullness sent beside them ([`crate::tcp::remote::diff_from_response`]).
pub proof fn lemma_replica_catches_up_over_wire(
    master: StateMapView,
    replica: StateMapView,
    t: u64,
    served: DiffView,
    bytes: Seq<u8>,
    read: DiffView,
    new_replica: StateMapView,
    r: Result<(), crate::statemap::StateMapError>,
)
    requires
        master_history_consistent(master),
        master.history[0].upto_update_id <= replica.update_id <= master.update_id,
        master.update_id <= t,
        replica.data == state_at(master.history, replica.update_id),
        get_diff_spec(master, replica.update_id, t, served),
        bincode_entries_encoding(served.entries) == Some(bytes),
        forall|es: Seq<EntryView>|
            #[trigger] bincode_entries_encoding(es) == Some(bytes) ==> read == (DiffView {
                entries: es,
                is_full: served.is_full,
                from_update_id: served.from_update_id,
                upto_update_id: served.upto_update_id,
            }),
        applies_fetched(replica, Ok(read), new_replica, r),
    ensures
        new_replica.data == master.data,
        r is Ok ==> new_replica.update_id == master.update_id,
{
    assert(read == served);
    lemma_replica_catches_up(master, replica, t, served, new_replica, r);
}

/// The smallest `from_update_id` of two runs of diffs is the smaller of theirs.
proof fn lemma_min_from_concat(a: Seq<DiffView>, b: Seq<DiffView>)
    ensures
        min_from(a + b) == (if min_from(a) < min_from(b) {
            min_from(a)
        } else {
            min_from(b)
        }),
    decreases b.len(),
{
    if b.len() == 0 {
        assert(a + b =~= a);
    } else {
        lemma_min_from_concat(a, b.drop_last());
        assert((a + b).drop_last() =~= a + b.drop_last());
        assert((a + b).last() == b.last());
    }
}

/// The largest `upto_update_id` of two runs of diffs is the larger of theirs.
proof fn lemma_max_upto_concat(a: Seq<DiffView>, b: Seq<DiffView>)
    ensures
        max_upto(a + b) == (if max_upto(a) > max_upto(b) {
            max_upto(a)
        } else {
            max_upto(b)
        }),
    decreases b.len(),
{
    if b.len() == 0 {
        assert(a + b =~= a);
    } else {
        lemma_max_upto_concat(a, b.drop_last());
        assert((a + b).drop_last() =~= a + b.drop_last());
        assert((a + b).last() == b.last());
    }
}

/// Merging two runs of diffs one after the other is merging the two merges: the same
/// writes, update ids and fullness.
pub proof fn lemma_merge_concat(
    a: Seq<DiffView>,
    b: Seq<DiffView>,
    merged_a: DiffView,
    merged_b: DiffView,
    merged: DiffView,
    merged_twice: DiffView,
)
    requires
        is_merge_of(merged_a, a),
        is_merge_of(merged_b, b),
        is_merge_of(merged, a + b),
        is_merge_of(merged_twice, seq![merged_a, merged_b]),
    ensures
        entries_to_map(merged.entries) == entries_to_map(merged_twice.entries),
        merged.from_update_id == merged_twice.from_update_id,
        merged.upto_update_id == merged_twice.upto_update_id,
        merged.is_full == merged_twice.is_full,
{
    let pair = seq![merged_a, merged_b];
    lemma_history_map_concat(a, b);
    lemma_min_from_concat(a, b);
    lemma_max_upto_concat(a, b);
    assert(pair.drop_last() =~= seq![merged_a]);
    assert(seq![merged_a].drop_last() =~= Seq::<DiffView>::empty());
    assert(history_map(seq![merged_a].drop_last()) == Map::<Seq<u8>, Seq<u8>>::empty());
    assert(history_map(seq![merged_a]) =~= entries_to_map(merged_a.entries));
    assert(min_from(seq![merged_a].drop_last()) == u64::MAX);
    assert(max_upto(seq![merged_a].drop_last()) == 0);
    assert(seq![merged_a].last() == merged_a);
    assert(min_from(seq![merged_a]) == merged_a.from_update_id);
    assert(max_upto(seq![merged_a]) == merged_a.upto_update_id);
}

/// A request carried to its end: processed, and, where its processing handed a new map to
/// the initialisation hooks, the initialisation concluded.
pub open spec fn request_completes(
    old: ServerView,
    request: TcpStateServerRequest,
    new: ServerView,
) -> bool {
    exists|mid: ServerView, r: Result<ServerStep, RequestError>|
        {
            &&& #[trigger] processes(old, request, mid, r)
            &&& match r {
                Ok(ServerStep::RunInitHooks { hash, statemap }) => concludes(
                    mid,
                    hash@,
                    statemap@,
                    new,
                ),
                _ => new == mid,
            }
        }
}

/// A completed request leaves the initialisations under way as they were: a digest is
/// under way only while a request to initialise it is being processed.
pub proof fn lemma_request_releases_digest(
    old: ServerView,
    request: TcpStateServerRequest,
    new: ServerView,
)
    requires
        request_completes(old, request, new),
    ensures
        new.processing == old.processing,
{
    let (mid, r) = choose|mid: ServerView, r: Result<ServerStep, RequestError>|
        {
            &&& #[trigger] processes(old, request, mid, r)
            &&& match r {
                Ok(ServerStep::RunInitHooks { hash, statemap }) => concludes(
                    mid,
                    hash@,
                    statemap@,
                    new,
                ),
                _ => new == mid,
            }
        };
    match r {
        Ok(ServerStep::RunInitHooks { hash, statemap }) => {
            match request {
                TcpStateServerRequest::Init { hash: h, init_data } => {
                    assert(!old.processing.contains(h@));
                    assert(hash@ == h@);
                    assert(new.processing =~= old.processing);
                },
                _ => {},
            }
        },
        _ => {},
    }
}

/// Along any run of completed requests, the initialisations under way stay as they were:
/// a server that starts with none under way, as a new one does, has none under way once
/// its requests are complete.
pub proof fn lemma_requests_release_digests(
    states: Seq<ServerView>,
    requests: Seq<TcpStateServerRequest>,
)
    requires
        states.len() == requests.len() + 1,
        forall|i: int|
            0 <= i < requests.len() ==> request_completes(
                states[i],
                #[trigger] requests[i],
                states[i + 1],
            ),
    ensures
        forall|k: int| 0 <= k < states.len() ==> #[trigger] states[k].processing == states[0].processing,
    decreases requests.len(),
{
    if requests.len() > 0 {
        let n = requests.len() - 1;
        lemma_requests_release_digests(states.drop_last(), requests.drop_last());
        assert(request_completes(states[n], requests[n], states[n + 1]));
        lemma_request_releases_digest(states[n], requests[n], states[n + 1]);
        assert forall|k: int| 0 <= k < states.len() implies #[trigger] states[k].processing
            == states[0].processing by {
            let prefix = states.drop_last();
            assert(prefix[0] == states[0]);
            assert(prefix[n] == states[n]);
            assert(prefix[n].processing == prefix[0].processing);
            if k < states.len() - 1 {
                assert(prefix[k] == states[k]);
                assert(prefix[k].processing == prefix[0].processing);
            }
        }
    }
}

/// The map obtained by writing the diffs `ds` over `base`, one diff after the other.
pub open spec fn apply_in_turn(base: Map<Seq<u8>, Seq<u8>>, ds: Seq<DiffView>) -> Map<
    Seq<u8>,
    Seq<u8>,
>
    decreases ds.len(),
{
    if ds.len() == 0 {
        base
    } else {
        apply_in_turn(base, ds.drop_last()).union_prefer_right(entries_to_map(ds.last().entries))
    }
}

/// Writing the merge of some diffs has the effect of writing the diffs one after the other.
pub proof fn lemma_merge_applies_in_turn(
    base: Map<Seq<u8>, Seq<u8>>,
    ds: Seq<DiffView>,
    merged: DiffView,
)
    requires
        is_merge_of(merged, ds),
    ensures
        base.union_prefer_right(entries_to_map(merged.entries)) == apply_in_turn(base, ds),
{
    lemma_history_in_turn(base, ds);
}

proof fn lemma_history_in_turn(base: Map<Seq<u8>, Seq<u8>>, ds: Seq<DiffView>)
    ensures
        base.union_prefer_right(history_map(ds)) == apply_in_turn(base, ds),
    decreases ds.len(),
{
    if ds.len() == 0 {
        assert(base.union_prefer_right(history_map(ds)) =~= base);
    } else {
        lemma_history_in_turn(base, ds.drop_last());
        assert(base.union_prefer_right(history_map(ds)) =~= apply_in_turn(base, ds));
    }
}

/// No change removes a key: setting, committing and applying a fetched diff keep every
/// key of the map.
pub proof fn lemma_keys_never_removed(
    v: StateMapView,
    pending: Seq<EntryView>,
    d: DiffView,
    key: Seq<u8>,
)
    requires
        v.data.contains_key(key),
    ensures
        after_commit(v, pending).data.contains_key(key),
        after_fetch(v, d).data.contains_key(key),
{
}

/// A fetched diff neither adds nor removes a key: a frozen replica keeps the keys it was
/// frozen with.
pub proof fn lemma_fetch_keeps_keys(v: StateMapView, d: DiffView)
    ensures
        after_fetch(v, d).data.dom() == v.data.dom(),
{
    assert(after_fetch(v, d).data.dom() =~= v.data.dom());
}

/// Once built, a master keeps its keys: committing changes to keys it has, as
/// [`crate::StateMapModifier::set`] and [`crate::StateMap::set`] only allow, neither adds
/// nor removes a key.
pub proof fn lemma_master_changes_keep_keys(v: StateMapView, pending: Seq<EntryView>)
    requires
        forall|i: int| 0 <= i < pending.len() ==> v.data.contains_key(#[trigger] pending[i].0),
    ensures
        after_commit(v, pending).data.dom() == v.data.dom(),
{
    assert forall|k: Seq<u8>| #[trigger] entries_to_map(pending).contains_key(k) implies v.data.contains_key(k) by {
        crate::entries::lemma_entries_to_map_dom(pending, k);
    }
    assert(after_commit(v, pending).data.dom() =~= v.data.dom());
}

/// A state server answers a request about a hosted map from the map hosted under the very
/// digest of the request: `GetUpdateId` gives that map's update id, `Event` is dispatched to
/// that digest with the event's bytes, and `GetDiff` serves a diff of that map. None of them
/// changes the server, and an unknown digest is answered `HashNotFound`. An `Init` for a
/// digest that is hosted or under way succeeds without work; otherwise the decoded entries
/// are built into a frozen master at update id 0, handed to the hooks and marked under way
/// when its digest is the request's, and answered `HashMismatch` without change when not.
pub proof fn lemma_requests_answer_their_map(
    old: ServerView,
    request: TcpStateServerRequest,
    new: ServerView,
    r: Result<ServerStep, RequestError>,
)
    requires
        processes(old, request, new, r),
    ensures
        request matches TcpStateServerRequest::GetUpdateId { hash } ==> {
            &&& new == old
            &&& old.statemaps.contains_key(hash@) ==> (r matches Ok(
                ServerStep::Respond(TcpStateServerResponse::UpdateId { update_id }),
            ) && update_id == old.statemaps[hash@].update_id)
            &&& !old.statemaps.contains_key(hash@) ==> (r matches Ok(
                ServerStep::Respond(TcpStateServerResponse::HashNotFound),
            ))
        },
        request matches TcpStateServerRequest::Event { hash, evt_data } ==> {
            &&& new == old
            &&& old.statemaps.contains_key(hash@) ==> (r matches Ok(
                ServerStep::DispatchEvent { hash: h, evt_data: e },
            ) && h@ == hash@ && e@ == evt_data@)
            &&& !old.statemaps.contains_key(hash@) ==> (r matches Ok(
                ServerStep::Respond(TcpStateServerResponse::HashNotFound),
            ))
        },
        request matches TcpStateServerRequest::GetDiff { hash, from_update_id, upto_update_id }
            ==> {
            &&& new == old
            &&& old.statemaps.contains_key(hash@) && old.statemaps[hash@].history.len() > 0
                ==> exists|d: DiffView|
                #[trigger] get_diff_spec(old.statemaps[hash@], from_update_id, upto_update_id, d)
                    && match bincode_entries_encoding(d.entries) {
                    None => r matches Err(RequestError::EncodeError(_)),
                    Some(b) => r matches Ok(
                        ServerStep::Respond(
                            TcpStateServerResponse::Diff {
                                from_update_id: f,
                                upto_update_id: u,
                                is_full,
                                encoded_diff,
                            },
                        ),
                    ) && f == d.from_update_id && u == d.upto_update_id && is_full == d.is_full
                        && encoded_diff@ == b,
                }
            &&& !old.statemaps.contains_key(hash@) ==> (r matches Ok(
                ServerStep::Respond(TcpStateServerResponse::HashNotFound),
            ))
        },
        request matches TcpStateServerRequest::Init { hash, init_data } ==> {
            &&& old.statemaps.contains_key(hash@) || old.processing.contains(hash@) ==> new == old
                && (r matches Ok(ServerStep::Respond(TcpStateServerResponse::InitSuccess)))
            &&& !old.statemaps.contains_key(hash@) && !old.processing.contains(hash@) ==> match
                bincode_entries_decoding(init_data@) {
                None => new == old && (r matches Err(RequestError::DecodeError(_))),
                Some(es) => if initial_digest(es) != hash@ {
                    new == old && (r matches Ok(
                        ServerStep::Respond(TcpStateServerResponse::HashMismatch),
                    ))
                } else {
                    &&& r matches Ok(ServerStep::RunInitHooks { hash: h, statemap })
                    &&& h@ == hash@
                    &&& statemap@.data == entries_to_map(es)
                    &&& statemap@.hash == Some(hash@)
                    &&& statemap@.is_master
                    &&& statemap@.update_id == 0
                    &&& new.statemaps == old.statemaps
                    &&& new.processing == old.processing.insert(hash@)
                },
            }
        },
{
    match request {
        TcpStateServerRequest::Init { hash, init_data } => {
            if !old.statemaps.contains_key(hash@) && !old.processing.contains(hash@) {
                match bincode_entries_decoding(init_data@) {
                    Some(es) => {
                        if initial_digest(es) == hash@ {
                            match r {
                                Ok(ServerStep::RunInitHooks { hash: h, statemap }) => {
                                    lemma_initial_master_digest(statemap@, es);
                                },
                                _ => {},
                            }
                        }
                    },
                    None => {},
                }
            }
        },
        _ => {},
    }
}

/// The key order is lexicographic on unsigned bytes: `a` comes at or before `b` exactly
/// when `a` is a prefix of `b`, or at the first position where they differ `a` has the
/// smaller byte.
pub proof fn lemma_key_le_lexicographic(a: Seq<u8>, b: Seq<u8>)
    ensures
        key_le(a, b) <==> {
            ||| a.len() <= b.len() && forall|j: int| 0 <= j < a.len() ==> #[trigger] a[j] == b[j]
            ||| exists|i: int|
                0 <= i < a.len() && i < b.len() && #[trigger] a[i] < b[i] && forall|j: int|
                    0 <= j < i ==> #[trigger] a[j] == b[j]
        },
    decreases a.len(),
{
    let prefix = a.len() <= b.len() && forall|j: int| 0 <= j < a.len() ==> #[trigger] a[j] == b[j];
    let smaller = exists|i: int|
        0 <= i < a.len() && i < b.len() && #[trigger] a[i] < b[i] && forall|j: int|
            0 <= j < i ==> #[trigger] a[j] == b[j];
    if a.len() == 0 {
        assert(prefix);
    } else if b.len() == 0 {
        assert(!prefix);
        assert(!smaller);
    } else if a[0] != b[0] {
        if a[0] < b[0] {
            assert(forall|j: int| 0 <= j < 0 ==> #[trigger] a[j] == b[j]);
            assert(smaller);
        } else {
            assert(!prefix) by {
                if prefix {
                    assert(a[0] == b[0]);
                }
            }
            assert(!smaller) by {
                if smaller {
                    let i = choose|i: int|
                        0 <= i < a.len() && i < b.len() && #[trigger] a[i] < b[i] && forall|j: int|
                            0 <= j < i ==> #[trigger] a[j] == b[j];
                    if i > 0 {
                        assert(a[0] == b[0]);
                    }
                }
            }
        }
    } else {
        let a2 = a.drop_first();
        let b2 = b.drop_first();
        lemma_key_le_lexicographic(a2, b2);
        let prefix2 = a2.len() <= b2.len() && forall|j: int|
            0 <= j < a2.len() ==> #[trigger] a2[j] == b2[j];
        let smaller2 = exists|i: int|
            0 <= i < a2.len() && i < b2.len() && #[trigger] a2[i] < b2[i] && forall|j: int|
                0 <= j < i ==> #[trigger] a2[j] == b2[j];
        assert(prefix == prefix2) by {
            if prefix {
                assert forall|j: int| 0 <= j < a2.len() implies #[trigger] a2[j] == b2[j] by {
                    assert(a[j + 1] == b[j + 1]);
                }
            }
            if prefix2 {
                assert forall|j: int| 0 <= j < a.len() implies #[trigger] a[j] == b[j] by {
                    if j > 0 {
                        assert(a2[j - 1] == b2[j - 1]);
                    }
                }
            }
        }
        assert(smaller == smaller2) by {
            if smaller {
                let i = choose|i: int|
                    0 <= i < a.len() && i < b.len() && #[trigger] a[i] < b[i] && forall|j: int|
                        0 <= j < i ==> #[trigger] a[j] == b[j];
                assert(i > 0);
                assert(a2[i - 1] < b2[i - 1]);
                assert forall|j: int| 0 <= j < i - 1 implies #[trigger] a2[j] == b2[j] by {
                    assert(a[j + 1] == b[j + 1]);
                }
            }
            if smaller2 {
                let i = choose|i: int|
                    0 <= i < a2.len() && i < b2.len() && #[trigger] a2[i] < b2[i] && forall|j: int|
                        0 <= j < i ==> #[trigger] a2[j] == b2[j];
                assert(a[i + 1] < b[i + 1]);
                assert forall|j: int| 0 <= j < i + 1 implies #[trigger] a[j] == b[j] by {
                    if j > 0 {
                        assert(a2[j - 1] == b2[j - 1]);
                    }
                }
            }
        }
    }
}

/// A fetched diff is applied only when it has changes and spans the map's update id: it
/// starts at or before it and ends at or after it. Then the map takes the diff's update id
/// and, for each of its keys, the value the diff last gives it, if any; otherwise the map
/// is left as it was.
pub proof fn lemma_fetch_applies_only_spanning_diffs(
    old: StateMapView,
    d: DiffView,
    new: StateMapView,
    r: Result<(), crate::statemap::StateMapError>,
)
    requires
        applies_fetched(old, Ok(d), new, r),
    ensures
        r is Ok ==> {
            &&& d.entries.len() > 0
            &&& d.from_update_id <= old.update_id <= d.upto_update_id
            &&& new.update_id == d.upto_update_id
            &&& new.data.dom() == old.data.dom()
            &&& forall|k: Seq<u8>|
                #[trigger] new.data.contains_key(k) ==> new.data[k] == if entries_to_map(
                    d.entries,
                ).contains_key(k) {
                    entries_to_map(d.entries)[k]
                } else {
                    old.data[k]
                }
            &&& new.hash == old.hash && new.history == old.history
        },
        r is Err ==> new == old,
        d.from_update_id > old.update_id ==> r is Err,
        d.upto_update_id < old.update_id ==> r is Err,
        d.entries.len() == 0 ==> r == Err::<(), crate::statemap::StateMapError>(
            crate::statemap::StateMapError::EmptyDiff,
        ),
{
    if r is Ok {
        assert(new.data.dom() =~= old.data.dom());
    }
}

/// Compressing a diff keeps what it does and what it is: the same value for each key (the
/// last one the diff wrote), the same update ids, and the same fullness, with each key
/// written once.
pub proof fn lemma_compress_keeps_diff(compressed: DiffView, d: DiffView)
    requires
        is_compression_of(compressed, d),
    ensures
        compressed.is_full == d.is_full,
        compressed.from_update_id == d.from_update_id,
        compressed.upto_update_id == d.upto_update_id,
        entries_to_map(compressed.entries) == entries_to_map(d.entries),
        forall|i: int, j: int|
            0 <= i < j < compressed.entries.len() ==> (#[trigger] compressed.entries[i]).0
                != (#[trigger] compressed.entries[j]).0,
{
}

/// The length written before each key and value is its value in 8 big-endian bytes: read
/// back most significant byte first, the bytes give the number.
pub proof fn lemma_be_u64_reads_back(n: u64)
    ensures
        be_u64(n).len() == 8,
        be_u64(n)[0] * 0x100000000000000 + be_u64(n)[1] * 0x1000000000000 + be_u64(n)[2]
            * 0x10000000000 + be_u64(n)[3] * 0x100000000 + be_u64(n)[4] * 0x1000000 + be_u64(
            n,
        )[5] * 0x10000 + be_u64(n)[6] * 0x100 + be_u64(n)[7] == n,
{
    let b0 = (n >> 56u64) as u8;
    let b1 = (n >> 48u64) as u8;
    let b2 = (n >> 40u64) as u8;
    let b3 = (n >> 32u64) as u8;
    let b4 = (n >> 24u64) as u8;
    let b5 = (n >> 16u64) as u8;
    let b6 = (n >> 8u64) as u8;
    let b7 = n as u8;
    assert(b0 * 0x100000000000000 + b1 * 0x1000000000000 + b2 * 0x10000000000 + b3 * 0x100000000
        + b4 * 0x1000000 + b5 * 0x10000 + b6 * 0x100 + b7 == n) by (bit_vector)
        requires
            b0 == (n >> 56u64) as u8,
            b1 == (n >> 48u64) as u8,
            b2 == (n >> 40u64) as u8,
            b3 == (n >> 32u64) as u8,
            b4 == (n >> 24u64) as u8,
            b5 == (n >> 16u64) as u8,
            b6 == (n >> 8u64) as u8,
            b7 == n as u8,
    ;
}

/// Writing entries one after the other leaves each written key with the value of its last
/// entry: some entry carries the key and that value, and no later entry carries the key.
pub proof fn lemma_last_entry_wins(s: Seq<EntryView>, k: Seq<u8>)
    requires
        entries_to_map(s).contains_key(k),
    ensures
        exists|i: int|
            0 <= i < s.len() && #[trigger] s[i].0 == k && entries_to_map(s)[k] == s[i].1
                && forall|j: int| i < j < s.len() ==> #[trigger] s[j].0 != k,
    decreases s.len(),
{
    let n = s.len() - 1;
    if s[n].0 == k {
        assert(entries_to_map(s)[k] == s[n].1);
        assert(s[n].0 == k);
    } else {
        assert(entries_to_map(s.drop_last()).contains_key(k));
        lemma_last_entry_wins(s.drop_last(), k);
        let i = choose|i: int|
            0 <= i < s.drop_last().len() && #[trigger] s.drop_last()[i].0 == k && entries_to_map(
                s.drop_last(),
            )[k] == s.drop_last()[i].1 && forall|j: int|
                i < j < s.drop_last().len() ==> #[trigger] s.drop_last()[j].0 != k;
        assert(s[i] == s.drop_last()[i]);
        assert forall|j: int| i < j < s.len() implies #[trigger] s[j].0 != k by {
            if j < n {
                assert(s.drop_last()[j] == s[j]);
            }
        }
    }
}

/// Setting a key's value on a map changes that value and nothing else of its data, moves
/// the update id one up, and records one diff with that single write, from the old update
/// id to the new one.
pub proof fn lemma_set_writes_one_value(v: StateMapView, key: Seq<u8>, value: Seq<u8>)
    requires
        v.data.contains_key(key),
        v.update_id < u64::MAX,
    ensures
        after_set(v, key, value).data.dom() == v.data.dom(),
        after_set(v, key, value).data[key] == value,
        forall|k: Seq<u8>|
            k != key && v.data.contains_key(k) ==> #[trigger] after_set(v, key, value).data[k]
                == v.data[k],
        after_set(v, key, value).update_id == v.update_id + 1,
        after_set(v, key, value).hash == v.hash,
        after_set(v, key, value).history.len() == v.history.len() + 1,
        forall|i: int|
            0 <= i < v.history.len() ==> #[trigger] after_set(v, key, value).history[i]
                == v.history[i],
        after_set(v, key, value).history.last().entries == seq![(key, value)],
        after_set(v, key, value).history.last().from_update_id == v.update_id,
        after_set(v, key, value).history.last().upto_update_id == v.update_id + 1,
        !after_set(v, key, value).history.last().is_full,
{
    let w = after_set(v, key, value);
    let e = seq![(key, value)];
    assert(e.drop_last() =~= Seq::<EntryView>::empty());
    assert(entries_to_map(e.drop_last()) == Map::<Seq<u8>, Seq<u8>>::empty());
    assert(entries_to_map(e) =~= Map::<Seq<u8>, Seq<u8>>::empty().insert(key, value));
    assert(w.data.dom() =~= v.data.dom());
}

/// Freezing sorts the pushed keys in ascending key order, keeps each of them as often as it
/// was pushed, and takes as digest the SHA-256 of the records of the sorted keys.
pub proof fn lemma_freeze_hashes_sorted_keys(old: StateMapView, new: StateMapView)
    requires
        froze(old, new),
    ensures
        forall|i: int, j: int|
            0 <= i < j < new.order.len() ==> key_le(#[trigger] new.order[i], #[trigger] new.order[j]),
        new.order.to_multiset() == old.order.to_multiset(),
        new.hash == Some(sha256_digest(hash_input(new.order, old.data))),
{
    lemma_key_order_total();
    old.order.lemma_sort_by_ensures(key_order());
    assert forall|i: int, j: int| 0 <= i < j < new.order.len() implies key_le(
        #[trigger] new.order[i],
        #[trigger] new.order[j],
    ) by {
        assert(key_order()(new.order[i], new.order[j]));
    }
}

/// The hashed stream is the records of the keys in their order, each the key's length in 8
/// big-endian bytes, the key, the value's length in 8 big-endian bytes and the value.
pub proof fn lemma_hash_input_records(keys: Seq<Seq<u8>>, k: Seq<u8>, data: Map<Seq<u8>, Seq<u8>>)
    ensures
        hash_input(Seq::empty(), data) == Seq::<u8>::empty(),
        hash_input(keys.push(k), data) == hash_input(keys, data) + be_u64(k.len() as u64) + k
            + be_u64(data[k].len() as u64) + data[k],
{
    assert(keys.push(k).drop_last() =~= keys);
    assert(hash_input(keys.push(k), data) =~= hash_input(keys, data) + be_u64(k.len() as u64) + k
        + be_u64(data[k].len() as u64) + data[k]);
}

/// A merge spans its diffs: it starts at or before each of them and ends at or after each
/// of them, it starts where one of them starts and ends where one of them ends (when there
/// is one), it writes exactly the keys they write, and a key written by the last diff has
/// that diff's value.
pub proof fn lemma_merge_spans(d: DiffView, ds: Seq<DiffView>)
    requires
        is_merge_of(d, ds),
    ensures
        forall|i: int| 0 <= i < ds.len() ==> d.from_update_id <= (#[trigger] ds[i]).from_update_id
            && ds[i].upto_update_id <= d.upto_update_id,
        ds.len() > 0 ==> exists|i: int| 0 <= i < ds.len() && (#[trigger] ds[i]).from_update_id == d.from_update_id,
        ds.len() > 0 ==> exists|i: int| 0 <= i < ds.len() && (#[trigger] ds[i]).upto_update_id == d.upto_update_id,
        forall|k: Seq<u8>|
            #[trigger] entries_to_map(d.entries).contains_key(k) <==> exists|i: int|
                0 <= i < ds.len() && entries_to_map((#[trigger] ds[i]).entries).contains_key(k),
        ds.len() > 0 ==> forall|k: Seq<u8>|
            #[trigger] entries_to_map(ds.last().entries).contains_key(k) ==> entries_to_map(
                d.entries,
            )[k] == entries_to_map(ds.last().entries)[k],
        !d.is_full,
{
    lemma_merge_bounds(ds);
    lemma_history_keys_union(ds);
}

proof fn lemma_merge_bounds(ds: Seq<DiffView>)
    ensures
        forall|i: int| 0 <= i < ds.len() ==> min_from(ds) <= (#[trigger] ds[i]).from_update_id
            && ds[i].upto_update_id <= max_upto(ds),
        ds.len() > 0 ==> exists|i: int| 0 <= i < ds.len() && (#[trigger] ds[i]).from_update_id == min_from(ds),
        ds.len() > 0 ==> exists|i: int| 0 <= i < ds.len() && (#[trigger] ds[i]).upto_update_id == max_upto(ds),
    decreases ds.len(),
{
    if ds.len() > 0 {
        let p = ds.drop_last();
        let n = ds.len() - 1;
        lemma_merge_bounds(p);
        assert forall|i: int| 0 <= i < ds.len() implies min_from(ds) <= (#[trigger] ds[i]).from_update_id
            && ds[i].upto_update_id <= max_upto(ds) by {
            if i < n {
                assert(p[i] == ds[i]);
            }
        }
        if n > 0 {
            let a = choose|i: int| 0 <= i < p.len() && (#[trigger] p[i]).from_update_id == min_from(p);
            let b = choose|i: int| 0 <= i < p.len() && (#[trigger] p[i]).upto_update_id == max_upto(p);
            assert(p[a] == ds[a]);
            assert(p[b] == ds[b]);
            if ds[n].from_update_id < min_from(p) {
                assert(ds[n].from_update_id == min_from(ds));
            } else {
                assert(ds[a].from_update_id == min_from(ds));
            }
            if ds[n].upto_update_id > max_upto(p) {
                assert(ds[n].upto_update_id == max_upto(ds));
            } else {
                assert(ds[b].upto_update_id == max_upto(ds));
            }
        } else {
            assert(p =~= Seq::<DiffView>::empty());
            assert(ds[0].from_update_id == min_from(ds));
            assert(ds[0].upto_update_id == max_upto(ds));
        }
    }
}

proof fn lemma_history_keys_union(ds: Seq<DiffView>)
    ensures
        forall|k: Seq<u8>|
            #[trigger] history_map(ds).contains_key(k) <==> exists|i: int|
                0 <= i < ds.len() && entries_to_map((#[trigger] ds[i]).entries).contains_key(k),
    decreases ds.len(),
{
    if ds.len() > 0 {
        let p = ds.drop_last();
        let n = ds.len() - 1;
        lemma_history_keys_union(p);
        assert forall|k: Seq<u8>| #[trigger] history_map(ds).contains_key(k) <==> exists|i: int|
            0 <= i < ds.len() && entries_to_map((#[trigger] ds[i]).entries).contains_key(k) by {
            if history_map(ds).contains_key(k) {
                if entries_to_map(ds[n].entries).contains_key(k) {
                } else {
                    assert(history_map(p).contains_key(k));
                    let i = choose|i: int|
                        0 <= i < p.len() && entries_to_map((#[trigger] p[i]).entries).contains_key(k);
                    assert(p[i] == ds[i]);
                }
            }
            if exists|i: int|
                0 <= i < ds.len() && entries_to_map((#[trigger] ds[i]).entries).contains_key(k) {
                let i = choose|i: int|
                    0 <= i < ds.len() && entries_to_map((#[trigger] ds[i]).entries).contains_key(k);
                if i < n {
                    assert(p[i] == ds[i]);
                    assert(history_map(p).contains_key(k));
                }
            }
        }
    } else {
        assert(history_map(ds) == Map::<Seq<u8>, Seq<u8>>::empty());
    }
}

} // verus!
