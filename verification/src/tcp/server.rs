//! The decisions of a state server: which state maps it hosts, which initialisations are
//! under way, and what each request is answered.
//!
//! The server hosts master state maps, one per digest. A request is processed by
//! [`StateServerCore::process_request`], which answers it, or hands back the work that
//! only the caller can do: running the event hooks, or the initialisation hooks of a new
//! map before [`StateServerCore::finish_init`] registers it.
use vstd::prelude::*;
use vstd::relations::sorted_by;

use crate::entries::{
    entries_to_map, entries_view, keys_distinct, lemma_distinct_lookup, lemma_entries_to_map_dom,
    upsert, EntryView,
};
use crate::keys::{bytes_equal, copy_bytes, key_order, lemma_key_order_total};
use crate::digest::{hash_input, sha256_digest};
use crate::remote::DummyRemote;
use crate::statemap::{
    froze, get_diff_defined, get_diff_spec, is_full_diff_of, StateMap, StateMapView,
};
use crate::tcp::codec::{
    bincode_entries_decoding, bincode_entries_encoding, decode_entries, encode_entries,
};
use crate::tcp::{TcpStateServerRequest, TcpStateServerRequestWrapper, TcpStateServerResponse};

verus! {

/// Why a request could not be answered.
#[derive(Debug)]
pub enum RequestError {
    /// The initial entries of an `Init` request could not be decoded.
    DecodeError(String),
    /// A diff could not be encoded.
    EncodeError(String),
    /// The state map has recorded no diff yet, so it cannot serve one.
    DiffUnavailable,
}

/// What processing a request leads to.
pub enum ServerStep {
    /// Send this response.
    Respond(TcpStateServerResponse),
    /// Decode the event and run the hooks on the hosted map `hash`, then answer
    /// [`TcpStateServerResponse::EventInProcess`].
    DispatchEvent { hash: [u8; 32], evt_data: Vec<u8> },
    /// Run the initialisation hooks on `statemap`, then call
    /// [`StateServerCore::finish_init`] (or [`StateServerCore::abort_init`] on failure).
    RunInitHooks { hash: [u8; 32], statemap: StateMap<DummyRemote> },
}

/// The state of a server: the hosted master maps by digest, and the digests whose
/// initialisation is under way.
pub struct StateServerCore {
    hashes: Vec<[u8; 32]>,
    maps: Vec<StateMap<DummyRemote>>,
    processing: Vec<[u8; 32]>,
}

/// What a [`StateServerCore`] holds.
pub struct ServerView {
    pub statemaps: Map<Seq<u8>, StateMapView>,
    pub processing: Set<Seq<u8>>,
}

/// `m` is the master map built from the initial entries `es`: their values, the keys
/// sorted without repetition, frozen, with its digest and a full diff recorded.
pub open spec fn is_initial_master(m: StateMapView, es: Seq<EntryView>) -> bool {
    &&& m.data == entries_to_map(es)
    &&& m.is_master
    &&& m.update_id == 0
    &&& sorted_by(m.order, key_order())
    &&& m.order.no_duplicates()
    &&& m.order.to_set() == m.data.dom()
    &&& m.hash == Some(sha256_digest(hash_input(m.order, m.data)))
    &&& m.history.len() == 1
    &&& is_full_diff_of(m.history[0], m)
}

/// The views of a sequence of digests.
pub open spec fn hashes_view(s: Seq<[u8; 32]>) -> Seq<Seq<u8>> {
    s.map_values(|h: [u8; 32]| h@)
}

/// Checks the password of a request: the request itself when `wrapper` carries the
/// `expected` password, and otherwise the answer `IncorrectPassword`.
pub fn authorize(expected: &[u8], wrapper: TcpStateServerRequestWrapper) -> (r: Result<
    TcpStateServerRequest,
    TcpStateServerResponse,
>)
    ensures
        wrapper.password@ == expected@ ==> r == Ok::<
            TcpStateServerRequest,
            TcpStateServerResponse,
        >(wrapper.event),
        wrapper.password@ != expected@ ==> r matches Err(
            TcpStateServerResponse::IncorrectPassword,
        ),
{
    if bytes_equal(wrapper.password.as_slice(), expected) {
        Ok(wrapper.event)
    } else {
        Err(TcpStateServerResponse::IncorrectPassword)
    }
}

/// Builds the master map for the initial entries `es`: each key once with the last value
/// `es` gives it, made master and frozen. Its remote, a [`DummyRemote`], accepts the
/// freeze, so building always succeeds.
pub fn build_master(es: &Vec<(Vec<u8>, Vec<u8>)>) -> (r: StateMap<DummyRemote>)
    ensures
        is_initial_master(r@, entries_view(es@)),
{
    // one entry per key, the last value winning
    let ghost e = entries_view(es@);
    let mut distinct: Vec<(Vec<u8>, Vec<u8>)> = Vec::new();
    let mut i: usize = 0;
    assert(entries_view(distinct@) =~= Seq::<EntryView>::empty());
    assert(e.take(0) =~= Seq::<EntryView>::empty());
    while i < es.len()
        invariant
            e == entries_view(es@),
            i <= es@.len(),
            keys_distinct(entries_view(distinct@)),
            entries_to_map(entries_view(distinct@)) == entries_to_map(e.take(i as int)),
        decreases es@.len() - i,
    {
        let k = copy_bytes(es[i].0.as_slice());
        let v = copy_bytes(es[i].1.as_slice());
        upsert(&mut distinct, k, v);
        assert(e.take(i + 1).drop_last() =~= e.take(i as int));
        i = i + 1;
    }
    assert(e.take(es@.len() as int) =~= e);
    let ghost d = entries_view(distinct@);
    let ghost keys = d.map_values(|x: EntryView| x.0);
    // push them
    let mut m = StateMap::new(DummyRemote);
    let mut j: usize = 0;
    assert(d.take(0) =~= Seq::<EntryView>::empty());
    assert(keys.take(0) =~= Seq::<Seq<u8>>::empty());
    while j < distinct.len()
        invariant
            d == entries_view(distinct@),
            keys_distinct(d),
            keys == d.map_values(|x: EntryView| x.0),
            j <= distinct@.len(),
            m@.data == entries_to_map(d.take(j as int)),
            m@.order == keys.take(j as int),
            m@.hash is None,
            !m@.is_master,
            m@.update_id == 0,
            m@.history.len() == 0,
        decreases distinct@.len() - j,
    {
        let k = copy_bytes(distinct[j].0.as_slice());
        let v = copy_bytes(distinct[j].1.as_slice());
        proof {
            lemma_entries_to_map_dom(d.take(j as int), k@);
            assert forall|q: int| 0 <= q < j implies d.take(j as int)[q].0 != k@ by {
                assert(d[q].0 != d[j as int].0);
            }
        }
        let _ = m.push(k, v);
        assert(d.take(j + 1).drop_last() =~= d.take(j as int));
        assert(keys.take(j + 1) =~= keys.take(j as int).push(k@));
        j = j + 1;
    }
    assert(d.take(distinct@.len() as int) =~= d);
    assert(keys.take(distinct@.len() as int) =~= keys);
    let _ = m.set_master(true);
    let ghost pushed = m@;
    proof {
        // the pushed keys are the keys of the data, each once
        assert(keys.no_duplicates()) by {
            assert forall|a: int, b: int| 0 <= a < keys.len() && 0 <= b < keys.len() && a != b implies keys[a] != keys[b] by {
                if a < b {
                    assert(d[a].0 != d[b].0);
                } else {
                    assert(d[b].0 != d[a].0);
                }
            }
        }
        assert forall|x: Seq<u8>| #[trigger] keys.to_set().contains(x) == pushed.data.contains_key(x) by {
            lemma_entries_to_map_dom(d, x);
            if pushed.data.contains_key(x) {
                let q = choose|q: int| 0 <= q < d.len() && d[q].0 == x;
                assert(keys[q] == x);
            }
            if keys.to_set().contains(x) {
                assert(keys.contains(x));
                let q = choose|q: int| 0 <= q < keys.len() && keys[q] == x;
                assert(d[q].0 == x);
            }
        }
    }
    // a DummyRemote accepts the freeze
    let frozen = m.freeze();
    assert(frozen is Ok);
    proof {
        let f = m@;
        assert(froze(pushed, f));
        lemma_key_order_total();
        keys.lemma_sort_by_ensures(key_order());
        let sorted = keys.sort_by(key_order());
        assert(f.order == sorted);
        broadcast use vstd::seq_lib::group_to_multiset_ensures;
        keys.lemma_multiset_has_no_duplicates();
        assert forall|x: Seq<u8>| sorted.to_multiset().contains(x) implies sorted.to_multiset().count(x) == 1 by {
            assert(keys.to_multiset().contains(x));
        }
        sorted.lemma_multiset_has_no_duplicates_conv();
        assert forall|x: Seq<u8>| #[trigger] sorted.to_set().contains(x) == keys.to_set().contains(x) by {
            assert(sorted.contains(x) == (sorted.to_multiset().count(x) > 0));
            assert(keys.contains(x) == (keys.to_multiset().count(x) > 0));
        }
        assert(sorted.to_set() =~= f.data.dom());
        assert(f.history.drop_last() == Seq::<crate::diff::DiffView>::empty());
        assert(f.history[0] == f.history.last());
    }
    m
}

/// The keys of the initial entries `es`, sorted ascending, each once.
pub open spec fn initial_keys(es: Seq<EntryView>) -> Seq<Seq<u8>> {
    choose|o: Seq<Seq<u8>>|
        sorted_by(o, key_order()) && o.no_duplicates() && o.to_set() == entries_to_map(es).dom()
}

/// The digest of the master map built from the initial entries `es`.
pub open spec fn initial_digest(es: Seq<EntryView>) -> Seq<u8> {
    sha256_digest(hash_input(initial_keys(es), entries_to_map(es)))
}

/// Two sorted sequences without repetition that hold the same elements are equal.
pub proof fn lemma_sorted_set_unique(a: Seq<Seq<u8>>, b: Seq<Seq<u8>>)
    requires
        sorted_by(a, key_order()),
        sorted_by(b, key_order()),
        a.no_duplicates(),
        b.no_duplicates(),
        a.to_set() == b.to_set(),
    ensures
        a == b,
{
    broadcast use vstd::seq_lib::group_to_multiset_ensures;

    lemma_key_order_total();
    a.lemma_multiset_has_no_duplicates();
    b.lemma_multiset_has_no_duplicates();
    assert forall|x: Seq<u8>| a.to_multiset().count(x) == b.to_multiset().count(x) by {
        assert(a.to_set().contains(x) == a.contains(x));
        assert(b.to_set().contains(x) == b.contains(x));
    }
    assert(a.to_multiset() =~= b.to_multiset());
    vstd::seq_lib::lemma_sorted_unique(a, b, key_order());
}

/// The digest of a master map built from `es` is [`initial_digest`]`(es)`.
pub(crate) proof fn lemma_initial_master_digest(m: StateMapView, es: Seq<EntryView>)
    requires
        is_initial_master(m, es),
    ensures
        m.hash == Some(initial_digest(es)),
{
    let o = initial_keys(es);
    assert(sorted_by(m.order, key_order()) && m.order.no_duplicates() && m.order.to_set()
        == entries_to_map(es).dom());
    lemma_sorted_set_unique(m.order, o);
}

/// The hosted maps of `core`, as digest-map pairs.
pub open spec fn hosted_view(hashes: Seq<[u8; 32]>, maps: Seq<StateMap<DummyRemote>>) -> Seq<
    (Seq<u8>, StateMapView),
> {
    Seq::new(hashes.len(), |i: int| (hashes[i]@, maps[i]@))
}

/// The diff `d` encoded in a response, or the error of its encoding.
pub open spec fn serves_encoded(d: crate::diff::DiffView, r: Result<ServerStep, RequestError>) -> bool {
    match bincode_entries_encoding(d.entries) {
        None => r matches Err(RequestError::EncodeError(_)),
        Some(b) => r matches Ok(
            ServerStep::Respond(
                TcpStateServerResponse::Diff { from_update_id, upto_update_id, is_full, encoded_diff },
            ),
        ) && from_update_id == d.from_update_id && upto_update_id == d.upto_update_id && is_full
            == d.is_full && encoded_diff@ == b,
    }
}

/// What processing `request` does to a server `old`: the new state and the outcome.
pub open spec fn processes(
    old: ServerView,
    request: TcpStateServerRequest,
    new: ServerView,
    r: Result<ServerStep, RequestError>,
) -> bool {
    match request {
        TcpStateServerRequest::GetUpdateId { hash } => new == old && if old.statemaps.contains_key(
            hash@,
        ) {
            r matches Ok(ServerStep::Respond(TcpStateServerResponse::UpdateId { update_id }))
                && update_id == old.statemaps[hash@].update_id
        } else {
            r matches Ok(ServerStep::Respond(TcpStateServerResponse::HashNotFound))
        },
        TcpStateServerRequest::Event { hash, evt_data } => new == old
            && if old.statemaps.contains_key(hash@) {
            r matches Ok(ServerStep::DispatchEvent { hash: h, evt_data: e }) && h@ == hash@ && e@
                == evt_data@
        } else {
            r matches Ok(ServerStep::Respond(TcpStateServerResponse::HashNotFound))
        },
        TcpStateServerRequest::GetDiff { hash, from_update_id, upto_update_id } => new == old
            && if !old.statemaps.contains_key(hash@) {
            r matches Ok(ServerStep::Respond(TcpStateServerResponse::HashNotFound))
        } else if !get_diff_defined(old.statemaps[hash@].history) {
            r matches Err(RequestError::DiffUnavailable)
        } else {
            exists|d: crate::diff::DiffView|
                get_diff_spec(old.statemaps[hash@], from_update_id, upto_update_id, d)
                    && serves_encoded(d, r)
        },
        TcpStateServerRequest::Init { hash, init_data } => if old.statemaps.contains_key(hash@)
            || old.processing.contains(hash@) {
            new == old && r matches Ok(ServerStep::Respond(TcpStateServerResponse::InitSuccess))
        } else {
            match bincode_entries_decoding(init_data@) {
                None => new == old && r matches Err(RequestError::DecodeError(_)),
                Some(es) => if initial_digest(es) != hash@ {
                    new == old && r matches Ok(
                        ServerStep::Respond(TcpStateServerResponse::HashMismatch),
                    )
                } else {
                    (r matches Ok(ServerStep::RunInitHooks { hash: h, statemap }) && h@ == hash@
                        && is_initial_master(statemap@, es)) && new == (ServerView {
                        processing: old.processing.insert(hash@),
                        ..old
                    })
                },
            }
        },
    }
}

/// How [`StateServerCore::conclude_init`] concludes, from `mid`, the
/// initialisation of the map `statemap` under `hash`: it is no longer under way, and the
/// map is hosted (no hook failed) or not (a hook failed).
pub open spec fn concludes(mid: ServerView, hash: Seq<u8>, statemap: StateMapView, new: ServerView) -> bool {
    &&& new.processing == mid.processing.remove(hash)
    &&& new.statemaps == mid.statemaps.insert(hash, statemap) || new.statemaps == mid.statemaps
}

proof fn lemma_remove_no_dup(s: Seq<Seq<u8>>, i: int)
    requires
        s.no_duplicates(),
        0 <= i < s.len(),
    ensures
        s.remove(i).no_duplicates(),
        s.remove(i).to_set() == s.to_set().remove(s[i]),
{
    let t = s.remove(i);
    assert forall|a: int, b: int| 0 <= a < t.len() && 0 <= b < t.len() && a != b implies t[a]
        != t[b] by {
        let a2 = if a < i { a } else { a + 1 };
        let b2 = if b < i { b } else { b + 1 };
        assert(t[a] == s[a2] && t[b] == s[b2]);
    }
    assert forall|x: Seq<u8>| #[trigger] t.to_set().contains(x) == s.to_set().remove(s[i]).contains(x) by {
        if t.contains(x) {
            let a = choose|a: int| 0 <= a < t.len() && t[a] == x;
            let a2 = if a < i { a } else { a + 1 };
            assert(s[a2] == x);
        }
        if s.contains(x) && x != s[i] {
            let a = choose|a: int| 0 <= a < s.len() && s[a] == x;
            if a < i {
                assert(t[a] == x);
            } else {
                assert(t[a - 1] == x);
            }
        }
    }
    assert(t.to_set() =~= s.to_set().remove(s[i]));
}

impl View for StateServerCore {
    type V = ServerView;

    closed spec fn view(&self) -> ServerView {
        ServerView {
            statemaps: entries_to_map(hosted_view(self.hashes@, self.maps@)),
            processing: hashes_view(self.processing@).to_set(),
        }
    }
}

impl StateServerCore {
    /// Each digest is hosted once, and under way once.
    pub closed spec fn wf(&self) -> bool {
        &&& self.hashes@.len() == self.maps@.len()
        &&& keys_distinct(hosted_view(self.hashes@, self.maps@))
        &&& hashes_view(self.processing@).no_duplicates()
    }

    /// A server that hosts nothing.
    pub fn new() -> (r: StateServerCore)
        ensures
            r.wf(),
            r@.statemaps == Map::<Seq<u8>, StateMapView>::empty(),
            r@.processing == Set::<Seq<u8>>::empty(),
    {
        let r = StateServerCore { hashes: Vec::new(), maps: Vec::new(), processing: Vec::new() };
        assert(hosted_view(r.hashes@, r.maps@) =~= Seq::<(Seq<u8>, StateMapView)>::empty());
        assert(hashes_view(r.processing@) =~= Seq::<Seq<u8>>::empty());
        assert(r@.processing =~= Set::<Seq<u8>>::empty());
        r
    }

    /// The position of the hosted map with digest `hash`.
    fn find_hosted(&self, hash: &[u8; 32]) -> (r: Option<usize>)
        requires
            self.wf(),
        ensures
            match r {
                Some(i) => i < self.maps@.len() && self.hashes@[i as int]@ == hash@
                    && self@.statemaps.contains_key(hash@) && self@.statemaps[hash@]
                    == self.maps@[i as int]@,
                None => !self@.statemaps.contains_key(hash@),
            },
    {
        let ghost hv = hosted_view(self.hashes@, self.maps@);
        let mut i: usize = 0;
        while i < self.hashes.len()
            invariant
                self.wf(),
                hv == hosted_view(self.hashes@, self.maps@),
                i <= self.hashes@.len(),
                forall|j: int| 0 <= j < i ==> hv[j].0 != hash@,
            decreases self.hashes@.len() - i,
        {
            if bytes_equal(self.hashes[i].as_slice(), hash.as_slice()) {
                proof {
                    lemma_distinct_lookup(hv, i as int);
                }
                return Some(i);
            }
            i = i + 1;
        }
        proof {
            lemma_entries_to_map_dom(hv, hash@);
        }
        None
    }

    /// The position of `hash` among the digests under way.
    fn find_processing(&self, hash: &[u8; 32]) -> (r: Option<usize>)
        requires
            self.wf(),
        ensures
            match r {
                Some(i) => i < self.processing@.len() && self.processing@[i as int]@ == hash@,
                None => !self@.processing.contains(hash@),
            },
    {
        let ghost pv = hashes_view(self.processing@);
        let mut i: usize = 0;
        while i < self.processing.len()
            invariant
                pv == hashes_view(self.processing@),
                i <= self.processing@.len(),
                forall|j: int| 0 <= j < i ==> pv[j] != hash@,
            decreases self.processing@.len() - i,
        {
            if bytes_equal(self.processing[i].as_slice(), hash.as_slice()) {
                return Some(i);
            }
            i = i + 1;
        }
        proof {
            if pv.to_set().contains(hash@) {
                assert(pv.contains(hash@));
            }
        }
        None
    }

    /// Marks `hash` as under way.
    fn mark_processing(&mut self, hash: [u8; 32])
        requires
            old(self).wf(),
            !old(self)@.processing.contains(hash@),
        ensures
            final(self).wf(),
            final(self)@ == (ServerView {
                processing: old(self)@.processing.insert(hash@),
                ..old(self)@
            }),
    {
        let ghost old_p = hashes_view(self.processing@);
        self.processing.push(hash);
        proof {
            let p = hashes_view(self.processing@);
            assert(p =~= old_p.push(hash@));
            assert(!old_p.contains(hash@)) by {
                if old_p.contains(hash@) {
                    assert(old_p.to_set().contains(hash@));
                }
            }
            assert forall|a: int, b: int| 0 <= a < p.len() && 0 <= b < p.len() && a != b implies p[a]
                != p[b] by {
                if a == old_p.len() as int {
                    assert(old_p[b] != hash@);
                } else if b == old_p.len() as int {
                    assert(old_p[a] != hash@);
                }
            }
            assert forall|x: Seq<u8>| #[trigger] p.to_set().contains(x) == old_p.to_set().insert(hash@).contains(x) by {
                if p.contains(x) {
                    let a = choose|a: int| 0 <= a < p.len() && p[a] == x;
                    if a < old_p.len() {
                        assert(old_p[a] == x);
                    }
                }
                if old_p.contains(x) {
                    let a = choose|a: int| 0 <= a < old_p.len() && old_p[a] == x;
                    assert(p[a] == x);
                }
                if x == hash@ {
                    assert(p[old_p.len() as int] == x);
                }
            }
            assert(p.to_set() =~= old_p.to_set().insert(hash@));
        }
    }

    /// Unmarks `hash` as under way.
    fn unmark_processing(&mut self, hash: &[u8; 32])
        requires
            old(self).wf(),
        ensures
            final(self).wf(),
            final(self)@ == (ServerView {
                processing: old(self)@.processing.remove(hash@),
                ..old(self)@
            }),
    {
        match self.find_processing(hash) {
            Some(i) => {
                let ghost old_p = hashes_view(self.processing@);
                proof {
                    lemma_remove_no_dup(old_p, i as int);
                }
                self.processing.remove(i);
                assert(hashes_view(self.processing@) =~= old_p.remove(i as int));
            },
            None => {
                assert(self@.processing =~= self@.processing.remove(hash@));
            },
        }
    }

    /// Hosts `statemap` under the digest `hash`, replacing one hosted there before.
    fn host(&mut self, hash: [u8; 32], statemap: StateMap<DummyRemote>)
        requires
            old(self).wf(),
        ensures
            final(self).wf(),
            final(self)@ == (ServerView {
                statemaps: old(self)@.statemaps.insert(hash@, statemap@),
                ..old(self)@
            }),
    {
        let ghost hv = hosted_view(self.hashes@, self.maps@);
        match self.find_hosted(&hash) {
            Some(i) => {
                proof {
                    crate::entries::lemma_distinct_update(hv, i as int, statemap@);
                }
                let ghost sv = statemap@;
                self.maps.set(i, statemap);
                assert(hosted_view(self.hashes@, self.maps@) =~= hv.update(i as int, (hv[i as int].0, sv)));
            },
            None => {
                proof {
                    lemma_entries_to_map_dom(hv, hash@);
                    crate::entries::lemma_distinct_push(hv, (hash@, statemap@));
                }
                let ghost sv = statemap@;
                self.hashes.push(hash);
                self.maps.push(statemap);
                assert(hosted_view(self.hashes@, self.maps@) =~= hv.push((hash@, sv)));
            },
        }
    }

    /// The hosted map with digest `hash`, to change it.
    pub fn statemap_mut(&mut self, hash: &[u8; 32]) -> (r: Option<&mut StateMap<DummyRemote>>)
        requires
            old(self).wf(),
        ensures
            r matches Some(m) ==> old(self)@.statemaps.contains_key(hash@),
            r matches Some(m) ==> (*m)@ == old(self)@.statemaps[hash@],
            r matches Some(m) ==> final(self).wf(),
            r matches Some(m) ==> final(self)@ == (ServerView {
                statemaps: old(self)@.statemaps.insert(hash@, (*final(m))@),
                ..old(self)@
            }),
            r is None ==> !old(self)@.statemaps.contains_key(hash@) && *final(self) == *old(self),
    {
        match self.find_hosted(hash) {
            Some(i) => {
                let ghost hv = hosted_view(self.hashes@, self.maps@);
                proof {
                    assert forall|x: StateMap<DummyRemote>| #![trigger self.maps@.update(i as int, x)]
                        keys_distinct(hosted_view(self.hashes@, self.maps@.update(i as int, x)))
                            && entries_to_map(hosted_view(self.hashes@, self.maps@.update(i as int, x)))
                            == entries_to_map(hv).insert(hash@, x@) by {
                        crate::entries::lemma_distinct_update(hv, i as int, x@);
                        assert(hosted_view(self.hashes@, self.maps@.update(i as int, x)) =~= hv.update(
                            i as int,
                            (hv[i as int].0, x@),
                        ));
                    }
                }
                let m = &mut self.maps[i];
                Some(m)
            },
            None => None,
        }
    }

    /// Registers the map whose initialisation hooks succeeded: it is hosted under `hash`,
    /// and its initialisation is no longer under way.
    pub fn finish_init(&mut self, hash: [u8; 32], statemap: StateMap<DummyRemote>) -> (r:
        TcpStateServerResponse)
        requires
            old(self).wf(),
        ensures
            final(self).wf(),
            final(self)@ == (ServerView {
                statemaps: old(self)@.statemaps.insert(hash@, statemap@),
                processing: old(self)@.processing.remove(hash@),
            }),
            r is InitSuccess,
    {
        self.host(hash, statemap);
        self.unmark_processing(&hash);
        TcpStateServerResponse::InitSuccess
    }

    /// Concludes an initialisation once its hooks ran: with no hook error, the map is
    /// registered ([`StateServerCore::finish_init`]) and the answer is `InitSuccess`;
    /// otherwise it is given up ([`StateServerCore::abort_init`]) and the answer is
    /// `InitFailure` with the error of the first hook that failed.
    pub fn conclude_init(
        &mut self,
        hash: [u8; 32],
        statemap: StateMap<DummyRemote>,
        hook_error: Option<String>,
    ) -> (r: TcpStateServerResponse)
        requires
            old(self).wf(),
        ensures
            final(self).wf(),
            hook_error is None ==> final(self)@ == (ServerView {
                statemaps: old(self)@.statemaps.insert(hash@, statemap@),
                processing: old(self)@.processing.remove(hash@),
            }) && r is InitSuccess,
            hook_error matches Some(msg) ==> final(self)@ == (ServerView {
                processing: old(self)@.processing.remove(hash@),
                ..old(self)@
            }) && r == (TcpStateServerResponse::InitFailure { error_message: msg }),
            concludes(old(self)@, hash@, statemap@, final(self)@),
    {
        match hook_error {
            None => self.finish_init(hash, statemap),
            Some(msg) => {
                self.abort_init(&hash);
                TcpStateServerResponse::InitFailure { error_message: msg }
            },
        }
    }

    /// Gives up an initialisation whose hooks failed: it is no longer under way.
    pub fn abort_init(&mut self, hash: &[u8; 32])
        requires
            old(self).wf(),
        ensures
            final(self).wf(),
            final(self)@ == (ServerView {
                processing: old(self)@.processing.remove(hash@),
                ..old(self)@
            }),
    {
        self.unmark_processing(hash);
    }

    /// Processes a request:
    /// * `GetUpdateId`: the update id of the hosted map, or `HashNotFound`;
    /// * `Event`: [`ServerStep::DispatchEvent`] for a hosted map, or `HashNotFound`;
    /// * `GetDiff`: the diff the hosted map serves ([`StateMap::get_diff`]), encoded; or
    ///   `HashNotFound`;
    /// * `Init`: `InitSuccess` if the map is hosted or its initialisation is under way;
    ///   otherwise the initialisation is marked under way, the initial entries are decoded
    ///   and the master map built ([`build_master`]); if its digest is not `hash`, the answer
    ///   is `HashMismatch` and the initialisation is no longer under way, and otherwise
    ///   [`ServerStep::RunInitHooks`].
    ///
    /// # Errors
    /// * [`RequestError::DiffUnavailable`] if the hosted map has recorded no diff.
    /// * [`RequestError::EncodeError`] if the diff cannot be encoded.
    /// * [`RequestError::DecodeError`] if the initial entries cannot be decoded; the
    ///   initialisation is then no longer under way.
    pub fn process_request(&mut self, request: TcpStateServerRequest) -> (r: Result<
        ServerStep,
        RequestError,
    >)
        requires
            old(self).wf(),
        ensures
            final(self).wf(),
            processes(old(self)@, request, final(self)@, r),
    {
        match request {
            TcpStateServerRequest::GetUpdateId { hash } => match self.find_hosted(&hash) {
                Some(i) => Ok(
                    ServerStep::Respond(
                        TcpStateServerResponse::UpdateId { update_id: self.maps[i].get_update_id() },
                    ),
                ),
                None => Ok(ServerStep::Respond(TcpStateServerResponse::HashNotFound)),
            },
            TcpStateServerRequest::Event { hash, evt_data } => match self.find_hosted(&hash) {
                Some(_) => Ok(ServerStep::DispatchEvent { hash, evt_data }),
                None => Ok(ServerStep::Respond(TcpStateServerResponse::HashNotFound)),
            },
            TcpStateServerRequest::GetDiff { hash, from_update_id, upto_update_id } => {
                match self.find_hosted(&hash) {
                    None => Ok(ServerStep::Respond(TcpStateServerResponse::HashNotFound)),
                    Some(i) => {
                        if !self.maps[i].can_serve_diff() {
                            return Err(RequestError::DiffUnavailable);
                        }
                        let diff = self.maps[i].get_diff(from_update_id, upto_update_id);
                        let r = match encode_entries(diff.get_diff()) {
                            Ok(b) => Ok(
                                ServerStep::Respond(
                                    TcpStateServerResponse::Diff {
                                        from_update_id: diff.from_update_id(),
                                        upto_update_id: diff.upto_update_id(),
                                        is_full: diff.is_full_update(),
                                        encoded_diff: b,
                                    },
                                ),
                            ),
                            Err(e) => Err(RequestError::EncodeError(e)),
                        };
                        assert(serves_encoded(diff@, r));
                        r
                    },
                }
            },
            TcpStateServerRequest::Init { hash, init_data } => {
                if self.find_hosted(&hash).is_some() {
                    return Ok(ServerStep::Respond(TcpStateServerResponse::InitSuccess));
                }
                if self.find_processing(&hash).is_some() {
                    proof {
                        let i = choose|i: int| 0 <= i < self.processing@.len() && self.processing@[i]@ == hash@;
                        assert(hashes_view(self.processing@)[i] == hash@);
                        assert(hashes_view(self.processing@).contains(hash@));
                    }
                    return Ok(ServerStep::Respond(TcpStateServerResponse::InitSuccess));
                }
                let ghost old_v = self@;
                self.mark_processing(hash);
                let es = match decode_entries(init_data.as_slice()) {
                    Ok(es) => es,
                    Err(e) => {
                        self.unmark_processing(&hash);
                        assert(self@.processing =~= old_v.processing);
                        return Err(RequestError::DecodeError(e));
                    },
                };
                let m = build_master(&es);
                proof {
                    lemma_initial_master_digest(m@, entries_view(es@));
                }
                let same = match m.hash() {
                    Some(h) => bytes_equal(h.as_slice(), hash.as_slice()),
                    None => false,
                };
                if same {
                    Ok(ServerStep::RunInitHooks { hash, statemap: m })
                } else {
                    self.unmark_processing(&hash);
                    assert(self@.processing =~= old_v.processing);
                    Ok(ServerStep::Respond(TcpStateServerResponse::HashMismatch))
                }
            },
        }
    }

}

} // verus!
