//! The data tree and the session bookkeeping that goes with it.

use vstd::prelude::*;
use crate::assoc::{
    assoc_map, has_key, keys_unique, lemma_assoc_empty, lemma_assoc_index, lemma_assoc_push,
    lemma_assoc_remove, lemma_assoc_update, lemma_map_values_insert, lemma_map_values_remove,
};
use vstd::string::*;
use crate::protocol::{zero_stat, SessionId, Stat};
use crate::text::{
    decimal, decimal_padded, digit_char, last_index_of, lemma_last_index_of, push_decimal_padded,
    rsplit_once_spec, str_rsplit_once, string_push,
};
use crate::watch_state::{Registration, WatchState};
use crate::znode::{
    children_sorted, choose_split, count_before, lemma_count_before_prefix, lemma_remove_value,
    lemma_remove_value_at, lemma_sorted_insert, remove_value, sorted_insert, Node, NodeView,
};
use crate::session_expiry_queue::{bucket_fits, expiry_bucket, fits_bucket, SessionExpiryQueue};
use crate::text::str_eq;

verus! {

// ---------------------------------------------------------------------
// Sessions
// ---------------------------------------------------------------------

/// The paths of a list, as a set of texts.
pub open spec fn path_set(ps: Seq<String>) -> Set<Seq<char>> {
    Set::new(|p: Seq<char>| exists|i: int| 0 <= i < ps.len() && (#[trigger] ps[i])@ == p)
}

/// No path occurs twice in the list.
pub open spec fn paths_distinct(ps: Seq<String>) -> bool {
    forall|i: int, j: int| 0 <= i < j < ps.len() ==> (#[trigger] ps[i])@ != (#[trigger] ps[j])@
}

/// The ephemeral paths after `id` is recorded to own `path`.
pub open spec fn with_ephemeral(
    m: Map<SessionId, Set<Seq<char>>>,
    id: SessionId,
    path: Seq<char>,
) -> Map<SessionId, Set<Seq<char>>> {
    m.insert(
        id,
        if m.contains_key(id) {
            m[id].insert(path)
        } else {
            Set::empty().insert(path)
        },
    )
}

/// The ephemeral paths after `id` no longer owns `path`; a session left
/// owning none is dropped.
pub open spec fn without_ephemeral(
    m: Map<SessionId, Set<Seq<char>>>,
    id: SessionId,
    path: Seq<char>,
) -> Map<SessionId, Set<Seq<char>>> {
    if m.contains_key(id) {
        if m[id].remove(path).is_empty() {
            m.remove(id)
        } else {
            m.insert(id, m[id].remove(path))
        }
    } else {
        m
    }
}

/// Whether every session's deadline from `now` stays within `i64`.
pub open spec fn all_fit(sessions: Map<SessionId, i64>, now: i64, interval: i64) -> bool {
    forall|id: SessionId| #[trigger] sessions.contains_key(id) ==> bucket_fits(now, sessions[id], interval)
}

/// The expiry buckets after every session is refreshed at `now`; other
/// entries stay.
pub open spec fn refreshed_expiry(
    sessions: Map<SessionId, i64>,
    expiry: Map<SessionId, i64>,
    now: i64,
    interval: i64,
) -> Map<SessionId, i64> {
    Map::new(
        |id: SessionId| sessions.contains_key(id) || expiry.contains_key(id),
        |id: SessionId|
            if sessions.contains_key(id) {
                expiry_bucket(now as int, sessions[id] as int, interval as int) as i64
            } else {
                expiry[id]
            },
    )
}

/// Every client that connects gets a session. The session is how the server
/// tracks that a client is alive; when it ends, the ephemeral nodes it
/// created are deleted. This keeps, for each session, its timeout, the
/// ephemeral paths it owns and its expiry bucket, and the next id to hand out.
pub struct SessionState {
    session_and_timeout: Vec<(SessionId, i64)>,
    ephemerals: Vec<(SessionId, Vec<String>)>,
    next_session_id: i64,
    expiry_queue: SessionExpiryQueue,
}

impl SessionState {
    /// Each live session's timeout in milliseconds.
    pub closed spec fn sessions(&self) -> Map<SessionId, i64> {
        assoc_map(self.session_and_timeout@)
    }

    /// The ephemeral paths each session owns (only sessions owning some).
    pub closed spec fn ephemerals(&self) -> Map<SessionId, Set<Seq<char>>> {
        assoc_map(self.ephemerals@).map_values(|ps: Vec<String>| path_set(ps@))
    }

    /// The id the next new session gets.
    pub closed spec fn next_id(&self) -> i64 {
        self.next_session_id
    }

    /// Each tracked session's expiry bucket.
    pub closed spec fn expiry(&self) -> Map<SessionId, i64> {
        self.expiry_queue.expiry()
    }

    /// The width of the expiry buckets.
    pub closed spec fn interval(&self) -> i64 {
        self.expiry_queue.interval()
    }

    /// The internal invariant.
    pub closed spec fn wf(&self) -> bool {
        &&& keys_unique(self.session_and_timeout@)
        &&& keys_unique(self.ephemerals@)
        &&& forall|i: int|
            0 <= i < self.ephemerals@.len() ==> (#[trigger] self.ephemerals@[i]).1@.len() > 0
                && paths_distinct(self.ephemerals@[i].1@)
        &&& self.expiry_queue.wf()
    }

    /// No sessions yet; ids start at 1.
    pub fn new(interval_ms: i64) -> (r: Self)
        ensures
            r.wf(),
            r.sessions() == Map::<SessionId, i64>::empty(),
            r.ephemerals() == Map::<SessionId, Set<Seq<char>>>::empty(),
            r.expiry() == Map::<SessionId, i64>::empty(),
            r.next_id() == 1,
            r.interval() == interval_ms,
    {
        proof {
            lemma_assoc_empty::<SessionId, i64>();
            lemma_assoc_empty::<SessionId, Vec<String>>();
        }
        let r = Self {
            session_and_timeout: Vec::new(),
            ephemerals: Vec::new(),
            next_session_id: 1,
            expiry_queue: SessionExpiryQueue::new(interval_ms),
        };
        assert(r.ephemerals() =~= Map::<SessionId, Set<Seq<char>>>::empty());
        r
    }

    fn find_session(&self, id: SessionId) -> (r: Option<usize>)
        ensures
            match r {
                Some(i) => i < self.session_and_timeout@.len() && self.session_and_timeout@[i as int].0 == id,
                None => !has_key(self.session_and_timeout@, id),
            },
    {
        let n = self.session_and_timeout.len();
        for i in 0..n
            invariant
                n == self.session_and_timeout@.len(),
                forall|j: int| 0 <= j < i ==> self.session_and_timeout@[j].0 != id,
        {
            if self.session_and_timeout[i].0 == id {
                return Some(i);
            }
        }
        None
    }

    fn find_owner(&self, id: SessionId) -> (r: Option<usize>)
        ensures
            match r {
                Some(i) => i < self.ephemerals@.len() && self.ephemerals@[i as int].0 == id,
                None => !has_key(self.ephemerals@, id),
            },
    {
        let n = self.ephemerals.len();
        for i in 0..n
            invariant
                n == self.ephemerals@.len(),
                forall|j: int| 0 <= j < i ==> self.ephemerals@[j].0 != id,
        {
            if self.ephemerals[i].0 == id {
                return Some(i);
            }
        }
        None
    }

    /// Records `timeout_ms` for `id`.
    fn set_timeout(&mut self, id: SessionId, timeout_ms: i64)
        requires
            old(self).wf(),
        ensures
            final(self).wf(),
            final(self).sessions() == old(self).sessions().insert(id, timeout_ms),
            final(self).ephemerals() == old(self).ephemerals(),
            final(self).expiry() == old(self).expiry(),
            final(self).interval() == old(self).interval(),
            final(self).next_id() == old(self).next_id(),
    {
        match self.find_session(id) {
            Some(i) => {
                proof {
                    lemma_assoc_update(self.session_and_timeout@, i as int, timeout_ms);
                }
                self.session_and_timeout.set(i, (id, timeout_ms));
            },
            None => {
                proof {
                    lemma_assoc_push(self.session_and_timeout@, id, timeout_ms);
                }
                self.session_and_timeout.push((id, timeout_ms));
            },
        }
    }

    /// Starts a session with the given timeout at time `now`: it gets the next
    /// id, its timeout is recorded, and its expiry bucket is set.
    pub fn create_session(&mut self, timeout_ms: i64, now: i64) -> (id: SessionId)
        requires
            old(self).wf(),
            old(self).next_id() < i64::MAX,
            old(self).interval() > 0,
            bucket_fits(now, timeout_ms, old(self).interval()),
        ensures
            final(self).wf(),
            id == SessionId(old(self).next_id()),
            final(self).next_id() == old(self).next_id() + 1,
            final(self).sessions() == old(self).sessions().insert(id, timeout_ms),
            final(self).expiry() == old(self).expiry().insert(
                id,
                expiry_bucket(now as int, timeout_ms as int, old(self).interval() as int) as i64,
            ),
            final(self).ephemerals() == old(self).ephemerals(),
            final(self).interval() == old(self).interval(),
    {
        let id = SessionId(self.next_session_id);
        self.next_session_id = self.next_session_id + 1;
        self.set_timeout(id, timeout_ms);
        self.expiry_queue.touch(id, timeout_ms, now);
        id
    }

    /// Records a session read back from the log: its timeout, and ids after it
    /// are the only ones handed out from now on (as far as `i64` reaches).
    pub fn restore_session(&mut self, id: SessionId, timeout_ms: i64)
        requires
            old(self).wf(),
        ensures
            final(self).wf(),
            final(self).sessions() == old(self).sessions().insert(id, timeout_ms),
            final(self).next_id() == if old(self).next_id() <= id.0 {
                if id.0 < i64::MAX {
                    id.0 + 1
                } else {
                    i64::MAX as int
                }
            } else {
                old(self).next_id() as int
            },
            final(self).ephemerals() == old(self).ephemerals(),
            final(self).expiry() == old(self).expiry(),
            final(self).interval() == old(self).interval(),
    {
        self.set_timeout(id, timeout_ms);
        if self.next_session_id <= id.0 {
            self.next_session_id = if id.0 < i64::MAX {
                id.0 + 1
            } else {
                i64::MAX
            };
        }
    }

    /// The id the next new session gets.
    pub fn next_session_id(&self) -> (r: i64)
        ensures
            r == self.next_id(),
    {
        self.next_session_id
    }

    /// The width of the expiry buckets.
    pub fn interval_ms(&self) -> (r: i64)
        ensures
            r == self.interval(),
    {
        self.expiry_queue.interval_ms()
    }

    /// Whether `touch_session(id, now)` can compute the new deadline within
    /// `i64`.
    pub fn can_touch(&self, id: SessionId, now: i64) -> (r: bool)
        requires
            self.wf(),
        ensures
            r == (self.sessions().contains_key(id) ==> bucket_fits(now, self.sessions()[id], self.interval())),
    {
        match self.find_session(id) {
            Some(i) => {
                proof {
                    lemma_assoc_index(self.session_and_timeout@, i as int);
                }
                fits_bucket(now, self.session_and_timeout[i].1, self.expiry_queue.interval_ms())
            },
            None => true,
        }
    }

    /// Refreshes a live session's expiry bucket; an unknown id is ignored.
    pub fn touch_session(&mut self, id: SessionId, now: i64)
        requires
            old(self).wf(),
            old(self).interval() > 0,
            old(self).sessions().contains_key(id) ==> bucket_fits(
                now,
                old(self).sessions()[id],
                old(self).interval(),
            ),
        ensures
            final(self).wf(),
            old(self).sessions().contains_key(id) ==> final(self).expiry() == old(self).expiry().insert(
                id,
                expiry_bucket(
                    now as int,
                    old(self).sessions()[id] as int,
                    old(self).interval() as int,
                ) as i64,
            ),
            !old(self).sessions().contains_key(id) ==> final(self).expiry() == old(self).expiry(),
            final(self).sessions() == old(self).sessions(),
            final(self).ephemerals() == old(self).ephemerals(),
            final(self).next_id() == old(self).next_id(),
            final(self).interval() == old(self).interval(),
    {
        match self.find_session(id) {
            Some(i) => {
                proof {
                    lemma_assoc_index(self.session_and_timeout@, i as int);
                }
                let timeout_ms = self.session_and_timeout[i].1;
                self.expiry_queue.touch(id, timeout_ms, now);
            },
            None => {},
        }
    }

    /// Whether every session's deadline from `now` stays within `i64`, so
    /// that `touch_all(now)` can be called.
    pub fn touch_all_fits(&self, now: i64) -> (r: bool)
        requires
            self.wf(),
        ensures
            r == (self.interval() > 0 && all_fit(self.sessions(), now, self.interval())),
    {
        let interval = self.expiry_queue.interval_ms();
        if interval <= 0 {
            return false;
        }
        let n = self.session_and_timeout.len();
        for i in 0..n
            invariant
                n == self.session_and_timeout@.len(),
                keys_unique(self.session_and_timeout@),
                interval == self.interval(),
                forall|j: int| 0 <= j < i ==> bucket_fits(now, (#[trigger] self.session_and_timeout@[j]).1, interval),
        {
            if !fits_bucket(now, self.session_and_timeout[i].1, interval) {
                proof {
                    lemma_assoc_index(self.session_and_timeout@, i as int);
                }
                return false;
            }
        }
        assert forall|id: SessionId| #[trigger] self.sessions().contains_key(id) implies bucket_fits(
            now,
            self.sessions()[id],
            interval,
        ) by {
            let j = choose|j: int| 0 <= j < self.session_and_timeout@.len() && #[trigger] self.session_and_timeout@[j].0 == id;
            lemma_assoc_index(self.session_and_timeout@, j);
        }
        true
    }

    /// Gives every session a fresh expiry bucket counted from `now`, as when
    /// the server starts again after reading its log (which records no
    /// deadlines).
    pub fn touch_all(&mut self, now: i64)
        requires
            old(self).wf(),
            old(self).interval() > 0,
            all_fit(old(self).sessions(), now, old(self).interval()),
        ensures
            final(self).wf(),
            final(self).expiry() == refreshed_expiry(old(self).sessions(), old(self).expiry(), now, old(self).interval()),
            final(self).sessions() == old(self).sessions(),
            final(self).ephemerals() == old(self).ephemerals(),
            final(self).next_id() == old(self).next_id(),
            final(self).interval() == old(self).interval(),
    {
        let ghost s = self.session_and_timeout@;
        let ghost e0 = self.expiry();
        let ghost iv = self.interval();
        let n = self.session_and_timeout.len();
        for i in 0..n
            invariant
                n == s.len(),
                s == self.session_and_timeout@,
                keys_unique(s),
                self.wf(),
                self.ephemerals@ == old(self).ephemerals@,
                self.next_session_id == old(self).next_session_id,
                self.interval() == iv,
                iv > 0,
                all_fit(assoc_map(s), now, iv),
                forall|id: SessionId| #[trigger] self.expiry().contains_key(id) == (e0.contains_key(id) || has_key(s.take(i as int), id)),
                forall|id: SessionId|
                    #[trigger] self.expiry().contains_key(id) ==> self.expiry()[id] == if has_key(s.take(i as int), id) {
                        expiry_bucket(now as int, assoc_map(s)[id] as int, iv as int) as i64
                    } else {
                        e0[id]
                    },
        {
            let id = self.session_and_timeout[i].0;
            let timeout_ms = self.session_and_timeout[i].1;
            proof {
                lemma_assoc_index(s, i as int);
            }
            let ghost before = self.expiry();
            self.expiry_queue.touch(id, timeout_ms, now);
            proof {
                assert forall|k: SessionId| has_key(s.take(i + 1), k) == (has_key(s.take(i as int), k) || k == id) by {
                    if has_key(s.take(i + 1), k) {
                        let j = choose|j: int| 0 <= j < s.take(i + 1).len() && #[trigger] s.take(i + 1)[j].0 == k;
                        if j < i {
                            assert(s.take(i as int)[j].0 == k);
                        }
                    }
                    if has_key(s.take(i as int), k) {
                        let j = choose|j: int| 0 <= j < s.take(i as int).len() && #[trigger] s.take(i as int)[j].0 == k;
                        assert(s.take(i + 1)[j].0 == k);
                    }
                    if k == id {
                        assert(s.take(i + 1)[i as int].0 == k);
                    }
                }
                assert(self.expiry() == before.insert(id, expiry_bucket(now as int, timeout_ms as int, iv as int) as i64));
                assert forall|k: SessionId| #[trigger] self.expiry().contains_key(k) == (e0.contains_key(k) || has_key(s.take(i + 1), k)) by {
                    assert(before.contains_key(k) == (e0.contains_key(k) || has_key(s.take(i as int), k)));
                }
                assert forall|k: SessionId|
                    #[trigger] self.expiry().contains_key(k) implies self.expiry()[k] == if has_key(s.take(i + 1), k) {
                        expiry_bucket(now as int, assoc_map(s)[k] as int, iv as int) as i64
                    } else {
                        e0[k]
                    } by {
                    assert(has_key(s.take(i + 1), k) == (has_key(s.take(i as int), k) || k == id));
                    if k != id {
                        assert(before.contains_key(k));
                        assert(self.expiry()[k] == before[k]);
                    } else {
                        assert(assoc_map(s)[k] == timeout_ms);
                    }
                }
            }
        }
        proof {
            assert(s.take(n as int) =~= s);
            assert(self.expiry() =~= refreshed_expiry(assoc_map(s), e0, now, iv));
        }
    }

    /// Records that `id` owns the ephemeral node at `path`.
    pub fn add_ephemeral(&mut self, id: SessionId, path: String)
        requires
            old(self).wf(),
        ensures
            final(self).wf(),
            final(self).ephemerals() == with_ephemeral(old(self).ephemerals(), id, path@),
            final(self).sessions() == old(self).sessions(),
            final(self).expiry() == old(self).expiry(),
            final(self).next_id() == old(self).next_id(),
            final(self).interval() == old(self).interval(),
    {
        match self.find_owner(id) {
            Some(i) => {
                proof {
                    lemma_assoc_index(self.ephemerals@, i as int);
                }
                let mut paths = Vec::new();
                std::mem::swap(&mut paths, &mut self.ephemerals[i].1);
                let ghost before = paths@;
                assert(before == old(self).ephemerals@[i as int].1@);
                let mut present = false;
                for j in 0..paths.len()
                    invariant
                        paths@ == before,
                        present ==> path_set(before).contains(path@),
                        !present ==> forall|k: int| 0 <= k < j ==> before[k]@ != path@,
                {
                    if str_eq(paths[j].as_str(), path.as_str()) {
                        assert(before[j as int]@ == path@);
                        present = true;
                    }
                }
                let ghost pv = path@;
                if !present {
                    paths.push(path);
                    proof {
                        lemma_push_path(before, paths@);
                    }
                } else {
                    assert(path_set(before).insert(pv) =~= path_set(before));
                }
                let ghost mid = old(self).ephemerals@;
                self.ephemerals.set(i, (id, paths));
                proof {
                    assert(self.ephemerals@ == mid.update(i as int, (id, paths)));
                    lemma_assoc_update(mid, i as int, paths);
                    assert(self.ephemerals() =~= old(self).ephemerals().insert(
                        id,
                        old(self).ephemerals()[id].insert(pv),
                    ));
                }
            },
            None => {
                let mut paths = Vec::new();
                let ghost pv = path@;
                paths.push(path);
                proof {
                    lemma_assoc_push(self.ephemerals@, id, paths);
                    assert(paths@[0]@ == pv);
                    assert(path_set(paths@) =~= Set::empty().insert(pv));
                }
                self.ephemerals.push((id, paths));
                proof {
                    assert(self.ephemerals() =~= old(self).ephemerals().insert(
                        id,
                        Set::empty().insert(pv),
                    ));
                }
            },
        }
    }
}

impl SessionState {
    /// Forgets that `id` owns `path`; a session left owning nothing is
    /// dropped from the ownership table.
    pub fn remove_ephemeral(&mut self, id: SessionId, path: &str)
        requires
            old(self).wf(),
        ensures
            final(self).wf(),
            final(self).ephemerals() == without_ephemeral(old(self).ephemerals(), id, path@),
            final(self).sessions() == old(self).sessions(),
            final(self).expiry() == old(self).expiry(),
            final(self).next_id() == old(self).next_id(),
            final(self).interval() == old(self).interval(),
    {
        match self.find_owner(id) {
            Some(i) => {
                proof {
                    lemma_assoc_index(self.ephemerals@, i as int);
                }
                let mut paths = Vec::new();
                std::mem::swap(&mut paths, &mut self.ephemerals[i].1);
                let ghost before = paths@;
                let ghost mid = old(self).ephemerals@;
                assert(before == mid[i as int].1@);
                let n = paths.len();
                let mut found: Option<usize> = None;
                for j in 0..n
                    invariant
                        n == before.len(),
                        paths@ == before,
                        found matches Some(k) ==> k < n && before[k as int]@ == path@,
                        found is None ==> forall|k: int| 0 <= k < j ==> before[k]@ != path@,
                {
                    if found.is_none() && str_eq(paths[j].as_str(), path) {
                        found = Some(j);
                    }
                }
                let ghost set_before = path_set(before);
                match found {
                    Some(k) => {
                        paths.remove(k);
                        proof {
                            lemma_remove_path(before, k as int);
                        }
                    },
                    None => {
                        assert(set_before.remove(path@) =~= set_before);
                    },
                }
                assert(path_set(paths@) == set_before.remove(path@) && paths_distinct(paths@));
                proof {
                    lemma_assoc_index(mid, i as int);
                    assert(old(self).ephemerals()[id] == set_before);
                }
                if paths.len() == 0 {
                    proof {
                        assert(path_set(paths@) =~= Set::<Seq<char>>::empty());
                        assert(set_before.remove(path@).is_empty());
                    }
                    self.ephemerals.remove(i);
                    proof {
                        assert(self.ephemerals@ =~= mid.remove(i as int));
                        lemma_assoc_remove(mid, i as int);
                        lemma_map_values_remove(assoc_map(mid), id, |ps: Vec<String>| path_set(ps@));
                        assert(self.ephemerals() == old(self).ephemerals().remove(id));
                        assert forall|k: int| 0 <= k < self.ephemerals@.len() implies (#[trigger] self.ephemerals@[k]).1@.len() > 0
                            && paths_distinct(self.ephemerals@[k].1@) by {
                            let k2 = if k < i { k } else { k + 1 };
                            assert(self.ephemerals@[k] == mid[k2]);
                        }
                    }
                } else {
                    proof {
                        assert(path_set(paths@).contains(paths@[0]@));
                        assert(!set_before.remove(path@).is_empty());
                    }
                    let ghost pv = paths;
                    self.ephemerals.set(i, (id, paths));
                    proof {
                        assert(self.ephemerals@ == mid.update(i as int, (id, pv)));
                        lemma_assoc_update(mid, i as int, pv);
                        lemma_map_values_insert(assoc_map(mid), id, pv, |ps: Vec<String>| path_set(ps@));
                        assert(self.ephemerals() == old(self).ephemerals().insert(id, set_before.remove(path@)));
                    }
                }
            },
            None => {},
        }
    }

    /// Ends a session: forgets its timeout and expiry, and returns the
    /// ephemeral paths it owned so that the caller can delete those nodes.
    pub fn close_session(&mut self, id: SessionId) -> (r: Vec<String>)
        requires
            old(self).wf(),
        ensures
            final(self).wf(),
            paths_distinct(r@),
            path_set(r@) == if old(self).ephemerals().contains_key(id) {
                old(self).ephemerals()[id]
            } else {
                Set::empty()
            },
            final(self).sessions() == old(self).sessions().remove(id),
            final(self).expiry() == old(self).expiry().remove(id),
            final(self).ephemerals() == old(self).ephemerals().remove(id),
            final(self).next_id() == old(self).next_id(),
            final(self).interval() == old(self).interval(),
    {
        match self.find_session(id) {
            Some(i) => {
                proof {
                    lemma_assoc_remove(self.session_and_timeout@, i as int);
                }
                self.session_and_timeout.remove(i);
            },
            None => {
                assert(old(self).sessions().remove(id) =~= old(self).sessions());
            },
        }
        self.expiry_queue.remove(id);
        match self.find_owner(id) {
            Some(i) => {
                let ghost mid = self.ephemerals@;
                proof {
                    lemma_assoc_index(mid, i as int);
                    lemma_assoc_remove(mid, i as int);
                }
                let (_, paths) = self.ephemerals.remove(i);
                proof {
                    assert forall|k: int| 0 <= k < self.ephemerals@.len() implies (#[trigger] self.ephemerals@[k]).1@.len() > 0
                        && paths_distinct(self.ephemerals@[k].1@) by {
                        let k2 = if k < i { k } else { k + 1 };
                        assert(self.ephemerals@[k] == mid[k2]);
                    }
                    assert(self.ephemerals() =~= old(self).ephemerals().remove(id));
                }
                paths
            },
            None => {
                proof {
                    assert(self.ephemerals() =~= old(self).ephemerals().remove(id));
                }
                let r: Vec<String> = Vec::new();
                assert(path_set(r@) =~= Set::<Seq<char>>::empty());
                r
            },
        }
    }

    /// The sessions whose expiry bucket is at or before `now`, earliest first.
    pub fn get_expired(&self, now: i64) -> (r: Vec<SessionId>)
        requires
            self.wf(),
        ensures
            r@.no_duplicates(),
            forall|id: SessionId|
                r@.contains(id) <==> (self.expiry().contains_key(id) && self.expiry()[id] <= now),
            forall|i: int, j: int|
                0 <= i < j < r@.len() ==> self.expiry()[#[trigger] r@[i]] <= self.expiry()[#[trigger] r@[j]],
    {
        self.expiry_queue.get_expired(now)
    }

    /// Whether `id` is a live session.
    pub fn is_alive(&self, id: SessionId) -> (r: bool)
        requires
            self.wf(),
        ensures
            r == self.sessions().contains_key(id),
    {
        match self.find_session(id) {
            Some(i) => {
                proof {
                    lemma_assoc_index(self.session_and_timeout@, i as int);
                }
                true
            },
            None => false,
        }
    }

    /// A copy of the session state.
    pub fn duplicate(&self) -> (r: Self)
        requires
            self.wf(),
        ensures
            r.wf(),
            r.sessions() == self.sessions(),
            r.ephemerals() == self.ephemerals(),
            r.expiry() == self.expiry(),
            r.next_id() == self.next_id(),
            r.interval() == self.interval(),
    {
        let mut timeouts: Vec<(SessionId, i64)> = Vec::new();
        for i in 0..self.session_and_timeout.len()
            invariant
                timeouts@ == self.session_and_timeout@.subrange(0, i as int),
        {
            let e = self.session_and_timeout[i];
            timeouts.push(e);
            assert(self.session_and_timeout@.subrange(0, i + 1) =~= self.session_and_timeout@.subrange(
                0,
                i as int,
            ).push(e));
        }
        assert(self.session_and_timeout@.subrange(0, self.session_and_timeout@.len() as int)
            =~= self.session_and_timeout@);
        let mut owners: Vec<(SessionId, Vec<String>)> = Vec::new();
        let n = self.ephemerals.len();
        for i in 0..n
            invariant
                n == self.ephemerals@.len(),
                owners@.len() == i,
                forall|k: int|
                    0 <= k < i ==> (#[trigger] owners@[k]).0 == self.ephemerals@[k].0
                        && owners@[k].1@ == self.ephemerals@[k].1@,
        {
            let id = self.ephemerals[i].0;
            let src = &self.ephemerals[i].1;
            let mut copy: Vec<String> = Vec::new();
            for j in 0..src.len()
                invariant
                    copy@ == src@.subrange(0, j as int),
            {
                let p = src[j].clone();
                copy.push(p);
                assert(src@.subrange(0, j + 1) =~= src@.subrange(0, j as int).push(src@[j as int]));
            }
            assert(src@.subrange(0, src@.len() as int) =~= src@);
            owners.push((id, copy));
        }
        let r = Self {
            session_and_timeout: timeouts,
            ephemerals: owners,
            next_session_id: self.next_session_id,
            expiry_queue: self.expiry_queue.duplicate(),
        };
        proof {
            assert forall|a: int, b: int| 0 <= a < b < r.ephemerals@.len() implies #[trigger] r.ephemerals@[a].0
                != #[trigger] r.ephemerals@[b].0 by {
                assert(r.ephemerals@[a].0 == self.ephemerals@[a].0);
                assert(r.ephemerals@[b].0 == self.ephemerals@[b].0);
            }
            assert forall|k: int| 0 <= k < r.ephemerals@.len() implies (#[trigger] r.ephemerals@[k]).1@.len() > 0
                && paths_distinct(r.ephemerals@[k].1@) by {
                assert(r.ephemerals@[k].1@ == self.ephemerals@[k].1@);
            }
            assert forall|x: SessionId| #[trigger] assoc_map(r.ephemerals@).contains_key(x) == assoc_map(self.ephemerals@).contains_key(x) by {
                if has_key(r.ephemerals@, x) {
                    let k = choose|k: int| 0 <= k < r.ephemerals@.len() && #[trigger] r.ephemerals@[k].0 == x;
                    assert(self.ephemerals@[k].0 == x);
                }
                if has_key(self.ephemerals@, x) {
                    let k = choose|k: int| 0 <= k < self.ephemerals@.len() && #[trigger] self.ephemerals@[k].0 == x;
                    assert(r.ephemerals@[k].0 == x);
                }
            }
            assert forall|x: SessionId| #[trigger] r.ephemerals().contains_key(x) implies r.ephemerals()[x] == self.ephemerals()[x] by {
                let k = choose|k: int| 0 <= k < r.ephemerals@.len() && #[trigger] r.ephemerals@[k].0 == x;
                lemma_assoc_index(r.ephemerals@, k);
                lemma_assoc_index(self.ephemerals@, k);
            }
            assert(r.ephemerals() =~= self.ephemerals());
        }
        r
    }
}

/// Removing a path from a list of distinct paths removes it from their set.
proof fn lemma_remove_path(before: Seq<String>, k: int)
    requires
        paths_distinct(before),
        0 <= k < before.len(),
    ensures
        path_set(before.remove(k)) == path_set(before).remove(before[k]@),
        paths_distinct(before.remove(k)),
{
    let after = before.remove(k);
    assert forall|p: Seq<char>| #[trigger] path_set(after).contains(p) == path_set(before).remove(
        before[k]@,
    ).contains(p) by {
        if path_set(after).contains(p) {
            let i = choose|i: int| 0 <= i < after.len() && (#[trigger] after[i])@ == p;
            let i2 = if i < k { i } else { i + 1 };
            assert(after[i] == before[i2]);
        }
        if path_set(before).contains(p) && p != before[k]@ {
            let i = choose|i: int| 0 <= i < before.len() && (#[trigger] before[i])@ == p;
            if i < k {
                assert(after[i]@ == p);
            } else {
                assert(after[i - 1]@ == p);
            }
        }
    }
    assert(path_set(after) =~= path_set(before).remove(before[k]@));
    assert forall|a: int, b: int| 0 <= a < b < after.len() implies (#[trigger] after[a])@ != (#[trigger] after[b])@ by {
        let a2 = if a < k { a } else { a + 1 };
        let b2 = if b < k { b } else { b + 1 };
        assert(after[a] == before[a2] && after[b] == before[b2]);
    }
}

/// Appending a new path to a list of distinct paths adds it to their set
/// and keeps them distinct.
proof fn lemma_push_path(before: Seq<String>, after: Seq<String>)
    requires
        after.len() == before.len() + 1,
        forall|k: int| 0 <= k < before.len() ==> after[k] == before[k],
        forall|k: int| 0 <= k < before.len() ==> before[k]@ != after.last()@,
    ensures
        path_set(after) == path_set(before).insert(after.last()@),
        paths_distinct(before) ==> paths_distinct(after),
{
    assert forall|p: Seq<char>| #[trigger] path_set(after).contains(p) == path_set(before).insert(
        after.last()@,
    ).contains(p) by {
        if path_set(after).contains(p) {
            let i = choose|i: int| 0 <= i < after.len() && (#[trigger] after[i])@ == p;
            if i < before.len() {
                assert(before[i]@ == p);
            }
        }
        if path_set(before).contains(p) {
            let i = choose|i: int| 0 <= i < before.len() && (#[trigger] before[i])@ == p;
            assert(after[i]@ == p);
        }
        if p == after.last()@ {
            assert(after[after.len() - 1]@ == p);
        }
    }
    assert(path_set(after) =~= path_set(before).insert(after.last()@));
}

// ---------------------------------------------------------------------
// The data tree
// ---------------------------------------------------------------------

/// Why a change to the tree was refused.
#[derive(Debug, Clone, Copy, PartialEq, Eq, Structural)]
pub enum StorageError {
    /// The path has no `/`.
    InvalidPath,
    /// The path names the root, which always exists.
    CreateRoot,
    /// The parent of the path does not exist.
    ParentMissing,
    /// A node already exists at the path.
    NodeExists,
    /// The parent is ephemeral, and ephemeral nodes have no children.
    EphemeralParent,
    /// No node exists at the path.
    NotFound,
    /// The path names the root, which is never deleted.
    DeleteRoot,
    /// The node still has children.
    HasChildren,
}

impl StorageError {
    /// The message that describes the error.
    pub fn message(&self) -> (r: &'static str)
        ensures
            r@ == error_message(*self)@,
    {
        match self {
            StorageError::InvalidPath => "Invalid path format",
            StorageError::CreateRoot => "Cannot create root node",
            StorageError::ParentMissing => "Parent node does not exist",
            StorageError::NodeExists => "Node already exists",
            StorageError::EphemeralParent => "Cannot create child under ephemeral node",
            StorageError::NotFound => "Node not found",
            StorageError::DeleteRoot => "Cannot delete root node",
            StorageError::HasChildren => "Node has children",
        }
    }
}

/// The message of each error.
pub open spec fn error_message(e: StorageError) -> &'static str {
    match e {
        StorageError::InvalidPath => "Invalid path format",
        StorageError::CreateRoot => "Cannot create root node",
        StorageError::ParentMissing => "Parent node does not exist",
        StorageError::NodeExists => "Node already exists",
        StorageError::EphemeralParent => "Cannot create child under ephemeral node",
        StorageError::NotFound => "Node not found",
        StorageError::DeleteRoot => "Cannot delete root node",
        StorageError::HasChildren => "Node has children",
    }
}

/// The path of the root node.
pub open spec fn root_path() -> Seq<char> {
    seq!['/']
}

/// A path split into its parent's path and its own name: the text before
/// and after the last `/`, where an empty parent is the root.
pub open spec fn split_path(path: Seq<char>) -> Option<(Seq<char>, Seq<char>)> {
    match rsplit_once_spec(path, '/') {
        Some((p, c)) => Some((if p.len() == 0 { root_path() } else { p }, c)),
        None => None,
    }
}

/// Some node has parent `q` and name `c`.
pub open spec fn has_child_node(nodes: Map<Seq<char>, NodeView>, q: Seq<char>, c: Seq<char>) -> bool {
    exists|k: Seq<char>| nodes.contains_key(k) && #[trigger] split_path(k) == Some((q, c))
}

/// The shape every reachable tree has: the root exists; every other node
/// has a non-empty name and an existing parent, which (unless it is the
/// root) lists that name among its children; every name a node other than
/// the root lists is the name of an existing node under it; and every
/// node's children are in ascending text order. The root is left out of
/// the two listing clauses because `/a` and `//a` both have the root as
/// parent and `a` as name: deleting one drops the name the other shares.
pub open spec fn tree_wf(nodes: Map<Seq<char>, NodeView>) -> bool {
    &&& nodes.contains_key(root_path())
    &&& forall|k: Seq<char>| #[trigger] nodes.contains_key(k) ==> children_sorted(nodes[k].children)
    &&& forall|k: Seq<char>|
        #[trigger] nodes.contains_key(k) && k != root_path() ==> match split_path(k) {
            Some((q, c)) => c.len() > 0 && nodes.contains_key(q) && (q != root_path()
                ==> nodes[q].children.contains(c)),
            None => false,
        }
    &&& forall|q: Seq<char>, c: Seq<char>|
        nodes.contains_key(q) && q != root_path() && #[trigger] nodes[q].children.contains(c)
            ==> has_child_node(nodes, q, c)
}

/// The ephemeral bookkeeping agrees with the tree: the no-session id 0 owns
/// nothing; every path a session owns is a node, not the root, owned by
/// that session; and a node owned by a session has no children.
pub open spec fn ephemerals_consistent(v: KeeperView) -> bool {
    &&& !v.ephemerals.contains_key(SessionId(0))
    &&& forall|sid: SessionId, p: Seq<char>|
        v.ephemerals.contains_key(sid) && #[trigger] v.ephemerals[sid].contains(p) ==> {
            &&& v.nodes.contains_key(p)
            &&& v.nodes[p].stat.ephemeral_owner == sid
            &&& p != root_path()
        }
    &&& forall|k: Seq<char>|
        #[trigger] v.nodes.contains_key(k) && v.nodes[k].stat.ephemeral_owner != SessionId(0)
            ==> v.nodes[k].children.len() == 0
}

/// What every state the server reaches satisfies: the tree has its shape
/// and the ephemeral bookkeeping agrees with it.
pub open spec fn server_inv(v: KeeperView) -> bool {
    tree_wf(v.nodes) && ephemerals_consistent(v)
}

/// The root as it is first made.
pub open spec fn root_node() -> NodeView {
    NodeView { stat: zero_stat(), data: Seq::empty(), children: Seq::empty() }
}

/// The entries of the node table as specification values.
pub open spec fn entry_views(es: Seq<(String, Node)>) -> Seq<(Seq<char>, NodeView)> {
    es.map_values(|e: (String, Node)| (e.0@, e.1@))
}

/// A split path is the parent's text, a `/`, and the name; the parent is
/// shorter than the path when the name is not empty.
pub proof fn lemma_split_path(path: Seq<char>)
    ensures
        split_path(path) matches Some((q, c)) ==> {
            &&& rsplit_once_spec(path, '/') matches Some((p, c2)) && c2 == c && path == p + seq!['/'] + c
                && (p.len() > 0 ==> q == p) && (p.len() == 0 ==> q == root_path())
            &&& (c.len() > 0 ==> q.len() < path.len())
            &&& forall|j: int| 0 <= j < c.len() ==> c[j] != '/'
        },
{
    lemma_last_index_of(path, '/');
    let i = last_index_of(path, '/');
    if i >= 0 {
        let p = path.subrange(0, i);
        let c = path.subrange(i + 1, path.len() as int);
        assert(path =~= p + seq!['/'] + c);
        assert forall|j: int| 0 <= j < c.len() implies c[j] != '/' by {
            assert(c[j] == path[i + 1 + j]);
        }
    }
}

/// Two paths with the same parent, other than the root, and the same name
/// are the same path.
proof fn lemma_split_unique(a: Seq<char>, b: Seq<char>)
    requires
        split_path(a) is Some,
        split_path(a) == split_path(b),
        split_path(a) matches Some((q, _)) && q != root_path(),
    ensures
        a == b,
{
    lemma_split_path(a);
    lemma_split_path(b);
}

/// A counter after one more step, wrapping from the largest value to the
/// smallest.
pub open spec fn bump(v: i32) -> i32 {
    if v == i32::MAX {
        i32::MIN
    } else {
        (v + 1) as i32
    }
}

/// What a sequential node's name gets appended: the parent's counter,
/// zero-padded to ten characters (a sign counts as one of them).
pub open spec fn sequence_suffix(counter: i32) -> Seq<char> {
    if counter >= 0 {
        decimal_padded(counter as nat, 10)
    } else {
        seq!['-'] + decimal_padded((-counter) as nat, 9)
    }
}

/// The owner a node created with `flags` gets: the session when the
/// ephemeral bit is set, else no session.
pub open spec fn owner_for(flags: i32, session_id: SessionId) -> SessionId {
    if flags & 1 != 0 {
        session_id
    } else {
        SessionId(0)
    }
}

/// Where a create of `path` with `flags` puts the node — its full path,
/// its parent's path and its name — or why it is refused, checked in this
/// order: no `/`, the root, a missing parent, a taken path, an ephemeral
/// parent. With the sequential bit the name gets the parent's counter.
pub open spec fn create_target(
    nodes: Map<Seq<char>, NodeView>,
    path: Seq<char>,
    flags: i32,
) -> Result<(Seq<char>, Seq<char>, Seq<char>), StorageError> {
    match split_path(path) {
        None => Err(StorageError::InvalidPath),
        Some((q, c)) => if c.len() == 0 {
            Err(StorageError::CreateRoot)
        } else if !nodes.contains_key(q) {
            Err(StorageError::ParentMissing)
        } else {
            let suffix = if flags & 2 != 0 {
                sequence_suffix(nodes[q].stat.cversion)
            } else {
                Seq::empty()
            };
            if nodes.contains_key(path + suffix) {
                Err(StorageError::NodeExists)
            } else if nodes[q].stat.ephemeral_owner != SessionId(0) {
                Err(StorageError::EphemeralParent)
            } else {
                Ok((path + suffix, q, c + suffix))
            }
        },
    }
}

/// A node as it is created.
pub open spec fn fresh_node(zxid: i64, timestamp: i64, owner: SessionId, data: Seq<u8>) -> NodeView {
    NodeView {
        stat: Stat {
            czxid: zxid,
            mzxid: zxid,
            ctime: timestamp,
            mtime: timestamp,
            version: 0,
            cversion: 0,
            aversion: 0,
            ephemeral_owner: owner,
            pzxid: zxid,
        },
        data,
        children: Seq::empty(),
    }
}

/// A parent after a child `name` is added at change `zxid`.
pub open spec fn with_child(parent: NodeView, name: Seq<char>, zxid: i64) -> NodeView {
    NodeView {
        stat: Stat { cversion: bump(parent.stat.cversion), pzxid: zxid, ..parent.stat },
        children: sorted_insert(parent.children, name),
        ..parent
    }
}

/// A parent after its child `name` is removed at change `zxid`.
pub open spec fn without_child(parent: NodeView, name: Seq<char>, zxid: i64) -> NodeView {
    NodeView {
        stat: Stat { cversion: bump(parent.stat.cversion), pzxid: zxid, ..parent.stat },
        children: remove_value(parent.children, name),
        ..parent
    }
}

/// A node after its data is replaced at change `zxid` and time `timestamp`.
pub open spec fn with_data(node: NodeView, data: Seq<u8>, zxid: i64, timestamp: i64) -> NodeView {
    NodeView {
        stat: Stat { version: bump(node.stat.version), mzxid: zxid, mtime: timestamp, ..node.stat },
        data,
        ..node
    }
}

/// The parent's path and the name of the node a delete of `path` removes,
/// or why it is refused, checked in this order: no `/`, the root, no node,
/// a node with children.
pub open spec fn delete_target(nodes: Map<Seq<char>, NodeView>, path: Seq<char>) -> Result<
    (Seq<char>, Seq<char>),
    StorageError,
> {
    match split_path(path) {
        None => Err(StorageError::InvalidPath),
        Some((q, c)) => if c.len() == 0 {
            Err(StorageError::DeleteRoot)
        } else if !nodes.contains_key(path) {
            Err(StorageError::NotFound)
        } else if nodes[path].children.len() > 0 {
            Err(StorageError::HasChildren)
        } else {
            Ok((q, c))
        },
    }
}

/// The last `d` of `s` is still the last one after appending text without `d`.
proof fn lemma_last_index_append(s: Seq<char>, t: Seq<char>, d: char)
    requires
        forall|j: int| 0 <= j < t.len() ==> t[j] != d,
    ensures
        last_index_of(s + t, d) == last_index_of(s, d),
    decreases t.len(),
{
    if t.len() == 0 {
        assert(s + t =~= s);
    } else {
        assert((s + t).drop_last() =~= s + t.drop_last());
        assert((s + t).last() == t.last());
        lemma_last_index_append(s, t.drop_last(), d);
    }
}

/// Appending text without `/` to a path lengthens its name and keeps its
/// parent.
proof fn lemma_split_path_append(path: Seq<char>, t: Seq<char>)
    requires
        forall|j: int| 0 <= j < t.len() ==> t[j] != '/',
    ensures
        split_path(path) matches Some((q, c)) ==> split_path(path + t) == Some((q, c + t)),
{
    lemma_last_index_append(path, t, '/');
    lemma_last_index_of(path, '/');
    let i = last_index_of(path, '/');
    if i >= 0 {
        assert((path + t).subrange(0, i) =~= path.subrange(0, i));
        assert((path + t).subrange(i + 1, (path + t).len() as int) =~= path.subrange(
            i + 1,
            path.len() as int,
        ) + t);
    }
}

/// Decimal numerals hold only digits.
proof fn lemma_decimal_no_slash(n: nat)
    ensures
        forall|j: int| 0 <= j < decimal(n).len() ==> decimal(n)[j] != '/',
    decreases n,
{
    if n >= 10 {
        lemma_decimal_no_slash(n / 10);
        let d = decimal(n / 10);
        assert forall|j: int| 0 <= j < decimal(n).len() implies decimal(n)[j] != '/' by {
            if j < d.len() {
                assert(decimal(n)[j] == d[j]);
            }
        }
    } else {
        assert(decimal(n)[0] == digit_char(n));
    }
}

/// A sequence suffix holds no `/`.
proof fn lemma_suffix_no_slash(counter: i32)
    ensures
        forall|j: int| 0 <= j < sequence_suffix(counter).len() ==> sequence_suffix(counter)[j] != '/',
{
    let n: nat = if counter >= 0 { counter as nat } else { (-counter) as nat };
    lemma_decimal_no_slash(n);
}

/// Adding a fresh node under an existing parent keeps the tree's shape.
proof fn lemma_create_keeps_tree(
    nodes: Map<Seq<char>, NodeView>,
    full: Seq<char>,
    q: Seq<char>,
    name: Seq<char>,
    node: NodeView,
    zxid: i64,
)
    requires
        tree_wf(nodes),
        !nodes.contains_key(full),
        nodes.contains_key(q),
        split_path(full) == Some((q, name)),
        name.len() > 0,
        node.children == Seq::<Seq<char>>::empty(),
    ensures
        tree_wf(nodes.insert(q, with_child(nodes[q], name, zxid)).insert(full, node)),
{
    let pn = with_child(nodes[q], name, zxid);
    let m = nodes.insert(q, pn).insert(full, node);
    lemma_split_path(full);
    lemma_sorted_insert(nodes[q].children, name);
    assert forall|k: Seq<char>| #[trigger] m.contains_key(k) implies children_sorted(m[k].children) by {
        if k != full && k != q {
            assert(nodes.contains_key(k));
        }
    }
    assert forall|k: Seq<char>| #[trigger] m.contains_key(k) && k != root_path() implies match split_path(k) {
        Some((q2, c2)) => c2.len() > 0 && m.contains_key(q2) && (q2 != root_path() ==> m[q2].children.contains(c2)),
        None => false,
    } by {
        if k != full {
            assert(nodes.contains_key(k));
            if let Some((q2, c2)) = split_path(k) {
                assert(nodes.contains_key(q2));
                if q2 != root_path() {
                    assert(nodes[q2].children.contains(c2));
                    if q2 == q {
                        assert(pn.children.contains(c2));
                    }
                    lemma_split_path(q2);
                }
            }
        }
    }
    assert forall|q2: Seq<char>, c2: Seq<char>|
        m.contains_key(q2) && q2 != root_path() && #[trigger] m[q2].children.contains(c2)
        implies has_child_node(m, q2, c2) by {
        if q2 == q && c2 == name {
            assert(m.contains_key(full) && split_path(full) == Some((q2, c2)));
        } else if q2 != full {
            assert(nodes.contains_key(q2) && nodes[q2].children.contains(c2));
            let k = choose|k: Seq<char>| nodes.contains_key(k) && #[trigger] split_path(k) == Some((q2, c2));
            assert(m.contains_key(k) && split_path(k) == Some((q2, c2)));
        }
    }
}

/// Removing a childless node and its name from its parent keeps the tree's
/// shape.
proof fn lemma_delete_keeps_tree(
    nodes: Map<Seq<char>, NodeView>,
    path: Seq<char>,
    q: Seq<char>,
    c: Seq<char>,
    zxid: i64,
)
    requires
        tree_wf(nodes),
        nodes.contains_key(path),
        split_path(path) == Some((q, c)),
        c.len() > 0,
        nodes[path].children.len() == 0,
    ensures
        path != root_path(),
        nodes.contains_key(q),
        q != path,
        tree_wf(nodes.insert(q, without_child(nodes[q], c, zxid)).remove(path)),
{
    lemma_split_path(path);
    assert(path != root_path());
    let pn = without_child(nodes[q], c, zxid);
    let m = nodes.insert(q, pn).remove(path);
    lemma_remove_value(nodes[q].children, c);
    assert forall|k: Seq<char>| #[trigger] m.contains_key(k) implies children_sorted(m[k].children) by {
        if k != q {
            assert(nodes.contains_key(k));
        }
    }
    assert forall|k: Seq<char>| #[trigger] m.contains_key(k) && k != root_path() implies match split_path(k) {
        Some((q2, c2)) => c2.len() > 0 && m.contains_key(q2) && (q2 != root_path() ==> m[q2].children.contains(c2)),
        None => false,
    } by {
        assert(nodes.contains_key(k));
        if let Some((q2, c2)) = split_path(k) {
            assert(nodes.contains_key(q2));
            if q2 == path {
                assert(nodes[path].children.contains(c2));
                assert(false);
            }
            if q2 != root_path() {
                assert(nodes[q2].children.contains(c2));
                if q2 == q {
                    if c2 == c {
                        lemma_split_unique(k, path);
                    }
                    assert(pn.children.contains(c2));
                }
            }
        }
    }
    assert forall|q2: Seq<char>, c2: Seq<char>|
        m.contains_key(q2) && q2 != root_path() && #[trigger] m[q2].children.contains(c2)
        implies has_child_node(m, q2, c2) by {
        assert(nodes.contains_key(q2) && nodes[q2].children.contains(c2));
        if q2 == q {
            assert(c2 != c);
        }
        let k = choose|k: Seq<char>| nodes.contains_key(k) && #[trigger] split_path(k) == Some((q2, c2));
        assert(k != path);
        assert(m.contains_key(k) && split_path(k) == Some((q2, c2)));
    }
}

/// Replacing a node's data and metadata, not its children, keeps the
/// tree's shape.
proof fn lemma_update_keeps_tree(nodes: Map<Seq<char>, NodeView>, path: Seq<char>, node: NodeView)
    requires
        tree_wf(nodes),
        nodes.contains_key(path),
        node.children == nodes[path].children,
    ensures
        tree_wf(nodes.insert(path, node)),
{
    let m = nodes.insert(path, node);
    assert forall|k: Seq<char>| #[trigger] m.contains_key(k) implies children_sorted(m[k].children) by {
        assert(nodes.contains_key(k));
    }
    assert forall|k: Seq<char>| #[trigger] m.contains_key(k) && k != root_path() implies match split_path(k) {
        Some((q2, c2)) => c2.len() > 0 && m.contains_key(q2) && (q2 != root_path() ==> m[q2].children.contains(c2)),
        None => false,
    } by {
        assert(nodes.contains_key(k));
    }
    assert forall|q2: Seq<char>, c2: Seq<char>|
        m.contains_key(q2) && q2 != root_path() && #[trigger] m[q2].children.contains(c2)
        implies has_child_node(m, q2, c2) by {
        assert(nodes.contains_key(q2) && nodes[q2].children.contains(c2));
        let k = choose|k: Seq<char>| nodes.contains_key(k) && #[trigger] split_path(k) == Some((q2, c2));
        assert(m.contains_key(k) && split_path(k) == Some((q2, c2)));
    }
}

/// The whole state as a specification value: the nodes, the id of the last
/// change, the sessions' timeouts, ephemeral nodes, expiry buckets, the next
/// session id, the bucket width, and the watch registrations.
pub struct KeeperView {
    pub nodes: Map<Seq<char>, NodeView>,
    pub zxid: i64,
    pub sessions: Map<SessionId, i64>,
    pub ephemerals: Map<SessionId, Set<Seq<char>>>,
    pub expiry: Map<SessionId, i64>,
    pub next_id: i64,
    pub interval: i64,
    pub watches: Seq<Registration>,
}

/// A create of `path` with `flags`: the state after it, and the path of the
/// new node or why it was refused (the state is then unchanged).
pub open spec fn create_view(
    v: KeeperView,
    path: Seq<char>,
    data: Seq<u8>,
    timestamp: i64,
    session_id: SessionId,
    flags: i32,
) -> (KeeperView, Result<Seq<char>, StorageError>) {
    match create_target(v.nodes, path, flags) {
        Ok((full, q, name)) => (
            KeeperView {
                nodes: v.nodes.insert(q, with_child(v.nodes[q], name, v.zxid)).insert(
                    full,
                    fresh_node(v.zxid, timestamp, owner_for(flags, session_id), data),
                ),
                ephemerals: if flags & 1 != 0 {
                    with_ephemeral(v.ephemerals, session_id, full)
                } else {
                    v.ephemerals
                },
                ..v
            },
            Ok(full),
        ),
        Err(e) => (v, Err(e)),
    }
}

/// A data update of `path`: the state after it, or why it was refused.
pub open spec fn set_view(v: KeeperView, path: Seq<char>, data: Seq<u8>, timestamp: i64) -> (
    KeeperView,
    Result<(), StorageError>,
) {
    if v.nodes.contains_key(path) {
        (
            KeeperView {
                nodes: v.nodes.insert(path, with_data(v.nodes[path], data, v.zxid, timestamp)),
                ..v
            },
            Ok(()),
        )
    } else {
        (v, Err(StorageError::NotFound))
    }
}

/// A delete of `path`: the state after it, or why it was refused.
pub open spec fn delete_view(v: KeeperView, path: Seq<char>) -> (KeeperView, Result<(), StorageError>) {
    match delete_target(v.nodes, path) {
        Ok((q, c)) => (
            KeeperView {
                nodes: v.nodes.insert(q, without_child(v.nodes[q], c, v.zxid)).remove(path),
                ..v
            },
            Ok(()),
        ),
        Err(e) => (v, Err(e)),
    }
}

/// Appends `sequence_suffix(counter)`.
fn push_sequence_suffix(s: &mut String, counter: i32)
    ensures
        final(s)@ == old(s)@ + sequence_suffix(counter),
{
    if counter >= 0 {
        push_decimal_padded(s, counter as u64, 10);
    } else {
        let ghost start = s@;
        string_push(s, '-');
        let magnitude: u64 = (0i64 - counter as i64) as u64;
        push_decimal_padded(s, magnitude, 9);
        assert(s@ =~= start + sequence_suffix(counter));
    }
}

/// The data tree: each node by its path, the id of the last change, and
/// the session and watch bookkeeping that goes with them. The fields are
/// public for reading in specifications; every method keeps `wf`.
pub struct KeeperStorage {
    pub map: Vec<(String, Node)>,
    pub last_zxid: i64,
    pub session_state: SessionState,
    pub watch_state: WatchState,
}

impl View for KeeperStorage {
    type V = KeeperView;

    open spec fn view(&self) -> KeeperView {
        KeeperView {
            nodes: self.nodes(),
            zxid: self.zxid(),
            sessions: self.session_state.sessions(),
            ephemerals: self.session_state.ephemerals(),
            expiry: self.session_state.expiry(),
            next_id: self.session_state.next_id(),
            interval: self.session_state.interval(),
            watches: self.watch_state.registrations(),
        }
    }
}

impl KeeperStorage {
    /// The nodes by path.
    pub open spec fn nodes(&self) -> Map<Seq<char>, NodeView> {
        assoc_map(entry_views(self.map@))
    }

    /// The id of the last change.
    pub open spec fn zxid(&self) -> i64 {
        self.last_zxid
    }

    /// The internal invariant: paths are unique, the tree has its shape,
    /// and the session and watch bookkeeping keep theirs.
    pub open spec fn wf(&self) -> bool {
        &&& keys_unique(entry_views(self.map@))
        &&& tree_wf(self.nodes())
        &&& self.session_state.wf()
        &&& self.watch_state.wf()
    }

    /// A tree holding only the root, with no sessions and no watches.
    pub fn new(interval_ms: i64) -> (r: Self)
        ensures
            r.wf(),
            r.nodes() == Map::<Seq<char>, NodeView>::empty().insert(root_path(), root_node()),
            r.zxid() == 0,
            r.session_state.sessions() == Map::<SessionId, i64>::empty(),
            r.session_state.ephemerals() == Map::<SessionId, Set<Seq<char>>>::empty(),
            r.session_state.expiry() == Map::<SessionId, i64>::empty(),
            r.session_state.next_id() == 1,
            r.session_state.interval() == interval_ms,
            r.watch_state.registrations() == Seq::<Registration>::empty(),
            server_inv(r@),
    {
        let root = Node { stat: Stat::default(), data: Vec::new(), children: Vec::new() };
        let mut map: Vec<(String, Node)> = Vec::new();
        let name = "/".to_owned();
        proof {
            reveal_strlit("/");
        }
        map.push((name, root));
        let r = KeeperStorage {
            map,
            last_zxid: 0,
            session_state: SessionState::new(interval_ms),
            watch_state: WatchState::new(),
        };
        proof {
            assert(r.map@[0].1@.children =~= Seq::<Seq<char>>::empty());
            assert(r.map@[0].1@.data =~= Seq::<u8>::empty());
            assert(r.map@[0].0@ =~= root_path());
            assert(r.map@[0].1@ == root_node());
            assert(entry_views(r.map@) =~= Seq::<(Seq<char>, NodeView)>::empty().push((root_path(), root_node())));
            lemma_assoc_empty::<Seq<char>, NodeView>();
            lemma_assoc_push(Seq::<(Seq<char>, NodeView)>::empty(), root_path(), root_node());
            assert(r.nodes() == Map::<Seq<char>, NodeView>::empty().insert(root_path(), root_node()));
            assert(tree_wf(r.nodes()));
        }
        r
    }

    /// The id of the last change.
    pub fn last_zxid(&self) -> (r: i64)
        ensures
            r == self.zxid(),
    {
        self.last_zxid
    }

    /// Takes the next change id and returns it.
    pub fn next_zxid(&mut self) -> (r: i64)
        requires
            old(self).zxid() < i64::MAX,
        ensures
            r == old(self).zxid() + 1,
            final(self).zxid() == r,
            final(self).nodes() == old(self).nodes(),
            final(self).session_state == old(self).session_state,
            final(self).watch_state == old(self).watch_state,
            old(self).wf() ==> final(self).wf(),
    {
        self.last_zxid = self.last_zxid + 1;
        self.last_zxid
    }

    /// Sets the id of the last change, as when the log is read back.
    pub fn set_last_zxid(&mut self, zxid: i64)
        ensures
            final(self).zxid() == zxid,
            final(self).nodes() == old(self).nodes(),
            final(self).session_state == old(self).session_state,
            final(self).watch_state == old(self).watch_state,
            old(self).wf() ==> final(self).wf(),
    {
        self.last_zxid = zxid;
    }

    /// The position of the entry for `path`.
    fn find(&self, path: &str) -> (r: Option<usize>)
        ensures
            match r {
                Some(i) => i < self.map@.len() && self.map@[i as int].0@ == path@,
                None => !has_key(entry_views(self.map@), path@),
            },
    {
        let n = self.map.len();
        for i in 0..n
            invariant
                n == self.map@.len(),
                forall|j: int| 0 <= j < i ==> self.map@[j].0@ != path@,
        {
            if str_eq(self.map[i].0.as_str(), path) {
                return Some(i);
            }
        }
        assert forall|j: int| 0 <= j < entry_views(self.map@).len() implies #[trigger] entry_views(self.map@)[j].0 != path@ by {
            assert(entry_views(self.map@)[j].0 == self.map@[j].0@);
        }
        None
    }

    /// The node at `path`, if there is one.
    pub fn traverse(&self, path: &str) -> (r: Option<&Node>)
        requires
            self.wf(),
        ensures
            r is Some == self.nodes().contains_key(path@),
            r matches Some(n) ==> n@ == self.nodes()[path@],
    {
        match self.find(path) {
            Some(i) => {
                proof {
                    lemma_assoc_index(entry_views(self.map@), i as int);
                }
                Some(&self.map[i].1)
            },
            None => None,
        }
    }

    /// Whether a node exists at `path`.
    pub fn path_exists(&self, path: &str) -> (r: bool)
        requires
            self.wf(),
        ensures
            r == self.nodes().contains_key(path@),
    {
        match self.find(path) {
            Some(i) => {
                proof {
                    lemma_assoc_index(entry_views(self.map@), i as int);
                }
                true
            },
            None => false,
        }
    }
}

impl KeeperStorage {
    /// Whether a create of `path` with `flags` would go ahead, and if not,
    /// why: the checks of `create` without the change.
    pub fn create_check(&self, path: &str, flags: i32) -> (r: Result<(), StorageError>)
        requires
            self.wf(),
        ensures
            match create_target(self.nodes(), path@, flags) {
                Ok(_) => r is Ok,
                Err(e) => r == Err::<(), StorageError>(e),
            },
    {
        let ghost nodes = self.nodes();
        let ghost views = entry_views(self.map@);
        let (parent_raw, child_name) = match str_rsplit_once(path, '/') {
            Some(split) => split,
            None => {
                return Err(StorageError::InvalidPath);
            },
        };
        if child_name.is_empty() {
            return Err(StorageError::CreateRoot);
        }
        let parent_path: &str = if parent_raw.is_empty() {
            "/"
        } else {
            parent_raw
        };
        proof {
            reveal_strlit("/");
        }
        let ghost q = parent_path@;
        assert(split_path(path@) == Some((q, child_name@)));
        let pi = match self.find(parent_path) {
            Some(i) => i,
            None => {
                return Err(StorageError::ParentMissing);
            },
        };
        proof {
            lemma_assoc_index(views, pi as int);
        }
        let mut full = path.to_owned();
        let ghost suffix = if flags & 2 != 0 {
            sequence_suffix(nodes[q].stat.cversion)
        } else {
            Seq::<char>::empty()
        };
        if flags & 2 != 0 {
            let counter = self.map[pi].1.stat.cversion;
            push_sequence_suffix(&mut full, counter);
        } else {
            assert(full@ =~= path@ + suffix);
        }
        match self.find(full.as_str()) {
            Some(i) => {
                proof {
                    lemma_assoc_index(views, i as int);
                }
                return Err(StorageError::NodeExists);
            },
            None => {},
        }
        if self.map[pi].1.stat.ephemeral_owner.0 != 0 {
            return Err(StorageError::EphemeralParent);
        }
        Ok(())
    }

    /// Creates the node that `path` and `flags` name, with `data`, at time
    /// `timestamp`, for `session_id`, and returns its path. Flag bit 1 makes
    /// it ephemeral: owned by the session, which records it. Flag bit 2 makes
    /// it sequential: its name gets the parent's counter. The parent lists
    /// the new name, and its counter steps.
    pub fn create(
        &mut self,
        path: &str,
        data: Vec<u8>,
        timestamp: i64,
        session_id: SessionId,
        flags: i32,
    ) -> (r: Result<String, StorageError>)
        requires
            old(self).wf(),
        ensures
            final(self).wf(),
            final(self)@ == create_view(old(self)@, path@, data@, timestamp, session_id, flags).0,
            match create_view(old(self)@, path@, data@, timestamp, session_id, flags).1 {
                Ok(full) => r matches Ok(p) && p@ == full,
                Err(e) => r == Err::<String, StorageError>(e),
            },
    {
        let ghost nodes = self.nodes();
        let ghost views = entry_views(self.map@);
        let (parent_raw, child_name) = match str_rsplit_once(path, '/') {
            Some(split) => split,
            None => {
                return Err(StorageError::InvalidPath);
            },
        };
        if child_name.is_empty() {
            return Err(StorageError::CreateRoot);
        }
        let parent_path: &str = if parent_raw.is_empty() {
            "/"
        } else {
            parent_raw
        };
        proof {
            reveal_strlit("/");
        }
        let ghost q = parent_path@;
        let ghost c = child_name@;
        assert(split_path(path@) == Some((q, c)));
        let pi = match self.find(parent_path) {
            Some(i) => i,
            None => {
                return Err(StorageError::ParentMissing);
            },
        };
        proof {
            lemma_assoc_index(views, pi as int);
        }
        let mut full = path.to_owned();
        let mut name = child_name.to_owned();
        let ghost suffix = if flags & 2 != 0 {
            sequence_suffix(nodes[q].stat.cversion)
        } else {
            Seq::<char>::empty()
        };
        if flags & 2 != 0 {
            let counter = self.map[pi].1.stat.cversion;
            push_sequence_suffix(&mut full, counter);
            push_sequence_suffix(&mut name, counter);
        } else {
            assert(full@ =~= path@ + suffix);
            assert(name@ =~= c + suffix);
        }
        assert(full@ == path@ + suffix && name@ == c + suffix);
        match self.find(full.as_str()) {
            Some(i) => {
                proof {
                    lemma_assoc_index(views, i as int);
                }
                return Err(StorageError::NodeExists);
            },
            None => {},
        }
        if self.map[pi].1.stat.ephemeral_owner.0 != 0 {
            return Err(StorageError::EphemeralParent);
        }
        assert(create_target(nodes, path@, flags) == Ok::<_, StorageError>((full@, q, name@)));
        proof {
            lemma_suffix_no_slash(nodes[q].stat.cversion);
            lemma_split_path_append(path@, suffix);
            lemma_create_keeps_tree(
                nodes,
                full@,
                q,
                name@,
                fresh_node(self.last_zxid, timestamp, owner_for(flags, session_id), data@),
                self.last_zxid,
            );
        }
        let zxid = self.last_zxid;
        let owner = if flags & 1 != 0 {
            session_id
        } else {
            SessionId(0)
        };
        let ghost data_view = data@;
        let node = Node {
            stat: Stat {
                czxid: zxid,
                mzxid: zxid,
                ctime: timestamp,
                mtime: timestamp,
                version: 0,
                cversion: 0,
                aversion: 0,
                ephemeral_owner: owner,
                pzxid: zxid,
            },
            data,
            children: Vec::new(),
        };
        assert(node@.children =~= Seq::<Seq<char>>::empty());
        assert(node@ == fresh_node(zxid, timestamp, owner_for(flags, session_id), data_view));
        // Update the parent in place.
        let mut entry: (String, Node) = (
            String::new(),
            Node { stat: Stat::default(), data: Vec::new(), children: Vec::new() },
        );
        std::mem::swap(&mut entry, &mut self.map[pi]);
        assert(entry.1@ == nodes[q] && entry.0@ == q);
        let ghost name_view = name@;
        entry.1.insert_child(name);
        entry.1.stat.cversion = entry.1.stat.cversion.wrapping_add(1);
        entry.1.stat.pzxid = zxid;
        assert(entry.1@ == with_child(nodes[q], name_view, zxid));
        self.map.set(pi, entry);
        proof {
            assert(entry_views(self.map@) =~= views.update(pi as int, (q, with_child(nodes[q], name_view, zxid))));
            lemma_assoc_update(views, pi as int, with_child(nodes[q], name_view, zxid));
        }
        let ghost mid = entry_views(self.map@);
        assert forall|j: int| 0 <= j < mid.len() implies #[trigger] mid[j].0 != full@ by {
            assert(mid[j].0 == views[j].0);
        }
        let key = full.clone();
        self.map.push((key, node));
        proof {
            assert(entry_views(self.map@) =~= mid.push((full@, node@)));
            lemma_assoc_push(mid, full@, node@);
        }
        if flags & 1 != 0 {
            let owned = full.clone();
            self.session_state.add_ephemeral(session_id, owned);
        }
        Ok(full)
    }
}

impl KeeperStorage {
    /// Replaces the data of the node at `path`, as change `zxid()` at time
    /// `timestamp`; its version steps.
    pub fn set(&mut self, path: &str, data: Vec<u8>, timestamp: i64) -> (r: Result<(), StorageError>)
        requires
            old(self).wf(),
        ensures
            final(self).wf(),
            final(self)@ == set_view(old(self)@, path@, data@, timestamp).0,
            r == set_view(old(self)@, path@, data@, timestamp).1,
    {
        let ghost nodes = self.nodes();
        let ghost views = entry_views(self.map@);
        let i = match self.find(path) {
            Some(i) => i,
            None => {
                return Err(StorageError::NotFound);
            },
        };
        proof {
            lemma_assoc_index(views, i as int);
        }
        let zxid = self.last_zxid;
        let ghost new_node = with_data(nodes[path@], data@, zxid, timestamp);
        let mut entry: (String, Node) = (
            String::new(),
            Node { stat: Stat::default(), data: Vec::new(), children: Vec::new() },
        );
        std::mem::swap(&mut entry, &mut self.map[i]);
        entry.1.stat.version = entry.1.stat.version.wrapping_add(1);
        entry.1.stat.mzxid = zxid;
        entry.1.stat.mtime = timestamp;
        entry.1.data = data;
        assert(entry.1@ == new_node);
        self.map.set(i, entry);
        proof {
            assert(entry_views(self.map@) =~= views.update(i as int, (path@, new_node)));
            lemma_assoc_update(views, i as int, new_node);
            lemma_update_keeps_tree(nodes, path@, new_node);
        }
        Ok(())
    }

    /// Deletes the childless node at `path`; its parent forgets its name and
    /// its counter steps. The session that owned an ephemeral node is not
    /// told here.
    pub fn delete(&mut self, path: &str) -> (r: Result<(), StorageError>)
        requires
            old(self).wf(),
        ensures
            final(self).wf(),
            final(self)@ == delete_view(old(self)@, path@).0,
            r == delete_view(old(self)@, path@).1,
    {
        let ghost nodes = self.nodes();
        let ghost views = entry_views(self.map@);
        let (parent_raw, child_name) = match str_rsplit_once(path, '/') {
            Some(split) => split,
            None => {
                return Err(StorageError::InvalidPath);
            },
        };
        if child_name.is_empty() {
            return Err(StorageError::DeleteRoot);
        }
        let parent_path: &str = if parent_raw.is_empty() {
            "/"
        } else {
            parent_raw
        };
        proof {
            reveal_strlit("/");
        }
        let ghost q = parent_path@;
        let ghost c = child_name@;
        assert(split_path(path@) == Some((q, c)));
        let k = match self.find(path) {
            Some(k) => k,
            None => {
                return Err(StorageError::NotFound);
            },
        };
        proof {
            lemma_assoc_index(views, k as int);
        }
        if self.map[k].1.children.len() > 0 {
            return Err(StorageError::HasChildren);
        }
        assert(delete_target(nodes, path@) == Ok::<_, StorageError>((q, c)));
        proof {
            lemma_delete_keeps_tree(nodes, path@, q, c, self.last_zxid);
        }
        let pi = match self.find(parent_path) {
            Some(i) => i,
            None => {
                return Err(StorageError::ParentMissing);
            },
        };
        proof {
            lemma_assoc_index(views, pi as int);
        }
        let zxid = self.last_zxid;
        let ghost pn = without_child(nodes[q], c, zxid);
        let mut entry: (String, Node) = (
            String::new(),
            Node { stat: Stat::default(), data: Vec::new(), children: Vec::new() },
        );
        std::mem::swap(&mut entry, &mut self.map[pi]);
        entry.1.remove_child(child_name);
        entry.1.stat.cversion = entry.1.stat.cversion.wrapping_add(1);
        entry.1.stat.pzxid = zxid;
        assert(entry.1@ == pn);
        self.map.set(pi, entry);
        let ghost mid = views.update(pi as int, (q, pn));
        proof {
            assert(entry_views(self.map@) =~= mid);
            lemma_assoc_update(views, pi as int, pn);
        }
        self.map.remove(k);
        proof {
            assert(entry_views(self.map@) =~= mid.remove(k as int));
            lemma_assoc_remove(mid, k as int);
        }
        Ok(())
    }
}

impl KeeperStorage {
    /// A copy of the whole state: nodes, last change id, sessions and
    /// watches. A batch of changes is tried on a copy and kept only if all
    /// of them succeed.
    pub fn duplicate(&self) -> (r: Self)
        requires
            self.wf(),
        ensures
            r.wf(),
            r.nodes() == self.nodes(),
            r.zxid() == self.zxid(),
            r.session_state.sessions() == self.session_state.sessions(),
            r.session_state.ephemerals() == self.session_state.ephemerals(),
            r.session_state.expiry() == self.session_state.expiry(),
            r.session_state.next_id() == self.session_state.next_id(),
            r.session_state.interval() == self.session_state.interval(),
            r.watch_state.registrations() == self.watch_state.registrations(),
    {
        let mut map: Vec<(String, Node)> = Vec::new();
        let n = self.map.len();
        for i in 0..n
            invariant
                n == self.map@.len(),
                entry_views(map@) == entry_views(self.map@).subrange(0, i as int),
        {
            let key = self.map[i].0.clone();
            let node = self.map[i].1.clone();
            let ghost before = map@;
            map.push((key, node));
            assert(entry_views(map@) =~= entry_views(before).push((key@, node@)));
            assert(entry_views(self.map@).subrange(0, i + 1) =~= entry_views(self.map@).subrange(
                0,
                i as int,
            ).push(entry_views(self.map@)[i as int]));
        }
        assert(entry_views(self.map@).subrange(0, n as int) =~= entry_views(self.map@));
        KeeperStorage {
            map,
            last_zxid: self.last_zxid,
            session_state: self.session_state.duplicate(),
            watch_state: self.watch_state.duplicate(),
        }
    }
}

// ---------------------------------------------------------------------
// Laws of the tree
// ---------------------------------------------------------------------

/// A node that was created reads back as created: it holds the data, has
/// fresh metadata stamped with the current change id, and its parent lists
/// its name.
pub proof fn lemma_create_then_read(
    v: KeeperView,
    path: Seq<char>,
    data: Seq<u8>,
    timestamp: i64,
    session_id: SessionId,
    flags: i32,
)
    requires
        tree_wf(v.nodes),
    ensures
        match create_target(v.nodes, path, flags) {
            Ok((full, q, name)) => {
                let after = create_view(v, path, data, timestamp, session_id, flags).0;
                &&& split_path(full) == Some((q, name))
                &&& after.nodes.contains_key(full)
                &&& after.nodes[full] == fresh_node(v.zxid, timestamp, owner_for(flags, session_id), data)
                &&& after.nodes[q].children.contains(name)
                &&& tree_wf(after.nodes)
            },
            Err(_) => create_view(v, path, data, timestamp, session_id, flags).0 == v,
        },
{
    if let Ok((full, q, name)) = create_target(v.nodes, path, flags) {
        let suffix = if flags & 2 != 0 {
            sequence_suffix(v.nodes[q].stat.cversion)
        } else {
            Seq::<char>::empty()
        };
        lemma_suffix_no_slash(v.nodes[q].stat.cversion);
        lemma_split_path_append(path, suffix);
        lemma_split_path(full);
        lemma_sorted_insert(v.nodes[q].children, name);
        lemma_create_keeps_tree(
            v.nodes,
            full,
            q,
            name,
            fresh_node(v.zxid, timestamp, owner_for(flags, session_id), data),
            v.zxid,
        );
    }
}

/// Deleting a node right after it was created gives back the paths there
/// were and the parent's list of children, when the parent did not list the
/// name before; only the parent's counter, stepped twice, and its last child
/// change, the current change id, stay moved.
#[verifier::spinoff_prover]
pub proof fn lemma_delete_undoes_create(
    v: KeeperView,
    path: Seq<char>,
    data: Seq<u8>,
    timestamp: i64,
    session_id: SessionId,
    flags: i32,
)
    requires
        tree_wf(v.nodes),
        create_target(v.nodes, path, flags) matches Ok((full, q, name)) && !v.nodes[q].children.contains(name),
    ensures
        create_target(v.nodes, path, flags) matches Ok((full, q, name)) && {
            let created = create_view(v, path, data, timestamp, session_id, flags).0;
            let (deleted, r) = delete_view(created, full);
            &&& r is Ok
            &&& deleted.nodes.dom() == v.nodes.dom()
            &&& deleted.nodes[q].children == v.nodes[q].children
            &&& deleted.nodes[q].stat.cversion == bump(bump(v.nodes[q].stat.cversion))
            &&& deleted.nodes[q].stat.pzxid == v.zxid
            &&& deleted.nodes[q].data == v.nodes[q].data
            &&& forall|k: Seq<char>| #[trigger] v.nodes.contains_key(k) && k != q ==> deleted.nodes[k] == v.nodes[k]
        },
{
    let (full, q, name) = create_target(v.nodes, path, flags)->Ok_0;
    lemma_create_then_read(v, path, data, timestamp, session_id, flags);
    let created = create_view(v, path, data, timestamp, session_id, flags).0;
    lemma_split_path(full);
    assert(created.nodes[full].children.len() == 0);
    assert(delete_target(created.nodes, full) == Ok::<_, StorageError>((q, name)));
    let cs = v.nodes[q].children;
    let ins = sorted_insert(cs, name);
    lemma_sorted_insert(cs, name);
    let k = count_before(cs, name);
    let p = choose_split(cs, name);
    lemma_count_before_prefix(cs, name, p);
    assert(ins == cs.insert(k, name));
    assert(ins[k] == name);
    lemma_remove_value_at(ins, name, k);
    assert(ins.remove(k) =~= cs);
    let deleted = delete_view(created, full).0;
    assert(deleted.nodes.dom() =~= v.nodes.dom());
}

/// A node whose data was replaced reads back with the new data and its
/// version stepped; its children and every other node stay as they were.
pub proof fn lemma_set_then_read(v: KeeperView, path: Seq<char>, data: Seq<u8>, timestamp: i64)
    requires
        v.nodes.contains_key(path),
    ensures
        ({
            let after = set_view(v, path, data, timestamp).0;
            &&& after.nodes[path].data == data
            &&& after.nodes[path].stat.version == bump(v.nodes[path].stat.version)
            &&& after.nodes[path].children == v.nodes[path].children
            &&& after.nodes.dom() == v.nodes.dom()
            &&& forall|k: Seq<char>| #[trigger] v.nodes.contains_key(k) && k != path ==> after.nodes[k] == v.nodes[k]
        }),
{
    assert(set_view(v, path, data, timestamp).0.nodes.dom() =~= v.nodes.dom());
}

/// Every change keeps the tree's shape: a create, a data update and a
/// delete each leave a tree with the root, with every node's parent present
/// and listing it, with every listed name an existing node, and with sorted
/// children. A delete that goes ahead always finds the parent it updates.
pub proof fn lemma_changes_keep_tree(
    v: KeeperView,
    path: Seq<char>,
    data: Seq<u8>,
    timestamp: i64,
    session_id: SessionId,
    flags: i32,
)
    requires
        tree_wf(v.nodes),
    ensures
        tree_wf(create_view(v, path, data, timestamp, session_id, flags).0.nodes),
        tree_wf(set_view(v, path, data, timestamp).0.nodes),
        tree_wf(delete_view(v, path).0.nodes),
        delete_target(v.nodes, path) matches Ok((q, _)) ==> v.nodes.contains_key(q),
{
    lemma_create_then_read(v, path, data, timestamp, session_id, flags);
    if v.nodes.contains_key(path) {
        lemma_update_keeps_tree(v.nodes, path, with_data(v.nodes[path], data, v.zxid, timestamp));
    }
    if let Ok((q, c)) = delete_target(v.nodes, path) {
        lemma_delete_keeps_tree(v.nodes, path, q, c, v.zxid);
    }
}

/// A sequential create numbers its node with the parent's counter and
/// steps the counter, so the next sequential create under the same parent
/// is numbered with the next value of the counter, and gets another path.
pub proof fn lemma_sequential_numbers_step(
    v: KeeperView,
    path: Seq<char>,
    data: Seq<u8>,
    timestamp: i64,
    session_id: SessionId,
    flags: i32,
    next_path: Seq<char>,
    next_flags: i32,
)
    requires
        tree_wf(v.nodes),
        flags & 2 != 0,
        next_flags & 2 != 0,
        create_target(v.nodes, path, flags) is Ok,
        split_path(next_path) matches Some((q2, _)) && q2 == create_target(v.nodes, path, flags)->Ok_0.1,
    ensures
        create_target(v.nodes, path, flags) matches Ok((full, q, _)) && {
            let after = create_view(v, path, data, timestamp, session_id, flags).0;
            &&& full == path + sequence_suffix(v.nodes[q].stat.cversion)
            &&& after.nodes[q].stat.cversion == bump(v.nodes[q].stat.cversion)
            &&& (create_target(after.nodes, next_path, next_flags) matches Ok((next_full, _, _))
                ==> next_full == next_path + sequence_suffix(bump(v.nodes[q].stat.cversion))
                && next_full != full)
        },
{
    lemma_create_then_read(v, path, data, timestamp, session_id, flags);
    let (full, q, name) = create_target(v.nodes, path, flags)->Ok_0;
    lemma_split_path(full);
}

} // verus!
