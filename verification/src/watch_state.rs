//! Watches: which sessions asked to be told about which paths.
//!
//! A watch is registered by a read (getData or exists for a data watch,
//! getChildren for a list watch) and fired by a change. One-shot watches are
//! removed when they fire. Each registration is a (session, path, kind)
//! triple; the set of them answers both "who watches this path?" and "what
//! does this session watch?".

use vstd::prelude::*;
use vstd::string::*;
use vstd::utf8::*;
use crate::codec::put_bytes;
use crate::protocol::{notification_bytes, SessionId, WatchEventType, WatchNotification};
use crate::text::{rsplit_once_spec, str_eq, str_rsplit_once};

verus! {

/// The kinds of watch. The first two are one-shot watches, as old as the
/// protocol; the persistent ones came with later protocol versions.
#[derive(Debug, Clone, Copy, PartialEq, Eq, Structural, Hash)]
pub enum WatchType {
    Watch,
    ListWatch,
    PersistentWatch,
    PersistentListWatch,
    PersistentRecursiveWatch,
}

/// Something being watched: a path, in one kind of watch.
#[derive(Debug, Clone, PartialEq, Eq, Hash)]
pub struct WatchInfo {
    pub path: String,
    pub watch_type: WatchType,
}

/// A notification to deliver to one session.
pub struct WatchEvent {
    pub session_id: SessionId,
    pub payload: Vec<u8>,
}

/// The reply to a request, and the notifications it caused.
pub struct ApplyResult {
    pub response: Vec<u8>,
    pub watch_events: Vec<WatchEvent>,
}

/// A registration as a specification value: session, path, kind.
pub type Registration = (SessionId, Seq<char>, WatchType);

/// A notification as a specification value: the session and the bytes.
pub type EventView = (SessionId, Seq<u8>);

/// The notifications as specification values.
pub open spec fn events_view(es: Seq<WatchEvent>) -> Seq<EventView> {
    Seq::new(es.len(), |i: int| (es[i].session_id, es[i].payload@))
}

/// The registrations after `r` is registered: added at the end unless
/// already held.
pub open spec fn registered(regs: Seq<Registration>, r: Registration) -> Seq<Registration> {
    if regs.contains(r) {
        regs
    } else {
        regs.push(r)
    }
}

/// Whether a registration is for `path` in watch kind `kind`.
pub open spec fn is_for(r: Registration, path: Seq<char>, kind: WatchType) -> bool {
    r.1 == path && r.2 == kind
}

/// The registrations that are not for `path` in kind `kind`, in order.
pub open spec fn unmatched(regs: Seq<Registration>, path: Seq<char>, kind: WatchType) -> Seq<
    Registration,
>
    decreases regs.len(),
{
    if regs.len() == 0 {
        Seq::empty()
    } else if is_for(regs.last(), path, kind) {
        unmatched(regs.drop_last(), path, kind)
    } else {
        unmatched(regs.drop_last(), path, kind).push(regs.last())
    }
}

/// The sessions of the registrations for `path` in kind `kind`, in order.
pub open spec fn matched(regs: Seq<Registration>, path: Seq<char>, kind: WatchType) -> Seq<
    SessionId,
>
    decreases regs.len(),
{
    if regs.len() == 0 {
        Seq::empty()
    } else if is_for(regs.last(), path, kind) {
        matched(regs.drop_last(), path, kind).push(regs.last().0)
    } else {
        matched(regs.drop_last(), path, kind)
    }
}

/// The registrations of sessions other than `sid`, in order.
pub open spec fn without_session(regs: Seq<Registration>, sid: SessionId) -> Seq<Registration>
    decreases regs.len(),
{
    if regs.len() == 0 {
        Seq::empty()
    } else if regs.last().0 == sid {
        without_session(regs.drop_last(), sid)
    } else {
        without_session(regs.drop_last(), sid).push(regs.last())
    }
}

/// The notifications for the one-shot watches of kind `kind` on `lookup`:
/// one per watching session, each telling of `event` at `notified`.
pub open spec fn oneshot_events(
    regs: Seq<Registration>,
    lookup: Seq<char>,
    kind: WatchType,
    event: WatchEventType,
    notified: Seq<char>,
) -> Seq<EventView> {
    matched(regs, lookup, kind).map_values(notify(event, notified))
}

/// The notification a session gets of `event` at `notified`.
pub open spec fn notify(event: WatchEventType, notified: Seq<char>) -> spec_fn(SessionId) -> EventView {
    |s: SessionId| (s, notification_bytes(event, encode_utf8(notified)))
}

/// The path whose list watches hear of a change to `path`: its parent,
/// with the empty parent of a top-level path read as the root.
pub open spec fn watch_parent(path: Seq<char>) -> Option<Seq<char>> {
    match rsplit_once_spec(path, '/') {
        Some((p, _)) => if p.len() == 0 {
            Some(seq!['/'])
        } else {
            Some(p)
        },
        None => None,
    }
}

/// What firing `event` at `path` sends, and which registrations stay:
/// data watches on the path hear of the event; a creation also notifies
/// list watches on the parent, and a deletion list watches on the path and
/// on its parent, as a child event. Fired watches are removed.
pub open spec fn fire_spec(regs: Seq<Registration>, path: Seq<char>, event: WatchEventType) -> (
    Seq<EventView>,
    Seq<Registration>,
) {
    let e1 = oneshot_events(regs, path, WatchType::Watch, event, path);
    let r1 = unmatched(regs, path, WatchType::Watch);
    match event {
        WatchEventType::Created => match watch_parent(path) {
            Some(p) => (
                e1 + oneshot_events(r1, p, WatchType::ListWatch, WatchEventType::Child, p),
                unmatched(r1, p, WatchType::ListWatch),
            ),
            None => (e1, r1),
        },
        WatchEventType::Deleted => {
            let e2 = oneshot_events(r1, path, WatchType::ListWatch, WatchEventType::Child, path);
            let r2 = unmatched(r1, path, WatchType::ListWatch);
            match watch_parent(path) {
                Some(p) => (
                    e1 + e2 + oneshot_events(
                        r2,
                        p,
                        WatchType::ListWatch,
                        WatchEventType::Child,
                        p,
                    ),
                    unmatched(r2, p, WatchType::ListWatch),
                ),
                None => (e1 + e2, r2),
            }
        },
        _ => (e1, r1),
    }
}

/// The watch registrations of all sessions.
pub struct WatchState {
    entries: Vec<(SessionId, WatchInfo)>,
}

impl WatchState {
    /// The registrations, in the order they were made.
    pub closed spec fn registrations(&self) -> Seq<Registration> {
        Seq::new(
            self.entries@.len(),
            |i: int| (self.entries@[i].0, self.entries@[i].1.path@, self.entries@[i].1.watch_type),
        )
    }

    /// No registration is held twice.
    pub closed spec fn wf(&self) -> bool {
        self.registrations().no_duplicates()
    }

    /// No watches at all.
    pub fn new() -> (r: Self)
        ensures
            r.wf(),
            r.registrations() == Seq::<Registration>::empty(),
    {
        let r = Self { entries: Vec::new() };
        assert(r.registrations() =~= Seq::<Registration>::empty());
        r
    }

    /// Registers a watch of kind `watch_type` by `session_id` on `path`; a
    /// registration already held is kept once.
    pub fn register(&mut self, session_id: SessionId, path: String, watch_type: WatchType)
        requires
            old(self).wf(),
        ensures
            final(self).wf(),
            final(self).registrations() == registered(
                old(self).registrations(),
                (session_id, path@, watch_type),
            ),
    {
        let ghost regs = self.registrations();
        let n = self.entries.len();
        for i in 0..n
            invariant
                n == self.entries@.len(),
                regs == self.registrations(),
                self.wf(),
                forall|j: int| 0 <= j < i ==> regs[j] != (session_id, path@, watch_type),
        {
            let e = &self.entries[i];
            if e.0 == session_id && e.1.watch_type == watch_type && str_eq(
                e.1.path.as_str(),
                path.as_str(),
            ) {
                assert(regs[i as int] == (session_id, path@, watch_type));
                return;
            }
        }
        let ghost reg = (session_id, path@, watch_type);
        self.entries.push((session_id, WatchInfo { path, watch_type }));
        assert(self.registrations() =~= regs.push(reg));
        assert(!regs.contains(reg));
    }

    /// Removes every registration of `session_id`.
    pub fn clear(&mut self, session_id: SessionId)
        requires
            old(self).wf(),
        ensures
            final(self).wf(),
            final(self).registrations() == without_session(old(self).registrations(), session_id),
    {
        let ghost regs = self.registrations();
        let mut rest: Vec<(SessionId, WatchInfo)> = Vec::new();
        std::mem::swap(&mut rest, &mut self.entries);
        let n = rest.len();
        let mut kept: Vec<(SessionId, WatchInfo)> = Vec::new();
        let mut i: usize = 0;
        // Walk the old entries front to back, keeping the others' registrations.
        while rest.len() > 0
            invariant
                i + rest@.len() == n,
                i <= n,
                n == regs.len(),
                forall|j: int|
                    0 <= j < rest@.len() ==> (rest@[j].0, rest@[j].1.path@, rest@[j].1.watch_type)
                        == regs[i + j],
                Seq::new(
                    kept@.len(),
                    |k: int| (kept@[k].0, kept@[k].1.path@, kept@[k].1.watch_type),
                ) == without_session(regs.subrange(0, i as int), session_id),
            decreases rest@.len(),
        {
            let e = rest.remove(0);
            let ghost r = (e.0, e.1.path@, e.1.watch_type);
            assert(r == regs[i as int]);
            assert(regs.subrange(0, i + 1).drop_last() =~= regs.subrange(0, i as int));
            let ghost before = kept@;
            if e.0 != session_id {
                kept.push(e);
                assert(Seq::new(
                    kept@.len(),
                    |k: int| (kept@[k].0, kept@[k].1.path@, kept@[k].1.watch_type),
                ) =~= Seq::new(
                    before.len(),
                    |k: int| (before[k].0, before[k].1.path@, before[k].1.watch_type),
                ).push(r));
            }
            i = i + 1;
        }
        assert(regs.subrange(0, n as int) =~= regs);
        self.entries = kept;
        proof {
            lemma_without_session_subseq(regs, session_id);
        }
    }

    /// Fires the one-shot watches of kind `watch_type` on `lookup_path`: each
    /// watching session gets a notification of `event` at `notification_path`,
    /// and those registrations are dropped.
    fn fire_oneshot(
        &mut self,
        lookup_path: &str,
        event: WatchEventType,
        notification_path: &str,
        watch_type: WatchType,
    ) -> (r: Vec<WatchEvent>)
        requires
            old(self).wf(),
        ensures
            final(self).wf(),
            events_view(r@) == oneshot_events(
                old(self).registrations(),
                lookup_path@,
                watch_type,
                event,
                notification_path@,
            ),
            final(self).registrations() == unmatched(
                old(self).registrations(),
                lookup_path@,
                watch_type,
            ),
    {
        let ghost regs = self.registrations();
        let payload = WatchNotification { event_type: event, path: notification_path }.to_bytes();
        let ghost bytes = notification_bytes(event, encode_utf8(notification_path@));
        let mut rest: Vec<(SessionId, WatchInfo)> = Vec::new();
        std::mem::swap(&mut rest, &mut self.entries);
        let n = rest.len();
        let mut kept: Vec<(SessionId, WatchInfo)> = Vec::new();
        let mut events: Vec<WatchEvent> = Vec::new();
        let mut i: usize = 0;
        while rest.len() > 0
            invariant
                i + rest@.len() == n,
                i <= n,
                n == regs.len(),
                payload@ == bytes,
                forall|j: int|
                    0 <= j < rest@.len() ==> (rest@[j].0, rest@[j].1.path@, rest@[j].1.watch_type)
                        == regs[i + j],
                Seq::new(
                    kept@.len(),
                    |k: int| (kept@[k].0, kept@[k].1.path@, kept@[k].1.watch_type),
                ) == unmatched(regs.subrange(0, i as int), lookup_path@, watch_type),
                events_view(events@) == matched(
                    regs.subrange(0, i as int),
                    lookup_path@,
                    watch_type,
                ).map_values(|s: SessionId| (s, bytes)),
            decreases rest@.len(),
        {
            let e = rest.remove(0);
            let ghost r = (e.0, e.1.path@, e.1.watch_type);
            assert(r == regs[i as int]);
            assert(regs.subrange(0, i + 1).drop_last() =~= regs.subrange(0, i as int));
            let ghost kept_before = kept@;
            let ghost events_before = events@;
            let ghost m = matched(regs.subrange(0, i as int), lookup_path@, watch_type);
            if e.1.watch_type == watch_type && str_eq(e.1.path.as_str(), lookup_path) {
                let mut copy: Vec<u8> = Vec::new();
                put_bytes(&mut copy, payload.as_slice());
                events.push(WatchEvent { session_id: e.0, payload: copy });
                assert(events_view(events@) =~= events_view(events_before).push((e.0, bytes)));
                assert(m.push(e.0).map_values(|s: SessionId| (s, bytes)) =~= m.map_values(
                    |s: SessionId| (s, bytes),
                ).push((e.0, bytes)));
            } else {
                kept.push(e);
                assert(Seq::new(
                    kept@.len(),
                    |k: int| (kept@[k].0, kept@[k].1.path@, kept@[k].1.watch_type),
                ) =~= Seq::new(
                    kept_before.len(),
                    |k: int| (kept_before[k].0, kept_before[k].1.path@, kept_before[k].1.watch_type),
                ).push(r));
            }
            i = i + 1;
        }
        assert(regs.subrange(0, n as int) =~= regs);
        self.entries = kept;
        proof {
            lemma_unmatched_subseq(regs, lookup_path@, watch_type);
        }
        events
    }

    /// Fires the watches that a change of kind `event_type` at `path` reaches,
    /// and returns the notifications to deliver.
    pub fn fire(&mut self, path: &str, event_type: WatchEventType) -> (r: Vec<WatchEvent>)
        requires
            old(self).wf(),
        ensures
            final(self).wf(),
            events_view(r@) == fire_spec(old(self).registrations(), path@, event_type).0,
            final(self).registrations() == fire_spec(old(self).registrations(), path@, event_type).1,
    {
        let mut events = self.fire_oneshot(path, event_type, path, WatchType::Watch);
        let parent: Option<&str> = match str_rsplit_once(path, '/') {
            Some((p, _)) => if p.is_empty() {
                Some("/")
            } else {
                Some(p)
            },
            None => None,
        };
        proof {
            reveal_strlit("/");
        }
        assert(parent matches Some(p) ==> watch_parent(path@) == Some(p@));
        assert(parent is None ==> watch_parent(path@) is None);
        match event_type {
            WatchEventType::Created => {
                if let Some(parent_path) = parent {
                    let more = self.fire_oneshot(
                        parent_path,
                        WatchEventType::Child,
                        parent_path,
                        WatchType::ListWatch,
                    );
                    append_events(&mut events, more);
                }
            },
            WatchEventType::Deleted => {
                let more = self.fire_oneshot(
                    path,
                    WatchEventType::Child,
                    path,
                    WatchType::ListWatch,
                );
                append_events(&mut events, more);
                if let Some(parent_path) = parent {
                    let more = self.fire_oneshot(
                        parent_path,
                        WatchEventType::Child,
                        parent_path,
                        WatchType::ListWatch,
                    );
                    append_events(&mut events, more);
                }
            },
            _ => {},
        }
        events
    }
}

impl WatchState {
    /// A copy of the registrations.
    pub fn duplicate(&self) -> (r: Self)
        requires
            self.wf(),
        ensures
            r.wf(),
            r.registrations() == self.registrations(),
    {
        let mut entries: Vec<(SessionId, WatchInfo)> = Vec::new();
        let n = self.entries.len();
        for i in 0..n
            invariant
                n == self.entries@.len(),
                entries@.len() == i,
                forall|k: int|
                    0 <= k < i ==> (#[trigger] entries@[k]).0 == self.entries@[k].0
                        && entries@[k].1.path@ == self.entries@[k].1.path@
                        && entries@[k].1.watch_type == self.entries@[k].1.watch_type,
        {
            let e = &self.entries[i];
            let info = WatchInfo { path: e.1.path.clone(), watch_type: e.1.watch_type };
            entries.push((e.0, info));
        }
        let r = WatchState { entries };
        assert(r.registrations() =~= self.registrations());
        r
    }
}

/// Moves the notifications of `more` to the end of `events`.
fn append_events(events: &mut Vec<WatchEvent>, more: Vec<WatchEvent>)
    ensures
        events_view(final(events)@) == events_view(old(events)@) + events_view(more@),
{
    let mut more = more;
    let ghost m = more@;
    events.append(&mut more);
    assert(events_view(events@) =~= events_view(old(events)@) + events_view(m));
}

proof fn lemma_unmatched_subseq(regs: Seq<Registration>, path: Seq<char>, kind: WatchType)
    requires
        regs.no_duplicates(),
    ensures
        unmatched(regs, path, kind).no_duplicates(),
        forall|r: Registration| unmatched(regs, path, kind).contains(r) ==> regs.contains(r),
    decreases regs.len(),
{
    if regs.len() > 0 {
        let d = regs.drop_last();
        assert(d.no_duplicates());
        lemma_unmatched_subseq(d, path, kind);
        assert forall|r: Registration| d.contains(r) implies regs.contains(r) by {
            let j = choose|j: int| 0 <= j < d.len() && d[j] == r;
            assert(regs[j] == r);
        }
        if !d.contains(regs.last()) {
        } else {
            let j = choose|j: int| 0 <= j < d.len() && d[j] == regs.last();
            assert(regs[j] == regs[regs.len() - 1]);
        }
    }
}

proof fn lemma_without_session_subseq(regs: Seq<Registration>, sid: SessionId)
    requires
        regs.no_duplicates(),
    ensures
        without_session(regs, sid).no_duplicates(),
        forall|r: Registration| without_session(regs, sid).contains(r) ==> regs.contains(r),
    decreases regs.len(),
{
    if regs.len() > 0 {
        let d = regs.drop_last();
        assert(d.no_duplicates());
        lemma_without_session_subseq(d, sid);
        assert forall|r: Registration| d.contains(r) implies regs.contains(r) by {
            let j = choose|j: int| 0 <= j < d.len() && d[j] == r;
            assert(regs[j] == r);
        }
        if d.contains(regs.last()) {
            let j = choose|j: int| 0 <= j < d.len() && d[j] == regs.last();
            assert(regs[j] == regs[regs.len() - 1]);
        }
    }
}

// ---------------------------------------------------------------------
// Laws
// ---------------------------------------------------------------------

/// Once the registrations for a path and kind are taken away, none is left.
proof fn lemma_unmatched_has_none(regs: Seq<Registration>, path: Seq<char>, kind: WatchType)
    ensures
        matched(unmatched(regs, path, kind), path, kind) == Seq::<SessionId>::empty(),
        unmatched(unmatched(regs, path, kind), path, kind) == unmatched(regs, path, kind),
    decreases regs.len(),
{
    if regs.len() > 0 {
        lemma_unmatched_has_none(regs.drop_last(), path, kind);
        let u = unmatched(regs.drop_last(), path, kind);
        if !is_for(regs.last(), path, kind) {
            assert(u.push(regs.last()).drop_last() =~= u);
        }
    }
}

/// A one-shot data watch fires once: a change to a path notifies the
/// sessions watching it, and a second change right after notifies no one.
pub proof fn lemma_watch_fires_once(regs: Seq<Registration>, path: Seq<char>)
    ensures
        fire_spec(fire_spec(regs, path, WatchEventType::Changed).1, path, WatchEventType::Changed).0
            == Seq::<EventView>::empty(),
{
    lemma_unmatched_has_none(regs, path, WatchType::Watch);
    let r1 = unmatched(regs, path, WatchType::Watch);
    assert(matched(r1, path, WatchType::Watch).map_values(
        |s: SessionId| (s, notification_bytes(WatchEventType::Changed, encode_utf8(path))),
    ) =~= Seq::<EventView>::empty());
}

/// Registering the same watch twice is the same as registering it once.
pub proof fn lemma_register_idempotent(regs: Seq<Registration>, r: Registration)
    ensures
        registered(registered(regs, r), r) == registered(regs, r),
{
    if !regs.contains(r) {
        assert(regs.push(r)[regs.len() as int] == r);
    }
}

/// After a session's watches are cleared, it holds none.
pub proof fn lemma_clear_removes_all(regs: Seq<Registration>, sid: SessionId, path: Seq<char>, kind: WatchType)
    ensures
        !without_session(regs, sid).contains((sid, path, kind)),
    decreases regs.len(),
{
    if regs.len() > 0 {
        lemma_clear_removes_all(regs.drop_last(), sid, path, kind);
        let w = without_session(regs.drop_last(), sid);
        if regs.last().0 != sid {
            if w.push(regs.last()).contains((sid, path, kind)) {
                let i = choose|i: int| 0 <= i < w.push(regs.last()).len() && w.push(regs.last())[i] == (sid, path, kind);
                if i < w.len() {
                    assert(w.contains((sid, path, kind)));
                }
            }
        }
    }
}

/// The notifications that are not for session `sid`, in order.
pub open spec fn not_for(evs: Seq<EventView>, sid: SessionId) -> Seq<EventView> {
    evs.filter(other_than(sid))
}

/// Whether a notification is for a session other than `sid`.
pub open spec fn other_than(sid: SessionId) -> spec_fn(EventView) -> bool {
    |e: EventView| e.0 != sid
}

/// Dropping a session's registrations, then the ones a firing takes, is
/// dropping them the other way round.
proof fn lemma_unmatched_without(regs: Seq<Registration>, sid: SessionId, path: Seq<char>, kind: WatchType)
    ensures
        unmatched(without_session(regs, sid), path, kind) == without_session(unmatched(regs, path, kind), sid),
    decreases regs.len(),
{
    if regs.len() > 0 {
        lemma_unmatched_without(regs.drop_last(), sid, path, kind);
        let w = without_session(regs.drop_last(), sid);
        let u = unmatched(regs.drop_last(), path, kind);
        let x = regs.last();
        assert(w.push(x).drop_last() =~= w);
        assert(u.push(x).drop_last() =~= u);
    }
}

/// The notifications of a one-shot firing on a session's registrations
/// dropped are the firing's notifications that are not for that session.
proof fn lemma_oneshot_without(
    regs: Seq<Registration>,
    sid: SessionId,
    lookup: Seq<char>,
    kind: WatchType,
    event: WatchEventType,
    notified: Seq<char>,
)
    ensures
        oneshot_events(without_session(regs, sid), lookup, kind, event, notified) == not_for(
            oneshot_events(regs, lookup, kind, event, notified),
            sid,
        ),
    decreases regs.len(),
{
    let f = notify(event, notified);
    let pred = other_than(sid);
    if regs.len() == 0 {
        assert(oneshot_events(regs, lookup, kind, event, notified) =~= Seq::<EventView>::empty());
        assert(oneshot_events(without_session(regs, sid), lookup, kind, event, notified) =~= Seq::<EventView>::empty());
    } else {
        let init = regs.drop_last();
        let x = regs.last();
        lemma_oneshot_without(init, sid, lookup, kind, event, notified);
        let w = without_session(init, sid);
        let m = matched(init, lookup, kind);
        let mw = matched(w, lookup, kind);
        let e0 = m.map_values(f);
        let ew = mw.map_values(f);
        assert(ew == e0.filter(pred));
        let y = f(x.0);
        assert(y.0 == x.0);
        assert(w.push(x).drop_last() =~= w);
        assert(w.push(x).last() == x);
        if is_for(x, lookup, kind) {
            assert(matched(regs, lookup, kind) == m.push(x.0));
            assert(m.push(x.0).map_values(f) =~= e0.push(y));
            e0.lemma_filter_push(y, pred);
            if x.0 != sid {
                assert(pred(y));
                assert(e0.push(y).filter(pred) == e0.filter(pred).push(y));
                assert(without_session(regs, sid) == w.push(x));
                assert(matched(w.push(x), lookup, kind) == mw.push(x.0));
                assert(mw.push(x.0).map_values(f) =~= ew.push(y));
            } else {
                assert(!pred(y));
                assert(e0.push(y).filter(pred) == e0.filter(pred));
                assert(without_session(regs, sid) == w);
            }
        } else {
            assert(matched(regs, lookup, kind) == m);
            if x.0 != sid {
                assert(without_session(regs, sid) == w.push(x));
                assert(matched(w.push(x), lookup, kind) == mw);
            } else {
                assert(without_session(regs, sid) == w);
            }
        }
    }
}

/// Clearing a session's watches and firing commute: firing after the clear
/// gives exactly the notifications the firing would have given, without
/// those for the cleared session, in the same order, and leaves the
/// registrations it would have left, without the cleared session's. So
/// every other session hears the same, the cleared session hears nothing,
/// and a session that held no watch is not touched by the clear.
pub proof fn lemma_clear_then_fire(regs: Seq<Registration>, sid: SessionId, path: Seq<char>, event: WatchEventType)
    ensures
        fire_spec(without_session(regs, sid), path, event).0 == not_for(fire_spec(regs, path, event).0, sid),
        fire_spec(without_session(regs, sid), path, event).1 == without_session(fire_spec(regs, path, event).1, sid),
        forall|i: int|
            0 <= i < fire_spec(without_session(regs, sid), path, event).0.len() ==> (#[trigger] fire_spec(
                without_session(regs, sid),
                path,
                event,
            ).0[i]).0 != sid,
        (forall|i: int| 0 <= i < regs.len() ==> (#[trigger] regs[i]).0 != sid) ==> without_session(regs, sid)
            == regs,
{
    let pred = other_than(sid);
    let ws = without_session(regs, sid);
    lemma_oneshot_without(regs, sid, path, WatchType::Watch, event, path);
    lemma_unmatched_without(regs, sid, path, WatchType::Watch);
    let r1 = unmatched(regs, path, WatchType::Watch);
    let e1 = oneshot_events(regs, path, WatchType::Watch, event, path);
    match event {
        WatchEventType::Created => {
            if let Some(p) = watch_parent(path) {
                lemma_oneshot_without(r1, sid, p, WatchType::ListWatch, WatchEventType::Child, p);
                lemma_unmatched_without(r1, sid, p, WatchType::ListWatch);
                Seq::filter_distributes_over_add(
                    e1,
                    oneshot_events(r1, p, WatchType::ListWatch, WatchEventType::Child, p),
                    pred,
                );
            }
        },
        WatchEventType::Deleted => {
            lemma_oneshot_without(r1, sid, path, WatchType::ListWatch, WatchEventType::Child, path);
            lemma_unmatched_without(r1, sid, path, WatchType::ListWatch);
            let e2 = oneshot_events(r1, path, WatchType::ListWatch, WatchEventType::Child, path);
            let r2 = unmatched(r1, path, WatchType::ListWatch);
            Seq::filter_distributes_over_add(e1, e2, pred);
            if let Some(p) = watch_parent(path) {
                lemma_oneshot_without(r2, sid, p, WatchType::ListWatch, WatchEventType::Child, p);
                lemma_unmatched_without(r2, sid, p, WatchType::ListWatch);
                Seq::filter_distributes_over_add(
                    e1 + e2,
                    oneshot_events(r2, p, WatchType::ListWatch, WatchEventType::Child, p),
                    pred,
                );
            }
        },
        _ => {},
    }
    let evs = fire_spec(ws, path, event).0;
    assert forall|i: int| 0 <= i < evs.len() implies (#[trigger] evs[i]).0 != sid by {
        fire_spec(regs, path, event).0.lemma_filter_pred(pred, i);
    }
    lemma_without_absent(regs, sid);
}

/// Dropping the registrations of a session that holds none changes nothing.
proof fn lemma_without_absent(regs: Seq<Registration>, sid: SessionId)
    ensures
        (forall|i: int| 0 <= i < regs.len() ==> (#[trigger] regs[i]).0 != sid) ==> without_session(regs, sid)
            == regs,
    decreases regs.len(),
{
    if regs.len() > 0 {
        lemma_without_absent(regs.drop_last(), sid);
        if forall|i: int| 0 <= i < regs.len() ==> (#[trigger] regs[i]).0 != sid {
            assert(regs.last() == regs[regs.len() - 1]);
            assert forall|i: int| 0 <= i < regs.drop_last().len() implies (#[trigger] regs.drop_last()[i]).0 != sid by {
                assert(regs.drop_last()[i] == regs[i]);
            }
            assert(regs.drop_last().push(regs.last()) =~= regs);
        }
    }
}

/// A registration for `path` in kind `kind` puts its session among the
/// matched ones; every matched session held such a registration.
proof fn lemma_matched_members(regs: Seq<Registration>, path: Seq<char>, kind: WatchType)
    ensures
        forall|s: SessionId| regs.contains((s, path, kind)) ==> #[trigger] matched(regs, path, kind).contains(s),
        forall|i: int|
            0 <= i < matched(regs, path, kind).len() ==> regs.contains((#[trigger] matched(regs, path, kind)[i], path, kind)),
    decreases regs.len(),
{
    if regs.len() > 0 {
        let init = regs.drop_last();
        let x = regs.last();
        lemma_matched_members(init, path, kind);
        let m = matched(init, path, kind);
        assert forall|s: SessionId| regs.contains((s, path, kind)) implies #[trigger] matched(regs, path, kind).contains(s) by {
            let j = choose|j: int| 0 <= j < regs.len() && regs[j] == (s, path, kind);
            if j < init.len() {
                assert(init[j] == regs[j]);
                assert(init.contains((s, path, kind)));
                assert(m.contains(s));
                let t = choose|t: int| 0 <= t < m.len() && m[t] == s;
                if is_for(x, path, kind) {
                    assert(m.push(x.0)[t] == s);
                }
            } else {
                assert(x == (s, path, kind));
                assert(m.push(x.0)[m.len() as int] == s);
            }
        }
        assert forall|i: int|
            0 <= i < matched(regs, path, kind).len() implies regs.contains((#[trigger] matched(regs, path, kind)[i], path, kind)) by {
            if is_for(x, path, kind) && i == m.len() {
                assert(regs[regs.len() - 1] == x);
            } else {
                assert(matched(regs, path, kind)[i] == m[i]);
                assert(init.contains((m[i], path, kind)));
                let j = choose|j: int| 0 <= j < init.len() && init[j] == (m[i], path, kind);
                assert(regs[j] == init[j]);
            }
        }
    }
}

/// A firing keeps every registration it does not match, and keeps no
/// other.
proof fn lemma_unmatched_members(regs: Seq<Registration>, path: Seq<char>, kind: WatchType)
    ensures
        forall|r: Registration| #[trigger] unmatched(regs, path, kind).contains(r) <==> (regs.contains(r) && !is_for(r, path, kind)),
    decreases regs.len(),
{
    if regs.len() > 0 {
        let init = regs.drop_last();
        let x = regs.last();
        lemma_unmatched_members(init, path, kind);
        let u = unmatched(init, path, kind);
        assert forall|r: Registration| #[trigger] unmatched(regs, path, kind).contains(r) <==> (regs.contains(r) && !is_for(r, path, kind)) by {
            if regs.contains(r) {
                let j = choose|j: int| 0 <= j < regs.len() && regs[j] == r;
                if j < init.len() {
                    assert(init[j] == regs[j]);
                }
            }
            if init.contains(r) {
                let j = choose|j: int| 0 <= j < init.len() && init[j] == r;
                assert(regs[j] == init[j]);
            }
            if !is_for(x, path, kind) {
                assert(u.push(x)[u.len() as int] == x);
                if u.push(x).contains(r) {
                    let j = choose|j: int| 0 <= j < u.push(x).len() && u.push(x)[j] == r;
                    if j < u.len() {
                        assert(u.contains(r));
                    }
                }
                if u.contains(r) {
                    let j = choose|j: int| 0 <= j < u.len() && u[j] == r;
                    assert(u.push(x)[j] == r);
                }
            }
            if regs.contains(r) && !init.contains(r) {
                let j = choose|j: int| 0 <= j < regs.len() && regs[j] == r;
                if j < init.len() {
                    assert(init[j] == r);
                }
                assert(r == x);
            }
        }
    }
}

/// The notifications of a one-shot firing: one for each session holding a
/// matching registration, and none for any other.
proof fn lemma_oneshot_members(
    regs: Seq<Registration>,
    lookup: Seq<char>,
    kind: WatchType,
    event: WatchEventType,
    notified: Seq<char>,
)
    ensures
        forall|s: SessionId|
            regs.contains((s, lookup, kind)) ==> #[trigger] oneshot_events(regs, lookup, kind, event, notified).contains(
                (s, notification_bytes(event, encode_utf8(notified))),
            ),
        forall|i: int|
            0 <= i < oneshot_events(regs, lookup, kind, event, notified).len() ==> {
                let e = #[trigger] oneshot_events(regs, lookup, kind, event, notified)[i];
                e.1 == notification_bytes(event, encode_utf8(notified)) && regs.contains((e.0, lookup, kind))
            },
{
    lemma_matched_members(regs, lookup, kind);
    let m = matched(regs, lookup, kind);
    let f = notify(event, notified);
    assert forall|s: SessionId| regs.contains((s, lookup, kind)) implies #[trigger] oneshot_events(regs, lookup, kind, event, notified).contains(
        (s, notification_bytes(event, encode_utf8(notified))),
    ) by {
        assert(m.contains(s));
        let t = choose|t: int| 0 <= t < m.len() && m[t] == s;
        assert(m.map_values(f)[t] == f(s));
    }
    assert forall|i: int| 0 <= i < oneshot_events(regs, lookup, kind, event, notified).len() implies {
        let e = #[trigger] oneshot_events(regs, lookup, kind, event, notified)[i];
        e.1 == notification_bytes(event, encode_utf8(notified)) && regs.contains((e.0, lookup, kind))
    } by {
        assert(m.map_values(f)[i] == f(m[i]));
        assert(regs.contains((m[i], lookup, kind)));
    }
}

/// A deletion of `path` tells each session watching the node's data that
/// it was deleted, and each session watching the children of the node or of
/// its parent `q` that those children changed; it tells no one anything
/// else.
pub proof fn lemma_delete_notifies(regs: Seq<Registration>, path: Seq<char>, s: SessionId)
    ensures
        ({
            let evs = fire_spec(regs, path, WatchEventType::Deleted).0;
            &&& regs.contains((s, path, WatchType::Watch)) ==> evs.contains(
                (s, notification_bytes(WatchEventType::Deleted, encode_utf8(path))),
            )
            &&& regs.contains((s, path, WatchType::ListWatch)) ==> evs.contains(
                (s, notification_bytes(WatchEventType::Child, encode_utf8(path))),
            )
            &&& (watch_parent(path) matches Some(q) && regs.contains((s, q, WatchType::ListWatch))) ==> evs.contains(
                (s, notification_bytes(WatchEventType::Child, encode_utf8(watch_parent(path)->Some_0))),
            )
            &&& forall|i: int| 0 <= i < evs.len() ==> {
                ||| (#[trigger] evs[i]).1 == notification_bytes(WatchEventType::Deleted, encode_utf8(path))
                    && regs.contains((evs[i].0, path, WatchType::Watch))
                ||| evs[i].1 == notification_bytes(WatchEventType::Child, encode_utf8(path))
                    && regs.contains((evs[i].0, path, WatchType::ListWatch))
                ||| watch_parent(path) matches Some(q) && evs[i].1 == notification_bytes(WatchEventType::Child, encode_utf8(q))
                    && regs.contains((evs[i].0, q, WatchType::ListWatch))
            }
        }),
{
    let r1 = unmatched(regs, path, WatchType::Watch);
    let e1 = oneshot_events(regs, path, WatchType::Watch, WatchEventType::Deleted, path);
    let e2 = oneshot_events(r1, path, WatchType::ListWatch, WatchEventType::Child, path);
    let r2 = unmatched(r1, path, WatchType::ListWatch);
    lemma_unmatched_members(regs, path, WatchType::Watch);
    lemma_unmatched_members(r1, path, WatchType::ListWatch);
    lemma_oneshot_members(regs, path, WatchType::Watch, WatchEventType::Deleted, path);
    lemma_oneshot_members(r1, path, WatchType::ListWatch, WatchEventType::Child, path);
    let evs = fire_spec(regs, path, WatchEventType::Deleted).0;
    if regs.contains((s, path, WatchType::ListWatch)) {
        assert(r1.contains((s, path, WatchType::ListWatch)));
    }
    match watch_parent(path) {
        Some(q) => {
            let e3 = oneshot_events(r2, q, WatchType::ListWatch, WatchEventType::Child, q);
            lemma_oneshot_members(r2, q, WatchType::ListWatch, WatchEventType::Child, q);
            assert(evs == e1 + e2 + e3);
            if regs.contains((s, path, WatchType::Watch)) {
                assert(e1.contains((s, notification_bytes(WatchEventType::Deleted, encode_utf8(path)))));
                let t = choose|t: int| 0 <= t < e1.len() && e1[t] == (s, notification_bytes(WatchEventType::Deleted, encode_utf8(path)));
                assert(evs[t] == e1[t]);
            }
            if regs.contains((s, path, WatchType::ListWatch)) {
                assert(e2.contains((s, notification_bytes(WatchEventType::Child, encode_utf8(path)))));
                let t = choose|t: int| 0 <= t < e2.len() && e2[t] == (s, notification_bytes(WatchEventType::Child, encode_utf8(path)));
                assert(evs[e1.len() + t] == e2[t]);
            }
            if regs.contains((s, q, WatchType::ListWatch)) {
                if q == path {
                    assert(e2.contains((s, notification_bytes(WatchEventType::Child, encode_utf8(path)))));
                    let t = choose|t: int| 0 <= t < e2.len() && e2[t] == (s, notification_bytes(WatchEventType::Child, encode_utf8(path)));
                    assert(evs[e1.len() + t] == e2[t]);
                } else {
                    assert(r1.contains((s, q, WatchType::ListWatch)));
                    assert(r2.contains((s, q, WatchType::ListWatch)));
                    assert(e3.contains((s, notification_bytes(WatchEventType::Child, encode_utf8(q)))));
                    let t = choose|t: int| 0 <= t < e3.len() && e3[t] == (s, notification_bytes(WatchEventType::Child, encode_utf8(q)));
                    assert(evs[e1.len() + e2.len() + t] == e3[t]);
                }
            }
            assert forall|i: int| 0 <= i < evs.len() implies {
                ||| (#[trigger] evs[i]).1 == notification_bytes(WatchEventType::Deleted, encode_utf8(path))
                    && regs.contains((evs[i].0, path, WatchType::Watch))
                ||| evs[i].1 == notification_bytes(WatchEventType::Child, encode_utf8(path))
                    && regs.contains((evs[i].0, path, WatchType::ListWatch))
                ||| watch_parent(path) matches Some(q) && evs[i].1 == notification_bytes(WatchEventType::Child, encode_utf8(q))
                    && regs.contains((evs[i].0, q, WatchType::ListWatch))
            } by {
                if i < e1.len() {
                    assert(evs[i] == e1[i]);
                } else if i < e1.len() + e2.len() {
                    assert(evs[i] == e2[i - e1.len()]);
                    assert(r1.contains((evs[i].0, path, WatchType::ListWatch)));
                } else {
                    assert(evs[i] == e3[i - e1.len() - e2.len()]);
                    assert(r2.contains((evs[i].0, q, WatchType::ListWatch)));
                    assert(r1.contains((evs[i].0, q, WatchType::ListWatch)));
                }
            }
        },
        None => {
            assert(evs == e1 + e2);
            if regs.contains((s, path, WatchType::Watch)) {
                assert(e1.contains((s, notification_bytes(WatchEventType::Deleted, encode_utf8(path)))));
                let t = choose|t: int| 0 <= t < e1.len() && e1[t] == (s, notification_bytes(WatchEventType::Deleted, encode_utf8(path)));
                assert(evs[t] == e1[t]);
            }
            if regs.contains((s, path, WatchType::ListWatch)) {
                assert(e2.contains((s, notification_bytes(WatchEventType::Child, encode_utf8(path)))));
                let t = choose|t: int| 0 <= t < e2.len() && e2[t] == (s, notification_bytes(WatchEventType::Child, encode_utf8(path)));
                assert(evs[e1.len() + t] == e2[t]);
            }
            assert forall|i: int| 0 <= i < evs.len() implies {
                ||| (#[trigger] evs[i]).1 == notification_bytes(WatchEventType::Deleted, encode_utf8(path))
                    && regs.contains((evs[i].0, path, WatchType::Watch))
                ||| evs[i].1 == notification_bytes(WatchEventType::Child, encode_utf8(path))
                    && regs.contains((evs[i].0, path, WatchType::ListWatch))
                ||| watch_parent(path) matches Some(q) && evs[i].1 == notification_bytes(WatchEventType::Child, encode_utf8(q))
                    && regs.contains((evs[i].0, q, WatchType::ListWatch))
            } by {
                if i < e1.len() {
                    assert(evs[i] == e1[i]);
                } else {
                    assert(evs[i] == e2[i - e1.len()]);
                    assert(r1.contains((evs[i].0, path, WatchType::ListWatch)));
                }
            }
        },
    }
}

/// A creation of `path` tells each session watching its data (waiting for
/// it to exist) that it was created, and each session watching the
/// children of its parent that those children changed; it tells no one
/// anything else.
pub proof fn lemma_create_notifies(regs: Seq<Registration>, path: Seq<char>, s: SessionId)
    ensures
        ({
            let evs = fire_spec(regs, path, WatchEventType::Created).0;
            &&& regs.contains((s, path, WatchType::Watch)) ==> evs.contains(
                (s, notification_bytes(WatchEventType::Created, encode_utf8(path))),
            )
            &&& (watch_parent(path) matches Some(q) && q != path && regs.contains((s, q, WatchType::ListWatch))) ==> evs.contains(
                (s, notification_bytes(WatchEventType::Child, encode_utf8(watch_parent(path)->Some_0))),
            )
            &&& forall|i: int| 0 <= i < evs.len() ==> {
                ||| (#[trigger] evs[i]).1 == notification_bytes(WatchEventType::Created, encode_utf8(path))
                    && regs.contains((evs[i].0, path, WatchType::Watch))
                ||| watch_parent(path) matches Some(q) && evs[i].1 == notification_bytes(WatchEventType::Child, encode_utf8(q))
                    && regs.contains((evs[i].0, q, WatchType::ListWatch))
            }
        }),
{
    let r1 = unmatched(regs, path, WatchType::Watch);
    let e1 = oneshot_events(regs, path, WatchType::Watch, WatchEventType::Created, path);
    lemma_unmatched_members(regs, path, WatchType::Watch);
    lemma_oneshot_members(regs, path, WatchType::Watch, WatchEventType::Created, path);
    let evs = fire_spec(regs, path, WatchEventType::Created).0;
    if regs.contains((s, path, WatchType::Watch)) {
        assert(e1.contains((s, notification_bytes(WatchEventType::Created, encode_utf8(path)))));
        let t = choose|t: int| 0 <= t < e1.len() && e1[t] == (s, notification_bytes(WatchEventType::Created, encode_utf8(path)));
        assert(evs[t] == e1[t]);
    }
    match watch_parent(path) {
        Some(q) => {
            let e2 = oneshot_events(r1, q, WatchType::ListWatch, WatchEventType::Child, q);
            lemma_oneshot_members(r1, q, WatchType::ListWatch, WatchEventType::Child, q);
            assert(evs == e1 + e2);
            if q != path && regs.contains((s, q, WatchType::ListWatch)) {
                assert(r1.contains((s, q, WatchType::ListWatch)));
                assert(e2.contains((s, notification_bytes(WatchEventType::Child, encode_utf8(q)))));
                let t = choose|t: int| 0 <= t < e2.len() && e2[t] == (s, notification_bytes(WatchEventType::Child, encode_utf8(q)));
                assert(evs[e1.len() + t] == e2[t]);
            }
            assert forall|i: int| 0 <= i < evs.len() implies {
                ||| (#[trigger] evs[i]).1 == notification_bytes(WatchEventType::Created, encode_utf8(path))
                    && regs.contains((evs[i].0, path, WatchType::Watch))
                ||| watch_parent(path) matches Some(q) && evs[i].1 == notification_bytes(WatchEventType::Child, encode_utf8(q))
                    && regs.contains((evs[i].0, q, WatchType::ListWatch))
            } by {
                if i < e1.len() {
                    assert(evs[i] == e1[i]);
                } else {
                    assert(evs[i] == e2[i - e1.len()]);
                    assert(r1.contains((evs[i].0, q, WatchType::ListWatch)));
                }
            }
        },
        None => {
            assert forall|i: int| 0 <= i < evs.len() implies {
                ||| (#[trigger] evs[i]).1 == notification_bytes(WatchEventType::Created, encode_utf8(path))
                    && regs.contains((evs[i].0, path, WatchType::Watch))
                ||| watch_parent(path) matches Some(q) && evs[i].1 == notification_bytes(WatchEventType::Child, encode_utf8(q))
                    && regs.contains((evs[i].0, q, WatchType::ListWatch))
            } by {
                assert(evs[i] == e1[i]);
            }
        },
    }
}

/// A data change at `path` tells each session watching its data that it
/// changed, and tells no one anything else.
pub proof fn lemma_change_notifies(regs: Seq<Registration>, path: Seq<char>, s: SessionId)
    ensures
        ({
            let evs = fire_spec(regs, path, WatchEventType::Changed).0;
            &&& regs.contains((s, path, WatchType::Watch)) ==> evs.contains(
                (s, notification_bytes(WatchEventType::Changed, encode_utf8(path))),
            )
            &&& forall|i: int| 0 <= i < evs.len() ==> (#[trigger] evs[i]).1 == notification_bytes(
                WatchEventType::Changed,
                encode_utf8(path),
            ) && regs.contains((evs[i].0, path, WatchType::Watch))
        }),
{
    lemma_oneshot_members(regs, path, WatchType::Watch, WatchEventType::Changed, path);
}

} // verus!
