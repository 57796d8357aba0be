//! Session expiry, bucketed by time.
//!
//! Every session's deadline is rounded up to a multiple of the interval, so
//! sessions that expire around the same time land in the same bucket. The
//! queue keeps its entries ordered by deadline, which lets the expired ones
//! be read off the front.

use vstd::prelude::*;
use crate::assoc::{
    assoc_map, has_key, keys_unique, lemma_assoc_empty, lemma_assoc_index, lemma_assoc_remove,
    lemma_assoc_push,
};
use crate::protocol::SessionId;

verus! {

/// Rust's integer division, which rounds toward zero, for a positive divisor.
pub open spec fn trunc_div(a: int, b: int) -> int {
    if a >= 0 {
        a / b
    } else {
        -((-a) / b)
    }
}

/// The bucket a session touched at `now` with timeout `timeout_ms` expires
/// in: its deadline rounded up to a multiple of the interval (for a
/// non-negative deadline; toward zero for a negative one).
pub open spec fn expiry_bucket(now: int, timeout_ms: int, interval_ms: int) -> int {
    trunc_div(now + timeout_ms + interval_ms - 1, interval_ms) * interval_ms
}

/// Whether the deadline computation for these inputs stays within `i64`.
pub open spec fn bucket_fits(now: i64, timeout_ms: i64, interval_ms: i64) -> bool {
    &&& i64::MIN <= now + timeout_ms <= i64::MAX
    &&& i64::MIN <= now + timeout_ms + interval_ms <= i64::MAX
    &&& i64::MIN <= now + timeout_ms + interval_ms - 1 <= i64::MAX
}

/// Whether the deadline of a session touched at `now` with timeout
/// `timeout_ms` can be computed within `i64` for buckets `interval_ms` wide.
pub fn fits_bucket(now: i64, timeout_ms: i64, interval_ms: i64) -> (r: bool)
    ensures
        r == bucket_fits(now, timeout_ms, interval_ms),
{
    match now.checked_add(timeout_ms) {
        None => false,
        Some(a) => match a.checked_add(interval_ms) {
            None => false,
            Some(b) => b.checked_sub(1).is_some(),
        },
    }
}

/// Deadlines are in non-decreasing order.
pub open spec fn sorted_by_expiry(s: Seq<(SessionId, i64)>) -> bool {
    forall|i: int, j: int| 0 <= i < j < s.len() ==> #[trigger] s[i].1 <= #[trigger] s[j].1
}

/// The sessions and their expiry buckets.
pub struct SessionExpiryQueue {
    entries: Vec<(SessionId, i64)>,
    interval_ms: i64,
}

impl SessionExpiryQueue {
    /// Each session's expiry bucket.
    pub closed spec fn expiry(&self) -> Map<SessionId, i64> {
        assoc_map(self.entries@)
    }

    /// The bucket width in milliseconds.
    pub closed spec fn interval(&self) -> i64 {
        self.interval_ms
    }

    /// The queue's internal invariant.
    pub closed spec fn wf(&self) -> bool {
        keys_unique(self.entries@) && sorted_by_expiry(self.entries@)
    }

    /// An empty queue with buckets `interval_ms` wide.
    pub fn new(interval_ms: i64) -> (r: Self)
        ensures
            r.wf(),
            r.expiry() == Map::<SessionId, i64>::empty(),
            r.interval() == interval_ms,
    {
        proof {
            lemma_assoc_empty::<SessionId, i64>();
        }
        Self { entries: Vec::new(), interval_ms }
    }

    /// The bucket width in milliseconds.
    pub(crate) fn interval_ms(&self) -> (r: i64)
        ensures
            r == self.interval(),
    {
        self.interval_ms
    }

    /// Index of `id`'s entry.
    fn find(&self, id: SessionId) -> (r: Option<usize>)
        requires
            self.wf(),
        ensures
            match r {
                Some(i) => i < self.entries@.len() && self.entries@[i as int].0 == id,
                None => !has_key(self.entries@, id),
            },
    {
        let n = self.entries.len();
        for i in 0..n
            invariant
                n == self.entries@.len(),
                forall|j: int| 0 <= j < i ==> self.entries@[j].0 != id,
        {
            if self.entries[i].0 == id {
                return Some(i);
            }
        }
        None
    }

    /// Removes `id`'s entry, if any. Returns whether it had one.
    pub fn remove(&mut self, id: SessionId) -> (r: bool)
        requires
            old(self).wf(),
        ensures
            final(self).wf(),
            r == old(self).expiry().contains_key(id),
            final(self).expiry() == old(self).expiry().remove(id),
            final(self).interval() == old(self).interval(),
    {
        match self.find(id) {
            Some(i) => {
                let ghost before = self.entries@;
                self.entries.remove(i);
                proof {
                    lemma_assoc_remove(before, i as int);
                    assert forall|a: int, b: int| 0 <= a < b < self.entries@.len() implies #[trigger] self.entries@[a].1
                        <= #[trigger] self.entries@[b].1 by {
                        let a2 = if a < i { a } else { a + 1 };
                        let b2 = if b < i { b } else { b + 1 };
                        assert(self.entries@[a] == before[a2]);
                        assert(self.entries@[b] == before[b2]);
                    }
                }
                true
            },
            None => {
                assert(old(self).expiry().remove(id) =~= old(self).expiry());
                false
            },
        }
    }

    /// Moves `id` to the bucket of a deadline `timeout_ms` after `now`.
    pub fn touch(&mut self, id: SessionId, timeout_ms: i64, now: i64)
        requires
            old(self).wf(),
            old(self).interval() > 0,
            bucket_fits(now, timeout_ms, old(self).interval()),
        ensures
            final(self).wf(),
            final(self).interval() == old(self).interval(),
            final(self).expiry() == old(self).expiry().insert(
                id,
                expiry_bucket(now as int, timeout_ms as int, old(self).interval() as int) as i64,
            ),
    {
        self.remove(id);
        let ghost mid = self.entries@;
        let interval = self.interval_ms;
        let x = now + timeout_ms + interval - 1;
        let q = x / interval;
        proof {
            lemma_bucket_bounds(x as int, interval as int);
        }
        let bucket = q * interval;
        assert(bucket == expiry_bucket(now as int, timeout_ms as int, interval as int));
        // Insert after every entry due no later than the new deadline.
        let n = self.entries.len();
        let mut p: usize = 0;
        while p < n && self.entries[p].1 <= bucket
            invariant
                p <= n,
                n == self.entries@.len(),
                forall|j: int| 0 <= j < p ==> self.entries@[j].1 <= bucket,
            decreases n - p,
        {
            p = p + 1;
        }
        proof {
            assert(!has_key(mid, id)) by {
                if has_key(mid, id) {
                    let j = choose|j: int| 0 <= j < mid.len() && #[trigger] mid[j].0 == id;
                    lemma_assoc_index(mid, j);
                }
            }
            lemma_assoc_insert_at(mid, p as int, id, bucket);
        }
        self.entries.insert(p, (id, bucket));
        proof {
            let s = self.entries@;
            assert forall|a: int, b: int| 0 <= a < b < s.len() implies #[trigger] s[a].1
                <= #[trigger] s[b].1 by {
                if a < p && b < p + 1 {
                    if b == p {
                        assert(mid[a].1 <= bucket);
                    } else {
                        assert(s[a] == mid[a] && s[b] == mid[b]);
                    }
                } else if a == p {
                    assert(s[b] == mid[b - 1]);
                    if p < n {
                        assert(!(mid[p as int].1 <= bucket));
                        assert(mid[p as int].1 <= mid[b - 1].1);
                    }
                } else if a < p {
                    assert(s[a] == mid[a] && s[b] == mid[b - 1]);
                } else {
                    assert(s[a] == mid[a - 1] && s[b] == mid[b - 1]);
                }
            }
        }
    }

    /// The sessions whose bucket is at or before `now`, earliest bucket first.
    pub fn get_expired(&self, now: i64) -> (r: Vec<SessionId>)
        requires
            self.wf(),
        ensures
            r@.no_duplicates(),
            forall|id: SessionId|
                r@.contains(id) <==> (self.expiry().contains_key(id) && self.expiry()[id] <= now),
            forall|i: int, j: int|
                0 <= i < j < r@.len() ==> self.expiry()[#[trigger] r@[i]] <= self.expiry()[#[trigger] r@[j]],
    {
        let n = self.entries.len();
        let mut r: Vec<SessionId> = Vec::new();
        let mut i: usize = 0;
        while i < n && self.entries[i].1 <= now
            invariant
                i <= n,
                n == self.entries@.len(),
                self.wf(),
                r@ == self.entries@.subrange(0, i as int).map_values(|e: (SessionId, i64)| e.0),
                forall|j: int| 0 <= j < i ==> self.entries@[j].1 <= now,
            decreases n - i,
        {
            r.push(self.entries[i].0);
            assert(self.entries@.subrange(0, i + 1) =~= self.entries@.subrange(0, i as int).push(
                self.entries@[i as int],
            ));
            i = i + 1;
        }
        proof {
            let s = self.entries@;
            assert forall|a: int| 0 <= a < r@.len() implies r@[a] == s[a].0 && #[trigger] self.expiry()[r@[a]] == s[a].1 by {
                lemma_assoc_index(s, a);
            }
            assert forall|a: int, b: int| 0 <= a < b < r@.len() implies r@[a] != r@[b] by {
                assert(r@[a] == s[a].0 && r@[b] == s[b].0);
            }
            assert forall|id: SessionId|
                r@.contains(id) <==> (self.expiry().contains_key(id) && self.expiry()[id] <= now) by {
                if r@.contains(id) {
                    let a = choose|a: int| 0 <= a < r@.len() && r@[a] == id;
                    lemma_assoc_index(s, a);
                }
                if self.expiry().contains_key(id) && self.expiry()[id] <= now {
                    let j = choose|j: int| 0 <= j < s.len() && #[trigger] s[j].0 == id;
                    lemma_assoc_index(s, j);
                    if j >= i {
                        assert(!(s[i as int].1 <= now));
                        assert(s[i as int].1 <= s[j].1);
                    }
                    assert(r@[j] == id);
                }
            }
            assert forall|a: int, b: int| 0 <= a < b < r@.len() implies self.expiry()[#[trigger] r@[a]]
                <= self.expiry()[#[trigger] r@[b]] by {
                lemma_assoc_index(s, a);
                lemma_assoc_index(s, b);
            }
        }
        r
    }
}

impl Clone for SessionExpiryQueue {
    fn clone(&self) -> (r: Self)
        ensures
            r.expiry() == self.expiry(),
            r.interval() == self.interval(),
            self.wf() ==> r.wf(),
    {
        let mut entries: Vec<(SessionId, i64)> = Vec::new();
        for i in 0..self.entries.len()
            invariant
                entries@ == self.entries@.subrange(0, i as int),
        {
            let e = self.entries[i];
            entries.push(e);
            assert(self.entries@.subrange(0, i + 1) =~= self.entries@.subrange(0, i as int).push(e));
        }
        assert(self.entries@.subrange(0, self.entries@.len() as int) =~= self.entries@);
        let r = Self { entries, interval_ms: self.interval_ms };
        assert(r.entries@ == self.entries@);
        r
    }
}

impl SessionExpiryQueue {
    /// A copy of the queue.
    pub fn duplicate(&self) -> (r: Self)
        requires
            self.wf(),
        ensures
            r.wf(),
            r.expiry() == self.expiry(),
            r.interval() == self.interval(),
    {
        self.clone()
    }
}

/// The rounded deadline lies between zero and the unrounded one.
proof fn lemma_bucket_bounds(x: int, d: int)
    requires
        d > 0,
        i64::MIN <= x <= i64::MAX,
    ensures
        i64::MIN <= trunc_div(x, d) * d <= i64::MAX,
{
    if x >= 0 {
        assert(0 <= (x / d) * d <= x) by (nonlinear_arith)
            requires
                x >= 0,
                d > 0,
        ;
    } else {
        let y = -x;
        assert(0 <= (y / d) * d <= y) by (nonlinear_arith)
            requires
                y >= 0,
                d > 0,
        ;
        assert(trunc_div(x, d) * d == -((y / d) * d)) by (nonlinear_arith)
            requires
                trunc_div(x, d) == -(y / d),
        ;
    }
}

/// A session's deadline is never before the moment it was touched plus its
/// timeout, and less than one interval after it: buckets round the deadline
/// up (for a non-negative deadline).
pub proof fn lemma_bucket_covers_timeout(now: int, timeout_ms: int, interval_ms: int)
    requires
        interval_ms > 0,
        now + timeout_ms >= 0,
    ensures
        now + timeout_ms <= expiry_bucket(now, timeout_ms, interval_ms) < now + timeout_ms + interval_ms,
{
    let x = now + timeout_ms;
    let d = interval_ms;
    assert(x <= ((x + d - 1) / d) * d < x + d) by (nonlinear_arith)
        requires
            x >= 0,
            d > 0,
    ;
}

/// Inserting a pair with a new key at any position inserts it into the map.
pub proof fn lemma_assoc_insert_at<V>(s: Seq<(SessionId, V)>, p: int, k: SessionId, v: V)
    requires
        keys_unique(s),
        !has_key(s, k),
        0 <= p <= s.len(),
    ensures
        keys_unique(s.insert(p, (k, v))),
        assoc_map(s.insert(p, (k, v))) == assoc_map(s).insert(k, v),
{
    let t = s.insert(p, (k, v));
    let u = s.push((k, v));
    lemma_assoc_push(s, k, v);
    assert forall|i: int, j: int| 0 <= i < j < t.len() implies #[trigger] t[i].0 != #[trigger] t[j].0 by {
        let i2 = if i < p { i } else if i == p { s.len() as int } else { i - 1 };
        let j2 = if j < p { j } else if j == p { s.len() as int } else { j - 1 };
        assert(t[i] == u[i2] && t[j] == u[j2]);
    }
    assert forall|x: SessionId| #[trigger] has_key(t, x) == has_key(u, x) by {
        if has_key(t, x) {
            let i = choose|i: int| 0 <= i < t.len() && #[trigger] t[i].0 == x;
            let i2 = if i < p { i } else if i == p { s.len() as int } else { i - 1 };
            assert(u[i2].0 == x);
        }
        if has_key(u, x) {
            let i = choose|i: int| 0 <= i < u.len() && #[trigger] u[i].0 == x;
            let i2 = if i == s.len() { p } else if i < p { i } else { i + 1 };
            assert(t[i2].0 == x);
        }
    }
    assert forall|x: SessionId| #[trigger] assoc_map(t).contains_key(x) implies assoc_map(t)[x] == assoc_map(u)[x] by {
        let i = choose|i: int| 0 <= i < t.len() && #[trigger] t[i].0 == x;
        let i2 = if i < p { i } else if i == p { s.len() as int } else { i - 1 };
        assert(t[i] == u[i2]);
        lemma_assoc_index(t, i);
        lemma_assoc_index(u, i2);
    }
    assert(assoc_map(t) =~= assoc_map(u));
}

/// The expiry buckets after sessions were touched one after the other:
/// `touches[i]` is a session, its timeout and the time it was touched.
pub open spec fn after_touches(m: Map<SessionId, i64>, touches: Seq<(SessionId, i64, i64)>, interval_ms: i64) -> Map<SessionId, i64>
    decreases touches.len(),
{
    if touches.len() == 0 {
        m
    } else {
        let (id, timeout_ms, now) = touches.last();
        after_touches(m, touches.drop_last(), interval_ms).insert(
            id,
            expiry_bucket(now as int, timeout_ms as int, interval_ms as int) as i64,
        )
    }
}

/// The position of the last touch of `id`, or -1 when it was not touched.
pub open spec fn last_touch(touches: Seq<(SessionId, i64, i64)>, id: SessionId) -> int
    decreases touches.len(),
{
    if touches.len() == 0 {
        -1
    } else if touches.last().0 == id {
        touches.len() - 1
    } else {
        last_touch(touches.drop_last(), id)
    }
}

/// Only a session's latest touch counts: after a history of touches, a
/// touched session's bucket is the one its last touch gave (so
/// `get_expired` reports it once that bucket is due, and not for an
/// earlier deadline); a session never touched keeps what it had.
pub proof fn lemma_latest_touch_counts(
    m: Map<SessionId, i64>,
    touches: Seq<(SessionId, i64, i64)>,
    interval_ms: i64,
    id: SessionId,
)
    ensures
        -1 <= last_touch(touches, id) < touches.len(),
        last_touch(touches, id) >= 0 ==> touches[last_touch(touches, id)].0 == id && after_touches(m, touches, interval_ms).contains_key(id)
            && after_touches(m, touches, interval_ms)[id] == expiry_bucket(
            touches[last_touch(touches, id)].2 as int,
            touches[last_touch(touches, id)].1 as int,
            interval_ms as int,
        ) as i64,
        last_touch(touches, id) < 0 ==> after_touches(m, touches, interval_ms).contains_key(id) == m.contains_key(id)
            && (m.contains_key(id) ==> after_touches(m, touches, interval_ms)[id] == m[id]),
    decreases touches.len(),
{
    if touches.len() > 0 {
        lemma_latest_touch_counts(m, touches.drop_last(), interval_ms, id);
    }
}

} // verus!
