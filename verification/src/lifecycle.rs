//! The challenge lifecycle: one manager per protocol kind over a two-tier
//! store, an authoritative table of rows mirrored by a per-user cache of
//! the open challenge. At most one incomplete challenge exists per user.

use vstd::prelude::*;
use crate::challenge::{
    challenge_wf, check_answer, fill_answer, is_incomplete, lemma_fill_preserves_wf, payload_wf,
    public_view, spec_check, spec_fill, Answer, Challenge, CheckError, Payload, PublicView,
    view_matches,
};

verus! {

/// Why a submission did not complete a challenge.
#[derive(Clone, Copy, Debug, PartialEq, Eq, Structural)]
pub enum CompleteError {
    /// The user has no open challenge of this kind.
    NoActive,
    /// The answer does not satisfy the protocol's relation; the challenge
    /// stays open and answerable.
    Rejected,
    /// The verification equation could not be evaluated; an internal
    /// fault, not a judgement on the answer.
    Internal,
}

/// The store behind one protocol's challenges: the rows are the truth,
/// the cache maps a user to the id of their open challenge.
pub struct Lifecycle {
    pub rows: Vec<Challenge>,
    pub cache: Vec<(i32, i32)>,
    pub next_id: i32,
    pub clock: u64,
}

pub open spec fn spec_max(a: u64, b: u64) -> u64 {
    if a > b {
        a
    } else {
        b
    }
}

/// Everything the operations preserve: well-formed rows stamped within
/// the clock, unique fresh ids, at most one open challenge per user, and
/// a cache that only ever points at a user's own open challenge.
/// A cache entry points at an open row of its own user.
pub open spec fn cache_entry_ok(rows: Seq<Challenge>, e: (i32, i32)) -> bool {
    exists|i: int|
        0 <= i < rows.len() && (#[trigger] rows[i]).user_id == e.0 && rows[i].id == e.1
            && is_incomplete(rows[i])
}

pub open spec fn lifecycle_wf(s: Lifecycle) -> bool {
    &&& forall|i: int|
        0 <= i < s.rows@.len() ==> challenge_wf(#[trigger] s.rows@[i]) && s.rows@[i].created_at
            <= s.clock && (s.rows@[i].completed_at matches Some(t) ==> t <= s.clock) && 0
            <= s.rows@[i].id < s.next_id
    &&& forall|i: int, j: int| 0 <= i < j < s.rows@.len() ==> s.rows@[i].id != s.rows@[j].id
    &&& forall|i: int, j: int|
        0 <= i < j < s.rows@.len() && is_incomplete(s.rows@[i]) && is_incomplete(s.rows@[j])
            ==> s.rows@[i].user_id != s.rows@[j].user_id
    &&& s.next_id >= 0
    &&& forall|k: int| 0 <= k < s.cache@.len() ==> cache_entry_ok(s.rows@, #[trigger] s.cache@[k])
    &&& forall|k1: int, k2: int|
        0 <= k1 < k2 < s.cache@.len() ==> s.cache@[k1].0 != s.cache@[k2].0
}

/// The user has an open challenge in the authoritative rows.
pub open spec fn has_incomplete(s: Lifecycle, user_id: i32) -> bool {
    exists|i: int|
        0 <= i < s.rows@.len() && (#[trigger] s.rows@[i]).user_id == user_id && is_incomplete(
            s.rows@[i],
        )
}

/// The `(user, duration)` pair of every completed row, in row order.
pub open spec fn spec_completed_entries(rows: Seq<Challenge>) -> Seq<(i32, u64)>
    decreases rows.len(),
{
    if rows.len() == 0 {
        Seq::empty()
    } else {
        let rest = spec_completed_entries(rows.drop_last());
        match rows.last().completed_at {
            Some(t) => rest.push(
                (rows.last().user_id, (t - rows.last().created_at) as u64),
            ),
            None => rest,
        }
    }
}

/// Completing the user's open row preserves every store invariant.
proof fn lemma_complete_wf(pre: Lifecycle, post: Lifecycle, i: int, completed: Challenge, user_id: i32)
    requires
        lifecycle_wf(pre),
        0 <= i < pre.rows@.len(),
        pre.rows@[i].user_id == user_id,
        is_incomplete(pre.rows@[i]),
        post.rows@ == pre.rows@.update(i, completed),
        challenge_wf(completed),
        completed.id == pre.rows@[i].id,
        completed.user_id == user_id,
        completed.created_at == pre.rows@[i].created_at,
        completed.completed_at == Some(post.clock),
        post.clock >= pre.clock,
        post.next_id == pre.next_id,
        forall|k: int|
            0 <= k < post.cache@.len() ==> (#[trigger] post.cache@[k]).0 != user_id
                && pre.cache@.contains(post.cache@[k]),
        forall|k1: int, k2: int|
            0 <= k1 < k2 < post.cache@.len() ==> post.cache@[k1].0 != post.cache@[k2].0,
    ensures
        lifecycle_wf(post),
{
    assert forall|j: int|
        0 <= j < post.rows@.len() implies challenge_wf(#[trigger] post.rows@[j])
            && post.rows@[j].created_at <= post.clock && (post.rows@[j].completed_at matches Some(
        t,
    ) ==> t <= post.clock) && 0 <= post.rows@[j].id < post.next_id by {
        if j != i {
            assert(post.rows@[j] == pre.rows@[j]);
        }
    }
    assert forall|j1: int, j2: int|
        0 <= j1 < j2 < post.rows@.len() implies post.rows@[j1].id != post.rows@[j2].id by {
        assert(j1 != i ==> post.rows@[j1] == pre.rows@[j1]);
        assert(j2 != i ==> post.rows@[j2] == pre.rows@[j2]);
    }
    assert forall|j1: int, j2: int|
        0 <= j1 < j2 < post.rows@.len() && is_incomplete(post.rows@[j1]) && is_incomplete(
            post.rows@[j2],
        ) implies post.rows@[j1].user_id != post.rows@[j2].user_id by {
        assert(j1 != i ==> post.rows@[j1] == pre.rows@[j1]);
        assert(j2 != i ==> post.rows@[j2] == pre.rows@[j2]);
    }
    assert forall|k: int|
        0 <= k < post.cache@.len() implies cache_entry_ok(
        post.rows@,
        #[trigger] post.cache@[k],
    ) by {
        let e = post.cache@[k];
        assert(pre.cache@.contains(e));
        let k0 = choose|k0: int| 0 <= k0 < pre.cache@.len() && pre.cache@[k0] == e;
        assert(pre.cache@[k0] == e);
        assert(cache_entry_ok(pre.rows@, pre.cache@[k0]));
        let j = choose|j: int|
            0 <= j < pre.rows@.len() && (#[trigger] pre.rows@[j]).user_id == e.0 && pre.rows@[
            j].id == e.1 && is_incomplete(pre.rows@[j]);
        assert(pre.rows@[j].user_id == e.0);
        assert(e.0 != user_id);
        assert(j != i);
        assert(post.rows@[j] == pre.rows@[j]);
        assert(0 <= j < post.rows@.len() && post.rows@[j].user_id == e.0 && post.rows@[j].id
            == e.1 && is_incomplete(post.rows@[j]));
    }
}

/// The row index of the user's open challenge, where one exists.
pub open spec fn incomplete_index(s: Lifecycle, user_id: i32) -> int {
    choose|i: int|
        0 <= i < s.rows@.len() && (#[trigger] s.rows@[i]).user_id == user_id && is_incomplete(
            s.rows@[i],
        )
}

impl Lifecycle {
    /// An empty store.
    pub fn new() -> (s: Lifecycle)
        ensures
            lifecycle_wf(s),
            s.rows@.len() == 0,
            s.cache@.len() == 0,
            s.next_id == 0,
            s.clock == 0,
    {
        Lifecycle { rows: Vec::new(), cache: Vec::new(), next_id: 0, clock: 0 }
    }

    /// The id of the user's open challenge: the cache mirror answers when
    /// it can, otherwise the rows are scanned and the mirror refilled.
    /// `None` means no open challenge, in either tier.
    pub fn find_incomplete(&mut self, user_id: i32) -> (res: Option<i32>)
        requires
            lifecycle_wf(*old(self)),
        ensures
            lifecycle_wf(*final(self)),
            final(self).rows@ == old(self).rows@,
            final(self).next_id == old(self).next_id,
            final(self).clock == old(self).clock,
            match res {
                Some(id) => exists|i: int|
                    0 <= i < old(self).rows@.len() && (#[trigger] old(self).rows@[i]).user_id
                        == user_id && is_incomplete(old(self).rows@[i]) && old(self).rows@[i].id
                        == id,
                None => !has_incomplete(*old(self), user_id),
            },
    {
        let mut k: usize = 0;
        while k < self.cache.len()
            invariant
                lifecycle_wf(*self),
                *self == *old(self),
                k <= self.cache@.len(),
                forall|j: int| 0 <= j < k ==> (#[trigger] self.cache@[j]).0 != user_id,
            decreases self.cache@.len() - k,
        {
            if self.cache[k].0 == user_id {
                let id = self.cache[k].1;
                proof {
                    assert(cache_entry_ok(self.rows@, self.cache@[k as int]));
                    let i = choose|i: int|
                        0 <= i < self.rows@.len() && (#[trigger] self.rows@[i]).user_id == (
                        self.cache@[k as int]).0 && self.rows@[i].id == self.cache@[k as int].1
                            && is_incomplete(self.rows@[i]);
                    assert(0 <= i < old(self).rows@.len() && old(self).rows@[i].user_id == user_id
                        && is_incomplete(old(self).rows@[i]) && old(self).rows@[i].id == id);
                }
                return Some(id);
            }
            k += 1;
        }
        let mut i: usize = 0;
        while i < self.rows.len()
            invariant
                lifecycle_wf(*self),
                *self == *old(self),
                i <= self.rows@.len(),
                forall|j: int| 0 <= j < self.cache@.len() ==> (#[trigger] self.cache@[j]).0 != user_id,
                forall|j: int|
                    0 <= j < i ==> !((#[trigger] self.rows@[j]).user_id == user_id
                        && is_incomplete(self.rows@[j])),
            decreases self.rows@.len() - i,
        {
            let row_user = self.rows[i].user_id;
            let row_open = match self.rows[i].completed_at {
                None => true,
                Some(_) => false,
            };
            if row_user == user_id && row_open {
                let id = self.rows[i].id;
                let ghost cache0 = self.cache@;
                self.cache.push((user_id, id));
                proof {
                    assert forall|k2: int|
                        0 <= k2 < self.cache@.len() implies cache_entry_ok(
                        self.rows@,
                        #[trigger] self.cache@[k2],
                    ) by {
                        if k2 < cache0.len() {
                            assert(self.cache@[k2] == cache0[k2]);
                            assert(cache_entry_ok(self.rows@, cache0[k2]));
                        } else {
                            assert(self.cache@[k2] == (user_id, id));
                            assert(0 <= i < self.rows@.len() && self.rows@[i as int].user_id
                                == user_id && self.rows@[i as int].id == id && is_incomplete(
                                self.rows@[i as int]));
                        }
                    }
                    // The cache held no entry for this user, or the rows
                    // scan could not have been reached.
                    assert forall|k1: int, k2: int|
                        0 <= k1 < k2 < self.cache@.len() implies self.cache@[k1].0
                        != self.cache@[k2].0 by {
                        if k2 == self.cache@.len() - 1 {
                            assert(cache0[k1].0 != user_id);
                        }
                    }
                }
                return Some(id);
            }
            i += 1;
        }
        None
    }

    /// Return the user's open challenge unchanged, or insert a fresh one
    /// built from `fresh`: the pair is the challenge id and whether it
    /// was newly created. Calling twice without completing returns the
    /// identical id, newly-created only the first time.
    pub fn create_or_get(&mut self, user_id: i32, fresh: Payload, now: u64) -> (res: (i32, bool))
        requires
            lifecycle_wf(*old(self)),
            payload_wf(fresh),
            old(self).next_id < i32::MAX,
        ensures
            lifecycle_wf(*final(self)),
            has_incomplete(*old(self), user_id) ==> res.1 == false && final(self).rows@ == old(
                self,
            ).rows@ && final(self).next_id == old(self).next_id && final(self).clock == old(
                self,
            ).clock && exists|i: int|
                0 <= i < old(self).rows@.len() && (#[trigger] old(self).rows@[i]).user_id
                    == user_id && is_incomplete(old(self).rows@[i]) && old(self).rows@[i].id
                    == res.0,
            !has_incomplete(*old(self), user_id) ==> res.1 == true && res.0 == old(self).next_id
                && final(self).rows@ == old(self).rows@.push(
                Challenge {
                    id: old(self).next_id,
                    user_id,
                    payload: fresh,
                    created_at: spec_max(now, old(self).clock),
                    completed_at: None,
                },
            ) && final(self).next_id == old(self).next_id + 1,
            has_incomplete(*final(self), user_id),
    {
        match self.find_incomplete(user_id) {
            Some(id) => (id, false),
            None => {
                let id = self.next_id;
                self.next_id = self.next_id + 1;
                let t = if now > self.clock {
                    now
                } else {
                    self.clock
                };
                self.clock = t;
                let c = Challenge {
                    id,
                    user_id,
                    payload: fresh,
                    created_at: t,
                    completed_at: None,
                };
                let ghost rows0 = self.rows@;
                let ghost cache0 = self.cache@;
                self.rows.push(c);
                self.cache.push((user_id, id));
                proof {
                    let n = rows0.len() as int;
                    assert(self.rows@[n] == c);
                    assert forall|k2: int|
                        0 <= k2 < self.cache@.len() implies cache_entry_ok(
                        self.rows@,
                        #[trigger] self.cache@[k2],
                    ) by {
                        if k2 < cache0.len() {
                            assert(cache_entry_ok(rows0, cache0[k2]));
                            let j = choose|j: int|
                                0 <= j < rows0.len() && (#[trigger] rows0[j]).user_id == (cache0[
                                k2]).0 && rows0[j].id == cache0[k2].1 && is_incomplete(rows0[j]);
                            assert(self.rows@[j] == rows0[j]);
                            assert(0 <= j < self.rows@.len() && self.rows@[j].user_id == (cache0[
                            k2]).0 && self.rows@[j].id == cache0[k2].1 && is_incomplete(
                                self.rows@[j],
                            ));
                        } else {
                            assert(self.cache@[k2] == (user_id, id));
                            assert(self.rows@[n].user_id == user_id && self.rows@[n].id == id
                                && is_incomplete(self.rows@[n]));
                        }
                    }
                    assert forall|k1: int, k2: int|
                        0 <= k1 < k2 < self.cache@.len() implies self.cache@[k1].0
                        != self.cache@[k2].0 by {
                        if k2 == self.cache@.len() - 1 && cache0[k1].0 == user_id {
                            assert(cache_entry_ok(rows0, cache0[k1]));
                            let j = choose|j: int|
                                0 <= j < rows0.len() && (#[trigger] rows0[j]).user_id == (cache0[
                                k1]).0 && rows0[j].id == cache0[k1].1 && is_incomplete(rows0[j]);
                            assert(0 <= j < rows0.len() && (rows0[j]).user_id == user_id
                                && is_incomplete(rows0[j]));
                        }
                    }
                    assert forall|j: int|
                        0 <= j < self.rows@.len() implies challenge_wf(#[trigger] self.rows@[j])
                            && self.rows@[j].created_at <= self.clock && (self.rows@[
                        j].completed_at matches Some(t2) ==> t2 <= self.clock) && 0
                            <= self.rows@[j].id < self.next_id by {
                        if j < n {
                            assert(self.rows@[j] == old(self).rows@[j]);
                            assert(challenge_wf(old(self).rows@[j]));
                        } else {
                            assert(self.rows@[j] == c);
                        }
                    }
                    assert forall|j1: int, j2: int|
                        0 <= j1 < j2 < self.rows@.len() implies self.rows@[j1].id
                        != self.rows@[j2].id by {
                        assert(j1 < n ==> self.rows@[j1] == rows0[j1]);
                        assert(j2 < n ==> self.rows@[j2] == rows0[j2]);
                        assert(j2 == n ==> self.rows@[j2] == c);
                    }
                    assert forall|j1: int, j2: int|
                        0 <= j1 < j2 < self.rows@.len() && is_incomplete(self.rows@[j1])
                            && is_incomplete(self.rows@[j2]) implies self.rows@[j1].user_id
                        != self.rows@[j2].user_id by {
                        assert(j1 < n ==> self.rows@[j1] == rows0[j1]);
                        assert(j2 < n ==> self.rows@[j2] == rows0[j2]);
                        if j2 == n && is_incomplete(self.rows@[j1]) {
                            assert(self.rows@[j1] == rows0[j1]);
                            assert(!(rows0[j1].user_id == user_id && is_incomplete(rows0[j1])));
                        }
                    }
                }
                (id, true)
            },
        }
    }

    /// Check a submitted answer against the user's open challenge. On
    /// acceptance the challenge is completed exactly once: stamped with
    /// the current time, its answer field filled, its mirror entry
    /// purged; the elapsed time is returned. A rejected answer changes
    /// nothing and the challenge stays answerable. Completed rows are
    /// never touched.
    pub fn complete(&mut self, user_id: i32, answer: Answer, now: u64) -> (res: Result<
        u64,
        CompleteError,
    >)
        requires
            lifecycle_wf(*old(self)),
        ensures
            lifecycle_wf(*final(self)),
            final(self).next_id == old(self).next_id,
            match res {
                Ok(dur) => {
                    let i = incomplete_index(*old(self), user_id);
                    &&& has_incomplete(*old(self), user_id)
                    &&& spec_check(old(self).rows@[i].payload, answer) == Ok::<
                        bool,
                        CheckError,
                    >(true)
                    &&& final(self).rows@ == old(self).rows@.update(
                        i,
                        Challenge {
                            id: old(self).rows@[i].id,
                            user_id,
                            payload: spec_fill(old(self).rows@[i].payload, answer),
                            created_at: old(self).rows@[i].created_at,
                            completed_at: Some(spec_max(now, old(self).clock)),
                        },
                    )
                    &&& dur == spec_max(now, old(self).clock) - old(self).rows@[i].created_at
                },
                Err(CompleteError::NoActive) => !has_incomplete(*old(self), user_id) && *final(self) == *old(self),
                Err(CompleteError::Rejected) => has_incomplete(*old(self), user_id) && spec_check(
                    old(self).rows@[incomplete_index(*old(self), user_id)].payload,
                    answer,
                ) == Ok::<bool, CheckError>(false) && *final(self) == *old(self),
                Err(CompleteError::Internal) => has_incomplete(*old(self), user_id) && spec_check(
                    old(self).rows@[incomplete_index(*old(self), user_id)].payload,
                    answer,
                ) is Err && *final(self) == *old(self),
            },
            forall|i: int|
                0 <= i < old(self).rows@.len() && !is_incomplete(#[trigger] old(self).rows@[i])
                    ==> final(self).rows@[i] == old(self).rows@[i],
    {
        let mut i: usize = 0;
        let n = self.rows.len();
        while i < n
            invariant
                lifecycle_wf(*self),
                *self == *old(self),
                n == self.rows@.len(),
                i <= n,
                forall|j: int|
                    0 <= j < i ==> !((#[trigger] self.rows@[j]).user_id == user_id
                        && is_incomplete(self.rows@[j])),
            decreases n - i,
        {
            let row_user = self.rows[i].user_id;
            let row_open = match self.rows[i].completed_at {
                None => true,
                Some(_) => false,
            };
            if row_user == user_id && row_open {
                proof {
                    // The scan's index is the unique open row of the user.
                    let i0 = incomplete_index(*old(self), user_id);
                    assert(has_incomplete(*old(self), user_id));
                    if i0 != i as int {
                        assert(self.rows@[i0].user_id == user_id && is_incomplete(
                            self.rows@[i0],
                        ));
                        assert(false);
                    }
                }
                let verdict = check_answer(&self.rows[i].payload, &answer);
                match verdict {
                    Err(_) => {
                        return Err(CompleteError::Internal);
                    },
                    Ok(false) => {
                        return Err(CompleteError::Rejected);
                    },
                    Ok(true) => {
                        let t = if now > self.clock {
                            now
                        } else {
                            self.clock
                        };
                        let ghost rows0 = self.rows@;
                        let ghost cache0 = self.cache@;
                        let c = self.rows.remove(i);
                        proof {
                            lemma_fill_preserves_wf(c.payload, answer);
                        }
                        let filled = fill_answer(c.payload, answer);
                        let completed = Challenge {
                            id: c.id,
                            user_id: c.user_id,
                            payload: filled,
                            created_at: c.created_at,
                            completed_at: Some(t),
                        };
                        self.rows.insert(i, completed);
                        self.clock = t;
                        proof {
                            assert(self.rows@ =~= rows0.update(i as int, completed));
                        }
                        self.purge_cache_entry(user_id);
                        proof {
                            lemma_complete_wf(*old(self), *self, i as int, completed, user_id);
                        }
                        return Ok(t - c.created_at);
                    },
                }
            }
            i += 1;
        }
        Err(CompleteError::NoActive)
    }

    /// Drop the cache mirror entry of this user, if one is present.
    fn purge_cache_entry(&mut self, user_id: i32)
        requires
            forall|k1: int, k2: int|
                0 <= k1 < k2 < old(self).cache@.len() ==> old(self).cache@[k1].0 != old(
                    self,
                ).cache@[k2].0,
        ensures
            final(self).rows@ == old(self).rows@,
            final(self).next_id == old(self).next_id,
            final(self).clock == old(self).clock,
            forall|k: int|
                0 <= k < final(self).cache@.len() ==> (#[trigger] final(self).cache@[k]).0
                    != user_id && old(self).cache@.contains(final(self).cache@[k]),
            forall|k1: int, k2: int|
                0 <= k1 < k2 < final(self).cache@.len() ==> final(self).cache@[k1].0 != final(self).cache@[k2].0,
    {
        let mut k: usize = 0;
        while k < self.cache.len()
            invariant
                self.rows@ == old(self).rows@,
                self.next_id == old(self).next_id,
                self.clock == old(self).clock,
                self.cache@ == old(self).cache@,
                k <= self.cache@.len(),
                forall|j: int| 0 <= j < k ==> (#[trigger] self.cache@[j]).0 != user_id,
                forall|k1: int, k2: int|
                    0 <= k1 < k2 < self.cache@.len() ==> self.cache@[k1].0 != self.cache@[k2].0,
            decreases self.cache@.len() - k,
        {
            if self.cache[k].0 == user_id {
                let ghost cache0 = self.cache@;
                self.cache.remove(k);
                proof {
                    assert forall|j: int|
                        0 <= j < self.cache@.len() implies (#[trigger] self.cache@[j]).0 != user_id
                            && cache0.contains(self.cache@[j]) by {
                        if j < k {
                            assert(self.cache@[j] == cache0[j]);
                        } else {
                            assert(self.cache@[j] == cache0[j + 1]);
                        }
                    }
                    assert forall|j1: int, j2: int|
                        0 <= j1 < j2 < self.cache@.len() implies self.cache@[j1].0
                        != self.cache@[j2].0 by {
                        let o1: int = if j1 < k {
                            j1
                        } else {
                            j1 + 1
                        };
                        let o2: int = if j2 < k {
                            j2
                        } else {
                            j2 + 1
                        };
                        assert(self.cache@[j1] == cache0[o1]);
                        assert(self.cache@[j2] == cache0[o2]);
                    }
                }
                return ;
            }
            k += 1;
        }
    }

    /// The `(user, duration)` pairs of every completed challenge, in row
    /// order; the leaderboard imposes its own order later.
    pub fn list_completed(&self) -> (res: Vec<(i32, u64)>)
        requires
            lifecycle_wf(*self),
        ensures
            res@ == spec_completed_entries(self.rows@),
    {
        let mut out: Vec<(i32, u64)> = Vec::new();
        let mut i: usize = 0;
        while i < self.rows.len()
            invariant
                lifecycle_wf(*self),
                i <= self.rows@.len(),
                out@ == spec_completed_entries(self.rows@.subrange(0, i as int)),
            decreases self.rows@.len() - i,
        {
            let ghost prefix = self.rows@.subrange(0, i as int);
            match self.rows[i].completed_at {
                Some(t) => {
                    out.push((self.rows[i].user_id, t - self.rows[i].created_at));
                },
                None => {},
            }
            proof {
                let prefix1 = self.rows@.subrange(0, i + 1);
                assert(prefix1.drop_last() =~= prefix);
                assert(prefix1.last() == self.rows@[i as int]);
            }
            i += 1;
        }
        proof {
            assert(self.rows@.subrange(0, self.rows@.len() as int) =~= self.rows@);
        }
        out
    }

    /// The public view of the challenge with the given id.
    pub fn view_of(&self, id: i32) -> (res: Option<PublicView>)
        requires
            lifecycle_wf(*self),
        ensures
            match res {
                Some(v) => exists|i: int|
                    0 <= i < self.rows@.len() && (#[trigger] self.rows@[i]).id == id
                        && view_matches(v, self.rows@[i].payload),
                None => forall|i: int|
                    0 <= i < self.rows@.len() ==> (#[trigger] self.rows@[i]).id != id,
            },
    {
        let mut i: usize = 0;
        while i < self.rows.len()
            invariant
                lifecycle_wf(*self),
                i <= self.rows@.len(),
                forall|j: int| 0 <= j < i ==> (#[trigger] self.rows@[j]).id != id,
            decreases self.rows@.len() - i,
        {
            if self.rows[i].id == id {
                let v = public_view(&self.rows[i].payload);
                return Some(v);
            }
            i += 1;
        }
        None
    }
}

} // verus!
