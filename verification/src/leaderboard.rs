//! Leaderboard aggregation: keep each user's fastest completion, then
//! rank ascending by duration.

use vstd::prelude::*;
use vstd::multiset::Multiset;
use vstd::seq_lib::group_to_multiset_ensures;

verus! {

broadcast use group_to_multiset_ensures;

/// One ranked entry: who, and their best time in nanoseconds.
#[derive(Debug)]
pub struct LeaderboardResult {
    pub username: String,
    pub duration: u64,
}

/// Best completion per user, keyed by user id; keys are unique.
pub struct Leaderboard {
    pub user_map: Vec<(i32, LeaderboardResult)>,
}

pub open spec fn lb_entries(l: Leaderboard) -> Seq<(i32, LeaderboardResult)> {
    l.user_map@
}

pub open spec fn lb_wf(l: Leaderboard) -> bool {
    forall|k1: int, k2: int|
        0 <= k1 < k2 < lb_entries(l).len() ==> lb_entries(l)[k1].0 != lb_entries(l)[k2].0
}

pub open spec fn lb_has_key(l: Leaderboard, user_id: i32) -> bool {
    exists|k: int| 0 <= k < lb_entries(l).len() && (#[trigger] lb_entries(l)[k]).0 == user_id
}

pub open spec fn lb_key_index(l: Leaderboard, user_id: i32) -> int {
    choose|k: int| 0 <= k < lb_entries(l).len() && (#[trigger] lb_entries(l)[k]).0 == user_id
}

/// Durations never decrease along the sequence.
pub open spec fn sorted_by_duration(s: Seq<LeaderboardResult>) -> bool {
    forall|i: int, j: int| 0 <= i <= j < s.len() ==> s[i].duration <= s[j].duration
}

impl Leaderboard {
    /// An empty board.
    pub fn new() -> (l: Leaderboard)
        ensures
            lb_wf(l),
            lb_entries(l).len() == 0,
    {
        Leaderboard { user_map: Vec::new() }
    }

    /// Whether this duration would improve on the user's recorded best:
    /// true when the user has no entry or a strictly slower one.
    pub fn is_faster_result(&self, user_id: i32, duration: u64) -> (r: bool)
        requires
            lb_wf(*self),
        ensures
            r == forall|k: int|
                0 <= k < lb_entries(*self).len() && (#[trigger] lb_entries(*self)[k]).0 == user_id
                    ==> lb_entries(*self)[k].1.duration > duration,
    {
        let mut k: usize = 0;
        while k < self.user_map.len()
            invariant
                lb_wf(*self),
                k <= lb_entries(*self).len(),
                forall|j: int| 0 <= j < k ==> (#[trigger] lb_entries(*self)[j]).0 != user_id,
            decreases lb_entries(*self).len() - k,
        {
            if self.user_map[k].0 == user_id {
                return self.user_map[k].1.duration > duration;
            }
            k += 1;
        }
        true
    }

    /// Record a result: inserted for a new user, replacing the user's
    /// entry only when strictly faster, otherwise ignored.
    pub fn insert(&mut self, user_id: i32, result: LeaderboardResult)
        requires
            lb_wf(*old(self)),
        ensures
            lb_wf(*final(self)),
            !lb_has_key(*old(self), user_id) ==> lb_entries(*final(self)) == lb_entries(
                *old(self),
            ).push((user_id, result)),
            lb_has_key(*old(self), user_id) ==> {
                let k = lb_key_index(*old(self), user_id);
                if result.duration < lb_entries(*old(self))[k].1.duration {
                    lb_entries(*final(self)) == lb_entries(*old(self)).update(k, (user_id, result))
                } else {
                    lb_entries(*final(self)) == lb_entries(*old(self))
                }
            },
    {
        let mut k: usize = 0;
        while k < self.user_map.len()
            invariant
                lb_wf(*self),
                *self == *old(self),
                k <= lb_entries(*self).len(),
                forall|j: int| 0 <= j < k ==> (#[trigger] lb_entries(*self)[j]).0 != user_id,
            decreases lb_entries(*self).len() - k,
        {
            if self.user_map[k].0 == user_id {
                proof {
                    let k0 = lb_key_index(*old(self), user_id);
                    if k0 != k as int {
                        assert(lb_entries(*old(self))[k0].0 == user_id);
                        assert(false);
                    }
                }
                if result.duration < self.user_map[k].1.duration {
                    let ghost entries0 = self.user_map@;
                    self.user_map.set(k, (user_id, result));
                    proof {
                        assert forall|k1: int, k2: int|
                            0 <= k1 < k2 < lb_entries(*self).len() implies lb_entries(*self)[k1].0
                            != lb_entries(*self)[k2].0 by {
                            assert(k1 != k as int ==> lb_entries(*self)[k1] == entries0[k1]);
                            assert(k2 != k as int ==> lb_entries(*self)[k2] == entries0[k2]);
                        }
                    }
                }
                return ;
            }
            k += 1;
        }
        let ghost entries0 = self.user_map@;
        self.user_map.push((user_id, result));
        proof {
            assert forall|k1: int, k2: int|
                0 <= k1 < k2 < lb_entries(*self).len() implies lb_entries(*self)[k1].0
                != lb_entries(*self)[k2].0 by {
                assert(k1 < entries0.len() ==> lb_entries(*self)[k1] == entries0[k1]);
                assert(k2 < entries0.len() ==> lb_entries(*self)[k2] == entries0[k2]);
                if k2 == entries0.len() {
                    assert(lb_entries(*self)[k2].0 == user_id);
                    assert(entries0[k1].0 != user_id);
                }
            }
        }
    }

    /// The recorded results ranked ascending by duration: the same
    /// results, as a multiset, that the board held.
    pub fn into_results(self) -> (res: Vec<LeaderboardResult>)
        ensures
            sorted_by_duration(res@),
            res@.to_multiset() == lb_entries(self).map_values(
                |e: (i32, LeaderboardResult)| e.1,
            ).to_multiset(),
    {
        let ghost values0 = self.user_map@.map_values(|e: (i32, LeaderboardResult)| e.1);
        let mut remaining = self.user_map;
        let mut vals: Vec<LeaderboardResult> = Vec::new();
        proof {
            assert(remaining@.map_values(|e: (i32, LeaderboardResult)| e.1) =~= values0);
        }
        while remaining.len() > 0
            invariant
                vals@.to_multiset().add(
                    remaining@.map_values(|e: (i32, LeaderboardResult)| e.1).to_multiset(),
                ) =~= values0.to_multiset(),
            decreases remaining@.len(),
        {
            let ghost rem0 = remaining@;
            let e = remaining.pop().unwrap();
            let ghost mapped0 = rem0.map_values(|x: (i32, LeaderboardResult)| x.1);
            proof {
                assert(remaining@ =~= rem0.drop_last());
                assert(remaining@.map_values(|x: (i32, LeaderboardResult)| x.1) =~= mapped0.drop_last());
                assert(mapped0.drop_last() =~= mapped0.remove(mapped0.len() - 1));
                assert(mapped0[mapped0.len() - 1] == e.1);
                assert(mapped0.remove(mapped0.len() - 1).to_multiset() =~= mapped0.to_multiset().remove(e.1));
                assert(vals@.push(e.1).to_multiset() =~= vals@.to_multiset().insert(e.1));
                assert(mapped0.to_multiset().count(e.1) > 0) by {
                    assert(mapped0.contains(e.1));
                }
                assert(vals@.to_multiset().insert(e.1).add(mapped0.to_multiset().remove(e.1))
                    =~= vals@.to_multiset().add(mapped0.to_multiset()));
            }
            vals.push(e.1);
        }
        proof {
            assert(remaining@.map_values(|x: (i32, LeaderboardResult)| x.1).to_multiset()
                =~= Seq::<LeaderboardResult>::empty().to_multiset());
            assert(vals@.to_multiset() =~= values0.to_multiset());
        }
        sort_by_duration(vals, Ghost(values0.to_multiset()))
    }
}

/// Selection sort on durations: repeatedly move the earliest minimum
/// over, preserving the multiset of results.
fn sort_by_duration(input: Vec<LeaderboardResult>, target: Ghost<Multiset<LeaderboardResult>>) -> (res: Vec<
    LeaderboardResult,
>)
    requires
        input@.to_multiset() == target@,
    ensures
        sorted_by_duration(res@),
        res@.to_multiset() == target@,
{
    let mut remaining = input;
    let mut out: Vec<LeaderboardResult> = Vec::new();
    while remaining.len() > 0
        invariant
            out@.to_multiset().add(remaining@.to_multiset()) =~= target@,
            sorted_by_duration(out@),
            forall|i: int, j: int|
                0 <= i < out@.len() && 0 <= j < remaining@.len() ==> out@[i].duration
                    <= remaining@[j].duration,
        decreases remaining@.len(),
    {
        let mut min_idx: usize = 0;
        let mut k: usize = 1;
        while k < remaining.len()
            invariant
                remaining@.len() > 0,
                min_idx < k <= remaining@.len(),
                forall|j: int|
                    0 <= j < k ==> remaining@[min_idx as int].duration <= (
                    #[trigger] remaining@[j]).duration,
            decreases remaining@.len() - k,
        {
            if remaining[k].duration < remaining[min_idx].duration {
                min_idx = k;
            }
            k += 1;
        }
        let ghost rem0 = remaining@;
        let ghost out0 = out@;
        let v = remaining.remove(min_idx);
        proof {
            assert(rem0[min_idx as int] == v);
            assert(remaining@.to_multiset() =~= rem0.to_multiset().remove(v));
            assert(out0.push(v).to_multiset() =~= out0.to_multiset().insert(v));
            assert(rem0.to_multiset().count(v) > 0) by {
                assert(rem0.contains(v));
            }
            assert(out0.to_multiset().insert(v).add(rem0.to_multiset().remove(v)) =~= out0.to_multiset().add(
                rem0.to_multiset(),
            ));
            assert forall|j: int| 0 <= j < remaining@.len() implies v.duration <= (
            #[trigger] remaining@[j]).duration by {
                if j < min_idx {
                    assert(remaining@[j] == rem0[j]);
                } else {
                    assert(remaining@[j] == rem0[j + 1]);
                }
            }
        }
        out.push(v);
    }
    proof {
        assert(remaining@.to_multiset() =~= Seq::<LeaderboardResult>::empty().to_multiset());
        assert(out@.to_multiset() =~= target@);
    }
    out
}

} // verus!
