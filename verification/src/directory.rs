//! The directory itself: the member list, its summary statistics, and
//! the staleness clock.

use vstd::prelude::*;
use crate::member::Fellow;

verus! {

/// The aggregate directory: members keyed by account, the capture time
/// of the last refresh, and statistics derived from the member list.
///
/// The statistics are never updated incrementally; `finalize` recomputes
/// them from the member list alone.
pub struct Fellows {
    pub members: Vec<Fellow>,
    pub last_updated: Option<u64>,
    pub num_named: u32,
    pub num_verified: u32,
    pub num_github: u32,
    pub num_github_verified: u32,
    pub num_accounts: u32,
}

/// How many members of `ms` satisfy `p`.
pub open spec fn count_where(ms: Seq<Fellow>, p: spec_fn(Fellow) -> bool) -> nat
    decreases ms.len(),
{
    if ms.len() == 0 {
        0
    } else {
        count_where(ms.drop_last(), p) + if p(ms.last()) {
            1nat
        } else {
            0nat
        }
    }
}

pub proof fn lemma_count_where_le_len(ms: Seq<Fellow>, p: spec_fn(Fellow) -> bool)
    ensures
        count_where(ms, p) <= ms.len(),
    decreases ms.len(),
{
    if ms.len() > 0 {
        lemma_count_where_le_len(ms.drop_last(), p);
    }
}

/// Members with a decodable display name.
pub open spec fn count_named(ms: Seq<Fellow>) -> nat {
    count_where(ms, |f: Fellow| f.spec_name() is Some)
}

/// Members with at least one positive judgement.
pub open spec fn count_verified(ms: Seq<Fellow>) -> nat {
    count_where(ms, |f: Fellow| f.spec_verified())
}

/// Members with a decodable external handle.
pub open spec fn count_github(ms: Seq<Fellow>) -> nat {
    count_where(ms, |f: Fellow| f.spec_github() is Some)
}

/// Members whose external profile links back to their address.
pub open spec fn count_github_verified(ms: Seq<Fellow>) -> nat {
    count_where(ms, |f: Fellow| f.github_links_back)
}

/// The first position holding `key`, if the account is present.
pub open spec fn spec_find(ms: Seq<Fellow>, key: Seq<u8>) -> Option<int>
    decreases ms.len(),
{
    if ms.len() == 0 {
        None
    } else if ms[0].account.bytes@ == key {
        Some(0int)
    } else {
        match spec_find(ms.skip(1), key) {
            Some(i) => Some(i + 1),
            None => None,
        }
    }
}

/// Relies on `std::time::SystemTime::now`: the wall clock read as whole
/// seconds since the epoch, or 0 should the clock read before it.
#[verifier::external_body]
fn now_s() -> u64 {
    std::time::SystemTime::now()
        .duration_since(std::time::UNIX_EPOCH)
        .map(|d| d.as_secs())
        .unwrap_or(0)
}

/// The directory's age relative to `now`, saturating at zero; absent
/// exactly when the directory was never captured.
pub fn age_at(now: u64, last_updated: Option<u64>) -> (r: Option<u64>)
    ensures
        match last_updated {
            Some(t) => r == Some(if now >= t {
                (now - t) as u64
            } else {
                0u64
            }),
            None => r is None,
        },
{
    match last_updated {
        Some(t) => Some(if now >= t {
            now - t
        } else {
            0
        }),
        None => None,
    }
}

impl Fellows {
    /// Well-formedness: every member well formed, accounts pairwise
    /// distinct, and a member count that fits the encoding's prefix.
    pub open spec fn wf(self) -> bool {
        &&& self.members@.len() <= u32::MAX
        &&& (forall|i: int| 0 <= i < self.members@.len() ==> (#[trigger] self.members@[i]).wf())
        &&& (forall|i: int, j: int|
            0 <= i < j < self.members@.len() ==> self.members@[i].account.bytes@
                != self.members@[j].account.bytes@)
    }

    /// The statistics match the member list exactly.
    pub open spec fn stats_fresh(self) -> bool {
        &&& self.num_accounts == self.members@.len()
        &&& self.num_named == count_named(self.members@)
        &&& self.num_verified == count_verified(self.members@)
        &&& self.num_github == count_github(self.members@)
        &&& self.num_github_verified == count_github_verified(self.members@)
    }

    /// An empty, never-captured directory.
    pub fn empty() -> (r: Fellows)
        ensures
            r.members@.len() == 0,
            r.last_updated is None,
            r.num_named == 0 && r.num_verified == 0 && r.num_github == 0 && r.num_github_verified
                == 0 && r.num_accounts == 0,
            r.wf(),
            r.stats_fresh(),
    {
        Fellows {
            members: Vec::new(),
            last_updated: None,
            num_named: 0,
            num_verified: 0,
            num_github: 0,
            num_github_verified: 0,
            num_accounts: 0,
        }
    }

    /// A fresh directory for one refresh cycle, stamped with the cycle's
    /// start time.
    pub fn started_at(now: u64) -> (r: Fellows)
        ensures
            r.members@.len() == 0,
            r.last_updated == Some(now),
            r.wf(),
    {
        let mut s = Self::empty();
        s.last_updated = Some(now);
        s
    }

    /// A fresh directory stamped with the current wall-clock time.
    pub fn started_now() -> (r: Fellows)
        ensures
            r.members@.len() == 0,
            r.last_updated is Some,
            r.wf(),
    {
        Self::started_at(now_s())
    }

    /// Inserts a member keyed by its account: an existing entry with the
    /// same account is replaced in place, otherwise the member is
    /// appended in enumeration order.
    pub fn insert_member(&mut self, f: Fellow)
        requires
            old(self).wf(),
            f.wf(),
            old(self).members@.len() < u32::MAX,
        ensures
            final(self).wf(),
            final(self).last_updated == old(self).last_updated,
            (match spec_find(old(self).members@, f.account.bytes@) {
                Some(i) => final(self).members@ == old(self).members@.update(i, f),
                None => final(self).members@ == old(self).members@.push(f),
            }),
    {
        let ghost ms0 = self.members@;
        let ghost key = f.account.bytes@;
        let mut i: usize = 0;
        proof {
            assert(ms0.skip(0) =~= ms0);
        }
        while i < self.members.len()
            invariant
                i <= ms0.len(),
                *self == *old(self),
                self.members@ == ms0,
                key == f.account.bytes@,
                f.wf(),
                ms0.len() < u32::MAX,
                old(self).wf(),
                forall|k: int| 0 <= k < i ==> ms0[k].account.bytes@ != key,
                (match spec_find(ms0, key) {
                    Some(n) => spec_find(ms0.skip(i as int), key) == Some(n - i),
                    None => spec_find(ms0.skip(i as int), key) is None,
                }),
            decreases ms0.len() - i,
        {
            proof {
                assert(ms0.skip(i as int)[0] == ms0[i as int]);
                assert(ms0.skip(i as int).skip(1) =~= ms0.skip(i + 1));
            }
            if self.members[i].account.eq_account(&f.account) {
                proof {
                    assert(ms0[i as int].account.bytes@ == key);
                    assert(spec_find(ms0.skip(i as int), key) == Some(0int));
                    assert(spec_find(ms0, key) == Some(i as int));
                }
                self.members.remove(i);
                self.members.insert(i, f);
                proof {
                    assert(self.members@ =~= ms0.update(i as int, f));
                }
                return ;
            }
            i = i + 1;
        }
        self.members.push(f);
    }

    /// Recomputes the derived statistics from the member list; the
    /// members and the capture time are untouched.  The counts equal,
    /// for each predicate, the number of members satisfying it.
    pub fn finalize(self) -> (r: Fellows)
        requires
            self.wf(),
        ensures
            r.members == self.members,
            r.last_updated == self.last_updated,
            r.wf(),
            r.stats_fresh(),
    {
        let ghost ms = self.members@;
        let mut named: u32 = 0;
        let mut verified: u32 = 0;
        let mut github: u32 = 0;
        let mut github_verified: u32 = 0;
        let mut i: usize = 0;
        proof {
            assert(ms.take(0) =~= Seq::<Fellow>::empty());
        }
        while i < self.members.len()
            invariant
                i <= ms.len() <= u32::MAX,
                self.members@ == ms,
                named == count_named(ms.take(i as int)),
                verified == count_verified(ms.take(i as int)),
                github == count_github(ms.take(i as int)),
                github_verified == count_github_verified(ms.take(i as int)),
            decreases ms.len() - i,
        {
            proof {
                assert(ms.take(i + 1).drop_last() =~= ms.take(i as int));
                assert(ms.take(i + 1).last() == ms[i as int]);
                lemma_count_where_le_len(ms.take(i as int), |f: Fellow| f.spec_name() is Some);
                lemma_count_where_le_len(ms.take(i as int), |f: Fellow| f.spec_verified());
                lemma_count_where_le_len(ms.take(i as int), |f: Fellow| f.spec_github() is Some);
                lemma_count_where_le_len(ms.take(i as int), |f: Fellow| f.github_links_back);
            }
            let m = &self.members[i];
            if m.name().is_some() {
                named = named + 1;
            }
            if m.verified() {
                verified = verified + 1;
            }
            if m.github().is_some() {
                github = github + 1;
            }
            if m.github_verified() {
                github_verified = github_verified + 1;
            }
            i = i + 1;
        }
        proof {
            assert(ms.take(ms.len() as int) =~= ms);
        }
        let num_accounts = self.members.len() as u32;
        Fellows {
            num_named: named,
            num_verified: verified,
            num_github: github,
            num_github_verified: github_verified,
            num_accounts,
            ..self
        }
    }

    /// The statistics are a pure function of the member list: two
    /// directories with fresh statistics and the same members carry the
    /// same counts, however many saves, loads and finalizations lie
    /// between them.
    pub proof fn lemma_stats_never_drift(self, other: Fellows)
        requires
            self.stats_fresh(),
            other.stats_fresh(),
            self.members@ == other.members@,
        ensures
            self.num_accounts == other.num_accounts,
            self.num_named == other.num_named,
            self.num_verified == other.num_verified,
            self.num_github == other.num_github,
            self.num_github_verified == other.num_github_verified,
    {
    }

    /// Seconds since the directory was last captured, by the wall
    /// clock; absent exactly when it was never captured.
    pub fn since_last_update(&self) -> (r: Option<u64>)
        ensures
            r is Some <==> self.last_updated is Some,
    {
        age_at(now_s(), self.last_updated)
    }
}

} // verus!
