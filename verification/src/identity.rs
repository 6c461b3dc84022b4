//! Identity claims: registrations, judgements, and the direct-then-
//! delegated resolution protocol.

use vstd::prelude::*;
use crate::account::AccountId;

verus! {

/// A third-party attestation about an identity claim.  `Reasonable` and
/// `KnownGood` are the two positive kinds.
#[derive(Clone, Copy)]
pub enum Judgement {
    Unknown,
    FeePaid(u128),
    Reasonable,
    KnownGood,
    OutOfDate,
    LowQuality,
    Erroneous,
}

/// True of the judgement kinds that mark a claim as independently vetted.
pub open spec fn is_positive(j: Judgement) -> bool {
    j == Judgement::Reasonable || j == Judgement::KnownGood
}

/// A registered identity claim: compact-encoded display name and external
/// handle, plus the list of (registrar, judgement) pairs.
pub struct Registration {
    pub display: Vec<u8>,
    pub github: Vec<u8>,
    pub judgements: Vec<(u32, Judgement)>,
}

/// The identity records visible on chain: direct claims per account, and
/// delegations from a sub-account to its parent.
pub struct IdentityRecords {
    pub direct: Vec<(AccountId, Registration)>,
    pub delegated: Vec<(AccountId, AccountId)>,
}

/// The first direct registration recorded for `key`.
pub open spec fn spec_lookup_direct(rs: Seq<(AccountId, Registration)>, key: Seq<u8>) -> Option<
    Registration,
>
    decreases rs.len(),
{
    if rs.len() == 0 {
        None
    } else if rs[0].0.bytes@ == key {
        Some(rs[0].1)
    } else {
        spec_lookup_direct(rs.skip(1), key)
    }
}

/// The first delegation recorded for `key`, giving its parent account.
pub open spec fn spec_lookup_parent(rs: Seq<(AccountId, AccountId)>, key: Seq<u8>) -> Option<
    AccountId,
>
    decreases rs.len(),
{
    if rs.len() == 0 {
        None
    } else if rs[0].0.bytes@ == key {
        Some(rs[0].1)
    } else {
        spec_lookup_parent(rs.skip(1), key)
    }
}

/// The resolution protocol: a direct claim wins; otherwise a delegation
/// is followed to the parent's direct claim; otherwise the account is
/// unresolved.
pub open spec fn spec_resolve(records: IdentityRecords, key: Seq<u8>) -> Option<Registration> {
    match spec_lookup_direct(records.direct@, key) {
        Some(reg) => Some(reg),
        None => match spec_lookup_parent(records.delegated@, key) {
            Some(parent) => spec_lookup_direct(records.direct@, parent.bytes@),
            None => None,
        },
    }
}

impl IdentityRecords {
    /// Finds the direct registration for `key`, if any.
    fn lookup_direct(&self, key: &AccountId) -> (r: Option<&Registration>)
        ensures
            match r {
                Some(reg) => spec_lookup_direct(self.direct@, key.bytes@) == Some(*reg),
                None => spec_lookup_direct(self.direct@, key.bytes@) is None,
            },
    {
        let mut i: usize = 0;
        proof {
            assert(self.direct@.skip(0) =~= self.direct@);
        }
        while i < self.direct.len()
            invariant
                i <= self.direct@.len(),
                spec_lookup_direct(self.direct@, key.bytes@) == spec_lookup_direct(
                    self.direct@.skip(i as int),
                    key.bytes@,
                ),
            decreases self.direct@.len() - i,
        {
            proof {
                assert(self.direct@.skip(i as int)[0] == self.direct@[i as int]);
                assert(self.direct@.skip(i as int).skip(1) =~= self.direct@.skip(i + 1));
            }
            if self.direct[i].0.eq_account(key) {
                return Some(&self.direct[i].1);
            }
            i = i + 1;
        }
        None
    }

    /// Finds the delegation record for `key`, if any.
    fn lookup_parent(&self, key: &AccountId) -> (r: Option<&AccountId>)
        ensures
            match r {
                Some(p) => spec_lookup_parent(self.delegated@, key.bytes@) == Some(*p),
                None => spec_lookup_parent(self.delegated@, key.bytes@) is None,
            },
    {
        let mut i: usize = 0;
        proof {
            assert(self.delegated@.skip(0) =~= self.delegated@);
        }
        while i < self.delegated.len()
            invariant
                i <= self.delegated@.len(),
                spec_lookup_parent(self.delegated@, key.bytes@) == spec_lookup_parent(
                    self.delegated@.skip(i as int),
                    key.bytes@,
                ),
            decreases self.delegated@.len() - i,
        {
            proof {
                assert(self.delegated@.skip(i as int)[0] == self.delegated@[i as int]);
                assert(self.delegated@.skip(i as int).skip(1) =~= self.delegated@.skip(i + 1));
            }
            if self.delegated[i].0.eq_account(key) {
                return Some(&self.delegated[i].1);
            }
            i = i + 1;
        }
        None
    }

    /// Resolves `key` through the direct-then-delegated protocol.  `None`
    /// means no identity is registered; it is not an error.
    pub fn resolve(&self, key: &AccountId) -> (r: Option<&Registration>)
        ensures
            match r {
                Some(reg) => spec_resolve(*self, key.bytes@) == Some(*reg),
                None => spec_resolve(*self, key.bytes@) is None,
            },
    {
        match self.lookup_direct(key) {
            Some(reg) => Some(reg),
            None => match self.lookup_parent(key) {
                Some(parent) => self.lookup_direct(parent),
                None => None,
            },
        }
    }
}

/// Resolution is deterministic: any two results obtained for the same
/// records and the same account are equal.
pub proof fn lemma_resolve_deterministic(
    records: IdentityRecords,
    key: Seq<u8>,
    r1: Option<Registration>,
    r2: Option<Registration>,
)
    requires
        r1 == spec_resolve(records, key),
        r2 == spec_resolve(records, key),
    ensures
        r1 == r2,
{
}

/// The sub-identity fallback: if no direct record exists for an account,
/// a delegation names parent `p`, and `p` has a direct record, then the
/// account resolves to exactly the parent's record.
pub proof fn lemma_resolve_delegated(
    records: IdentityRecords,
    key: Seq<u8>,
    parent: AccountId,
    reg: Registration,
)
    requires
        spec_lookup_direct(records.direct@, key) is None,
        spec_lookup_parent(records.delegated@, key) == Some(parent),
        spec_lookup_direct(records.direct@, parent.bytes@) == Some(reg),
    ensures
        spec_resolve(records, key) == Some(reg),
{
}

} // verus!
