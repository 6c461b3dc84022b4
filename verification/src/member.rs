//! A single directory member and the predicates derived from its
//! identity claim.

use vstd::prelude::*;
use vstd::utf8::encode_utf8;
use crate::account::AccountId;
use crate::account::ss58_of;
use crate::codec::data_to_str;
use crate::codec::spec_data_to_str;
use crate::identity::Registration;
use crate::identity::is_positive;

verus! {

/// One collective participant: the unique account key, the standing in
/// the collective, the resolved identity claim, the claimed external
/// handle, and the social cross-check result.
pub struct Fellow {
    pub account: AccountId,
    pub rank: u16,
    pub identity: Option<Registration>,
    pub github: Option<String>,
    pub github_links_back: bool,
    pub score: Option<u32>,
}

impl Fellow {
    /// Well-formedness: a full-length account key, and field sizes that
    /// fit the snapshot encoding's 32-bit length prefixes.
    pub open spec fn wf(self) -> bool {
        &&& self.account.wf()
        &&& (self.identity matches Some(r) ==> r.display@.len() <= u32::MAX && r.github@.len()
            <= u32::MAX && r.judgements@.len() <= u32::MAX)
        &&& (self.github matches Some(s) ==> encode_utf8(s@).len() <= u32::MAX)
    }

    /// The display name carried by the identity claim, if it decodes.
    pub open spec fn spec_name(self) -> Option<Seq<char>> {
        match self.identity {
            Some(reg) => spec_data_to_str(reg.display@),
            None => None,
        }
    }

    /// The external handle carried by the identity claim, if it decodes.
    pub open spec fn spec_github(self) -> Option<Seq<char>> {
        match self.identity {
            Some(reg) => spec_data_to_str(reg.github@),
            None => None,
        }
    }

    /// True iff at least one judgement on the claim is positive.
    pub open spec fn spec_verified(self) -> bool {
        match self.identity {
            Some(reg) => exists|i: int|
                0 <= i < reg.judgements@.len() && is_positive(reg.judgements@[i].1),
            None => false,
        }
    }

    /// A freshly enumerated member: account and rank from the membership
    /// source, everything else empty.
    pub fn new(account: AccountId, rank: u16) -> (r: Fellow)
        requires
            account.wf(),
        ensures
            r.account == account,
            r.rank == rank,
            r.identity is None,
            r.github is None,
            r.github_links_back == false,
            r.score is None,
            r.wf(),
    {
        Fellow { account, rank, identity: None, github: None, github_links_back: false, score: None }
    }

    /// The canonical address string of this member's account.
    pub fn address(&self) -> (r: String)
        requires
            self.wf(),
        ensures
            r@ == ss58_of(self.account.bytes@),
    {
        self.account.address()
    }

    /// The decoded display name, absent when no claim is registered or
    /// the field does not decode to a string.
    pub fn name(&self) -> (r: Option<String>)
        ensures
            match self.spec_name() {
                Some(s) => r matches Some(x) && x@ == s,
                None => r is None,
            },
    {
        match &self.identity {
            Some(reg) => data_to_str(reg.display.as_slice()),
            None => None,
        }
    }

    /// The decoded external handle, absent when no claim is registered
    /// or the field does not decode to a string.
    pub fn github(&self) -> (r: Option<String>)
        ensures
            match self.spec_github() {
                Some(s) => r matches Some(x) && x@ == s,
                None => r is None,
            },
    {
        match &self.identity {
            Some(reg) => data_to_str(reg.github.as_slice()),
            None => None,
        }
    }

    /// True iff the claim's judgement list holds at least one positive
    /// judgement; false for an absent claim or an empty list.
    pub fn verified(&self) -> (r: bool)
        ensures
            r == self.spec_verified(),
    {
        match &self.identity {
            None => false,
            Some(reg) => {
                let mut i: usize = 0;
                while i < reg.judgements.len()
                    invariant
                        i <= reg.judgements@.len(),
                        self.identity matches Some(g) && g == *reg,
                        forall|k: int| 0 <= k < i ==> !is_positive(reg.judgements@[k].1),
                    decreases reg.judgements@.len() - i,
                {
                    let (_, j) = reg.judgements[i];
                    match j {
                        crate::identity::Judgement::Reasonable => {
                            return true;
                        },
                        crate::identity::Judgement::KnownGood => {
                            return true;
                        },
                        _ => {},
                    }
                    i = i + 1;
                }
                false
            },
        }
    }

    /// Whether the external profile independently references this
    /// member's address.
    pub fn github_verified(&self) -> (r: bool)
        ensures
            r == self.github_links_back,
    {
        self.github_links_back
    }

    /// Installs the identity resolved for this member.
    pub fn set_identity(&mut self, identity: Option<Registration>)
        ensures
            *final(self) == (Fellow { identity, ..*old(self) }),
    {
        self.identity = identity;
    }

    /// Records the social cross-check outcome.
    pub fn set_links_back(&mut self, linked: bool)
        ensures
            *final(self) == (Fellow { github_links_back: linked, ..*old(self) }),
    {
        self.github_links_back = linked;
    }
}

} // verus!
