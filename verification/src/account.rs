//! Account identifiers and their canonical textual form.

use vstd::prelude::*;

verus! {

/// A fixed 32-byte public-key account identifier, the unique key of a
/// directory member.
pub struct AccountId {
    pub bytes: Vec<u8>,
}

/// The canonical checksummed text of a 32-byte key under network
/// version 0; a function of the key bytes alone.
pub uninterp spec fn ss58_of(key: Seq<u8>) -> Seq<char>;

/// Relies on `sp_core::crypto::Ss58Codec::to_ss58check_with_version`
/// applied to an `AccountId32` with the fixed version byte 0: a pure,
/// deterministic checksummed base58 rendering of the key bytes.
#[verifier::external_body]
fn ss58_encode(bytes: &Vec<u8>) -> (r: String)
    requires
        bytes@.len() == 32,
    ensures
        r@ == ss58_of(bytes@),
{
    let mut raw = [0u8; 32];
    raw.copy_from_slice(bytes.as_slice());
    let account = sp_core::crypto::AccountId32::new(raw);
    sp_core::crypto::Ss58Codec::to_ss58check_with_version(
        &account,
        sp_core::crypto::Ss58AddressFormat::custom(0),
    )
}

impl AccountId {
    /// A well-formed identifier holds exactly 32 bytes.
    pub open spec fn wf(self) -> bool {
        self.bytes@.len() == 32
    }

    /// Wraps raw key bytes, if they have the fixed length.
    pub fn new(bytes: Vec<u8>) -> (r: Option<AccountId>)
        ensures
            match r {
                Some(a) => a.bytes@ == bytes@ && a.wf(),
                None => bytes@.len() != 32,
            },
    {
        if bytes.len() == 32 {
            Some(AccountId { bytes })
        } else {
            None
        }
    }

    /// Byte-for-byte equality of two identifiers.
    pub fn eq_account(&self, other: &AccountId) -> (r: bool)
        ensures
            r == (self.bytes@ == other.bytes@),
    {
        if self.bytes.len() != other.bytes.len() {
            assert(self.bytes@ != other.bytes@);
            return false;
        }
        let mut i: usize = 0;
        while i < self.bytes.len()
            invariant
                i <= self.bytes@.len(),
                self.bytes@.len() == other.bytes@.len(),
                forall|k: int| 0 <= k < i ==> self.bytes@[k] == other.bytes@[k],
            decreases self.bytes@.len() - i,
        {
            if self.bytes[i] != other.bytes[i] {
                assert(self.bytes@ != other.bytes@);
                return false;
            }
            i = i + 1;
        }
        proof {
            assert(self.bytes@ =~= other.bytes@);
        }
        true
    }

    /// The canonical address string of this account.
    pub fn address(&self) -> (r: String)
        requires
            self.wf(),
        ensures
            r@ == ss58_of(self.bytes@),
    {
        ss58_encode(&self.bytes)
    }
}

} // verus!
