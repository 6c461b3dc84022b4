//! The snapshot cache encoding: a versioned, deterministic binary form
//! of the directory (members and capture time; statistics are never
//! persisted and are recomputed on load).
//!
//! `to_bytes` and `from_bytes` are proved against a byte-exact
//! specification of the format, and decoding an encoded snapshot is
//! proved to give the snapshot back.

use vstd::prelude::*;
use vstd::utf8::decode_utf8;
use vstd::utf8::encode_utf8;
use vstd::utf8::encode_utf8_decode_utf8;
use vstd::utf8::encode_utf8_valid_utf8;
use vstd::utf8::valid_utf8;
use crate::identity::Judgement;
use crate::identity::Registration;
use crate::member::Fellow;
use crate::directory::Fellows;
use crate::wire::le_bytes;
use crate::wire::le_val;
use crate::wire::lemma_le_bytes_len;
use crate::wire::lemma_le_val_le_bytes;
use crate::wire::pow256;
use crate::wire::push_le;

verus! {

/// The first byte of every cache file; a mismatch is a structural error.
pub const SNAP_VERSION: u8 = 1;

/// The persisted shape of an identity claim.
#[verifier::ext_equal]
pub ghost struct RegModel {
    pub display: Seq<u8>,
    pub github: Seq<u8>,
    pub judgements: Seq<(u32, Judgement)>,
}

/// The persisted shape of one member.
#[verifier::ext_equal]
pub ghost struct MemberModel {
    pub account: Seq<u8>,
    pub rank: u16,
    pub identity: Option<RegModel>,
    pub github: Option<Seq<char>>,
    pub links_back: bool,
    pub score: Option<u32>,
}

/// The persisted shape of the whole snapshot.
#[verifier::ext_equal]
pub ghost struct SnapModel {
    pub members: Seq<MemberModel>,
    pub captured_at: Option<u64>,
}

/// The persisted view of a registration.
pub open spec fn reg_model(r: Registration) -> RegModel {
    RegModel { display: r.display@, github: r.github@, judgements: r.judgements@ }
}

/// The persisted view of a member.
pub open spec fn member_model(f: Fellow) -> MemberModel {
    MemberModel {
        account: f.account.bytes@,
        rank: f.rank,
        identity: match f.identity {
            Some(r) => Some(reg_model(r)),
            None => None,
        },
        github: match f.github {
            Some(s) => Some(s@),
            None => None,
        },
        links_back: f.github_links_back,
        score: f.score,
    }
}

/// The persisted view of the directory.
pub open spec fn snap_model(s: Fellows) -> SnapModel {
    SnapModel {
        members: s.members@.map(|i: int, f: Fellow| member_model(f)),
        captured_at: s.last_updated,
    }
}

pub open spec fn reg_model_wf(r: RegModel) -> bool {
    r.display.len() <= u32::MAX && r.github.len() <= u32::MAX && r.judgements.len() <= u32::MAX
}

pub open spec fn member_model_wf(m: MemberModel) -> bool {
    &&& m.account.len() == 32
    &&& (m.identity matches Some(r) ==> reg_model_wf(r))
    &&& (m.github matches Some(s) ==> encode_utf8(s).len() <= u32::MAX)
}

pub open spec fn unique_accounts(ms: Seq<MemberModel>) -> bool {
    forall|i: int, j: int| 0 <= i < j < ms.len() ==> ms[i].account != ms[j].account
}

pub open spec fn snap_model_wf(s: SnapModel) -> bool {
    &&& s.members.len() <= u32::MAX
    &&& (forall|i: int| 0 <= i < s.members.len() ==> member_model_wf(#[trigger] s.members[i]))
    &&& unique_accounts(s.members)
}

// ----- encoding -----

/// A length-prefixed byte string.
pub open spec fn enc_blob(b: Seq<u8>) -> Seq<u8> {
    le_bytes(b.len(), 4) + b
}

pub open spec fn enc_bool(b: bool) -> Seq<u8> {
    if b {
        seq![1u8]
    } else {
        seq![0u8]
    }
}

pub open spec fn enc_judgement(j: Judgement) -> Seq<u8> {
    match j {
        Judgement::Unknown => seq![0u8],
        Judgement::FeePaid(x) => seq![1u8] + le_bytes(x as nat, 16),
        Judgement::Reasonable => seq![2u8],
        Judgement::KnownGood => seq![3u8],
        Judgement::OutOfDate => seq![4u8],
        Judgement::LowQuality => seq![5u8],
        Judgement::Erroneous => seq![6u8],
    }
}

pub open spec fn enc_judgements(js: Seq<(u32, Judgement)>) -> Seq<u8>
    decreases js.len(),
{
    if js.len() == 0 {
        Seq::empty()
    } else {
        le_bytes(js[0].0 as nat, 4) + enc_judgement(js[0].1) + enc_judgements(js.skip(1))
    }
}

pub open spec fn enc_reg(r: RegModel) -> Seq<u8> {
    enc_blob(r.display) + enc_blob(r.github) + le_bytes(r.judgements.len(), 4) + enc_judgements(
        r.judgements,
    )
}

pub open spec fn enc_opt_reg(o: Option<RegModel>) -> Seq<u8> {
    match o {
        None => seq![0u8],
        Some(r) => seq![1u8] + enc_reg(r),
    }
}

pub open spec fn enc_opt_str(o: Option<Seq<char>>) -> Seq<u8> {
    match o {
        None => seq![0u8],
        Some(s) => seq![1u8] + enc_blob(encode_utf8(s)),
    }
}

pub open spec fn enc_opt_u64(o: Option<u64>) -> Seq<u8> {
    match o {
        None => seq![0u8],
        Some(v) => seq![1u8] + le_bytes(v as nat, 8),
    }
}

pub open spec fn enc_opt_u32(o: Option<u32>) -> Seq<u8> {
    match o {
        None => seq![0u8],
        Some(v) => seq![1u8] + le_bytes(v as nat, 4),
    }
}

pub open spec fn enc_member(m: MemberModel) -> Seq<u8> {
    m.account + le_bytes(m.rank as nat, 2) + enc_opt_reg(m.identity) + enc_opt_str(m.github)
        + enc_bool(m.links_back) + enc_opt_u32(m.score)
}

pub open spec fn enc_members(ms: Seq<MemberModel>) -> Seq<u8>
    decreases ms.len(),
{
    if ms.len() == 0 {
        Seq::empty()
    } else {
        enc_member(ms[0]) + enc_members(ms.skip(1))
    }
}

/// The full encoding: version, member count, members, capture time.
pub open spec fn spec_encode(s: SnapModel) -> Seq<u8> {
    seq![SNAP_VERSION] + le_bytes(s.members.len(), 4) + enc_members(s.members) + enc_opt_u64(
        s.captured_at,
    )
}

// ----- parsing -----

/// Reads a `w`-byte little-endian integer off the front.
pub open spec fn take_le(s: Seq<u8>, w: nat) -> Option<(nat, Seq<u8>)> {
    if s.len() >= w {
        Some((le_val(s.take(w as int)), s.skip(w as int)))
    } else {
        None
    }
}

/// Reads a length-prefixed byte string off the front.
pub open spec fn take_blob(s: Seq<u8>) -> Option<(Seq<u8>, Seq<u8>)> {
    match take_le(s, 4) {
        Some((n, r)) => if r.len() >= n {
            Some((r.take(n as int), r.skip(n as int)))
        } else {
            None
        },
        None => None,
    }
}

pub open spec fn take_bool(s: Seq<u8>) -> Option<(bool, Seq<u8>)> {
    if s.len() >= 1 {
        if s[0] == 0 {
            Some((false, s.skip(1)))
        } else if s[0] == 1 {
            Some((true, s.skip(1)))
        } else {
            None
        }
    } else {
        None
    }
}

pub open spec fn take_judgement(s: Seq<u8>) -> Option<(Judgement, Seq<u8>)> {
    if s.len() >= 1 {
        let r = s.skip(1);
        if s[0] == 0 {
            Some((Judgement::Unknown, r))
        } else if s[0] == 1 {
            match take_le(r, 16) {
                Some((v, r2)) => Some((Judgement::FeePaid(v as u128), r2)),
                None => None,
            }
        } else if s[0] == 2 {
            Some((Judgement::Reasonable, r))
        } else if s[0] == 3 {
            Some((Judgement::KnownGood, r))
        } else if s[0] == 4 {
            Some((Judgement::OutOfDate, r))
        } else if s[0] == 5 {
            Some((Judgement::LowQuality, r))
        } else if s[0] == 6 {
            Some((Judgement::Erroneous, r))
        } else {
            None
        }
    } else {
        None
    }
}

pub open spec fn take_judgements(s: Seq<u8>, n: nat) -> Option<(Seq<(u32, Judgement)>, Seq<u8>)>
    decreases n,
{
    if n == 0 {
        Some((Seq::empty(), s))
    } else {
        match take_le(s, 4) {
            Some((issuer, r)) => match take_judgement(r) {
                Some((j, r2)) => match take_judgements(r2, (n - 1) as nat) {
                    Some((js, r3)) => Some((seq![(issuer as u32, j)] + js, r3)),
                    None => None,
                },
                None => None,
            },
            None => None,
        }
    }
}

pub open spec fn take_reg(s: Seq<u8>) -> Option<(RegModel, Seq<u8>)> {
    match take_blob(s) {
        Some((display, r)) => match take_blob(r) {
            Some((github, r2)) => match take_le(r2, 4) {
                Some((n, r3)) => match take_judgements(r3, n) {
                    Some((js, r4)) => Some(
                        (RegModel { display, github, judgements: js }, r4),
                    ),
                    None => None,
                },
                None => None,
            },
            None => None,
        },
        None => None,
    }
}

pub open spec fn take_opt_reg(s: Seq<u8>) -> Option<(Option<RegModel>, Seq<u8>)> {
    match take_bool(s) {
        Some((present, r)) => if present {
            match take_reg(r) {
                Some((reg, r2)) => Some((Some(reg), r2)),
                None => None,
            }
        } else {
            Some((None, r))
        },
        None => None,
    }
}

/// A persisted string: a blob that must be valid UTF-8.
pub open spec fn take_opt_str(s: Seq<u8>) -> Option<(Option<Seq<char>>, Seq<u8>)> {
    match take_bool(s) {
        Some((present, r)) => if present {
            match take_blob(r) {
                Some((b, r2)) => if valid_utf8(b) {
                    Some((Some(decode_utf8(b)), r2))
                } else {
                    None
                },
                None => None,
            }
        } else {
            Some((None, r))
        },
        None => None,
    }
}

pub open spec fn take_opt_u64(s: Seq<u8>) -> Option<(Option<u64>, Seq<u8>)> {
    match take_bool(s) {
        Some((present, r)) => if present {
            match take_le(r, 8) {
                Some((v, r2)) => Some((Some(v as u64), r2)),
                None => None,
            }
        } else {
            Some((None, r))
        },
        None => None,
    }
}

pub open spec fn take_opt_u32(s: Seq<u8>) -> Option<(Option<u32>, Seq<u8>)> {
    match take_bool(s) {
        Some((present, r)) => if present {
            match take_le(r, 4) {
                Some((v, r2)) => Some((Some(v as u32), r2)),
                None => None,
            }
        } else {
            Some((None, r))
        },
        None => None,
    }
}

pub open spec fn take_member(s: Seq<u8>) -> Option<(MemberModel, Seq<u8>)> {
    if s.len() >= 32 {
        let account = s.take(32);
        let r = s.skip(32);
        match take_le(r, 2) {
            Some((rank, r2)) => match take_opt_reg(r2) {
                Some((identity, r3)) => match take_opt_str(r3) {
                    Some((github, r4)) => match take_bool(r4) {
                        Some((links_back, r5)) => match take_opt_u32(r5) {
                            Some((score, r6)) => Some(
                                (
                                    MemberModel {
                                        account,
                                        rank: rank as u16,
                                        identity,
                                        github,
                                        links_back,
                                        score,
                                    },
                                    r6,
                                ),
                            ),
                            None => None,
                        },
                        None => None,
                    },
                    None => None,
                },
                None => None,
            },
            None => None,
        }
    } else {
        None
    }
}

pub open spec fn take_members(s: Seq<u8>, n: nat) -> Option<(Seq<MemberModel>, Seq<u8>)>
    decreases n,
{
    if n == 0 {
        Some((Seq::empty(), s))
    } else {
        match take_member(s) {
            Some((m, r)) => match take_members(r, (n - 1) as nat) {
                Some((ms, r2)) => Some((seq![m] + ms, r2)),
                None => None,
            },
            None => None,
        }
    }
}

/// The full parse: succeeds exactly on a complete, well-formed encoding
/// with distinct accounts and nothing trailing.
pub open spec fn parse_snapshot(b: Seq<u8>) -> Option<SnapModel> {
    if b.len() >= 1 && b[0] == SNAP_VERSION {
        match take_le(b.skip(1), 4) {
            Some((n, r)) => match take_members(r, n) {
                Some((ms, r2)) => match take_opt_u64(r2) {
                    Some((ts, r3)) => if r3.len() == 0 && unique_accounts(ms) {
                        Some(SnapModel { members: ms, captured_at: ts })
                    } else {
                        None
                    },
                    None => None,
                },
                None => None,
            },
            None => None,
        }
    } else {
        None
    }
}

// ----- executable decoding -----

/// A corrupt, truncated, or wrongly versioned cache image.
#[derive(Clone, Copy, PartialEq, Eq, Structural, Debug)]
pub enum CacheError {
    Malformed,
}

/// Reads a `w`-byte little-endian integer, relating it to `take_le`.
fn read_le_checked(bytes: &[u8], pos: usize, w: usize) -> (r: Option<(u128, usize)>)
    requires
        pos <= bytes@.len(),
        1 <= w <= 16,
    ensures
        match r {
            Some((v, p2)) => take_le(bytes@.skip(pos as int), w as nat) == Some(
                (v as nat, bytes@.skip(p2 as int)),
            ) && pos <= p2 <= bytes@.len() && p2 == pos + w,
            None => take_le(bytes@.skip(pos as int), w as nat) is None,
        },
{
    if bytes.len() - pos >= w {
        let v = crate::wire::read_le(bytes, pos, w);
        proof {
            assert(bytes@.skip(pos as int).take(w as int) =~= bytes@.subrange(
                pos as int,
                pos + w,
            ));
            assert(bytes@.skip(pos as int).skip(w as int) =~= bytes@.skip(pos + w));
        }
        Some((v, pos + w))
    } else {
        None
    }
}

/// Reads a tag byte that must be 0 or 1.
fn read_bool(bytes: &[u8], pos: usize) -> (r: Option<(bool, usize)>)
    requires
        pos <= bytes@.len(),
    ensures
        match r {
            Some((v, p2)) => take_bool(bytes@.skip(pos as int)) == Some(
                (v, bytes@.skip(p2 as int)),
            ) && pos < p2 <= bytes@.len(),
            None => take_bool(bytes@.skip(pos as int)) is None,
        },
{
    if pos < bytes.len() {
        let b = bytes[pos];
        proof {
            assert(bytes@.skip(pos as int)[0] == bytes@[pos as int]);
            assert(bytes@.skip(pos as int).skip(1) =~= bytes@.skip(pos + 1));
        }
        if b == 0 {
            Some((false, pos + 1))
        } else if b == 1 {
            Some((true, pos + 1))
        } else {
            None
        }
    } else {
        None
    }
}

/// Reads a length-prefixed byte string.
fn read_blob(bytes: &[u8], pos: usize) -> (r: Option<(Vec<u8>, usize)>)
    requires
        pos <= bytes@.len(),
    ensures
        match r {
            Some((v, p2)) => take_blob(bytes@.skip(pos as int)) == Some(
                (v@, bytes@.skip(p2 as int)),
            ) && pos <= p2 <= bytes@.len() && v@.len() <= u32::MAX,
            None => take_blob(bytes@.skip(pos as int)) is None,
        },
{
    match read_le_checked(bytes, pos, 4) {
        None => None,
        Some((n128, p1)) => {
            proof {
                crate::wire::lemma_le_val_bound(bytes@.skip(pos as int).take(4));
                crate::wire::lemma_pow256_vals();
            }
            let n = n128 as usize;
            if bytes.len() - p1 >= n {
                let mut v: Vec<u8> = Vec::new();
                let mut k: usize = 0;
                while k < n
                    invariant
                        k <= n,
                        p1 + n <= bytes@.len() <= usize::MAX,
                        v@ == bytes@.subrange(p1 as int, p1 + k),
                    decreases n - k,
                {
                    proof {
                        assert(bytes@.subrange(p1 as int, p1 + k + 1) =~= bytes@.subrange(
                            p1 as int,
                            p1 + k,
                        ).push(bytes@[p1 + k]));
                    }
                    v.push(bytes[p1 + k]);
                    k = k + 1;
                }
                proof {
                    assert(bytes@.skip(p1 as int).take(n as int) =~= bytes@.subrange(
                        p1 as int,
                        p1 + n,
                    ));
                    assert(bytes@.skip(p1 as int).skip(n as int) =~= bytes@.skip(p1 + n));
                }
                Some((v, p1 + n))
            } else {
                None
            }
        },
    }
}

fn read_judgement(bytes: &[u8], pos: usize) -> (r: Option<(Judgement, usize)>)
    requires
        pos <= bytes@.len(),
    ensures
        match r {
            Some((j, p2)) => take_judgement(bytes@.skip(pos as int)) == Some(
                (j, bytes@.skip(p2 as int)),
            ) && pos < p2 <= bytes@.len(),
            None => take_judgement(bytes@.skip(pos as int)) is None,
        },
{
    if pos >= bytes.len() {
        return None;
    }
    let tag = bytes[pos];
    let p1 = pos + 1;
    proof {
        assert(bytes@.skip(pos as int)[0] == bytes@[pos as int]);
        assert(bytes@.skip(pos as int).skip(1) =~= bytes@.skip(p1 as int));
    }
    if tag == 0 {
        Some((Judgement::Unknown, p1))
    } else if tag == 1 {
        match read_le_checked(bytes, p1, 16) {
            None => None,
            Some((v, p2)) => {
                proof {
                    crate::wire::lemma_le_val_bound(bytes@.skip(p1 as int).take(16));
                    crate::wire::lemma_pow256_vals();
                }
                Some((Judgement::FeePaid(v), p2))
            },
        }
    } else if tag == 2 {
        Some((Judgement::Reasonable, p1))
    } else if tag == 3 {
        Some((Judgement::KnownGood, p1))
    } else if tag == 4 {
        Some((Judgement::OutOfDate, p1))
    } else if tag == 5 {
        Some((Judgement::LowQuality, p1))
    } else if tag == 6 {
        Some((Judgement::Erroneous, p1))
    } else {
        None
    }
}

fn read_judgements(bytes: &[u8], pos: usize, n: usize) -> (r: Option<
    (Vec<(u32, Judgement)>, usize),
>)
    requires
        pos <= bytes@.len(),
    ensures
        match r {
            Some((js, p2)) => take_judgements(bytes@.skip(pos as int), n as nat) == Some(
                (js@, bytes@.skip(p2 as int)),
            ) && pos <= p2 <= bytes@.len() && js@.len() == n,
            None => take_judgements(bytes@.skip(pos as int), n as nat) is None,
        },
{
    let ghost rem0 = bytes@.skip(pos as int);
    let mut acc: Vec<(u32, Judgement)> = Vec::new();
    let mut p = pos;
    let mut i: usize = 0;
    while i < n
        invariant
            i <= n,
            pos <= p <= bytes@.len(),
            rem0 == bytes@.skip(pos as int),
            acc@.len() == i,
            (match take_judgements(bytes@.skip(p as int), (n - i) as nat) {
                Some((js, rest)) => take_judgements(rem0, n as nat) == Some((acc@ + js, rest)),
                None => take_judgements(rem0, n as nat) is None,
            }),
        decreases n - i,
    {
        let issuer = match read_le_checked(bytes, p, 4) {
            Some((v, p2)) => (v, p2),
            None => {
                return None;
            },
        };
        let jr = match read_judgement(bytes, issuer.1) {
            Some(x) => x,
            None => {
                return None;
            },
        };
        proof {
            assert(take_judgements(bytes@.skip(jr.1 as int), (n - i - 1) as nat) matches Some(
                (js2, rest2),
            ) ==> acc@ + (seq![((issuer.0 as nat) as u32, jr.0)] + js2) =~= acc@.push(
                ((issuer.0 as nat) as u32, jr.0),
            ) + js2);
        }
        acc.push((issuer.0 as u32, jr.0));
        p = jr.1;
        i = i + 1;
    }
    proof {
        assert(take_judgements(bytes@.skip(p as int), 0) == Some(
            (Seq::<(u32, Judgement)>::empty(), bytes@.skip(p as int)),
        ));
        assert(acc@ + Seq::<(u32, Judgement)>::empty() =~= acc@);
        crate::wire::lemma_pow256_vals();
    }
    Some((acc, p))
}

fn read_reg(bytes: &[u8], pos: usize) -> (r: Option<(Registration, usize)>)
    requires
        pos <= bytes@.len(),
    ensures
        match r {
            Some((reg, p2)) => take_reg(bytes@.skip(pos as int)) == Some(
                (reg_model(reg), bytes@.skip(p2 as int)),
            ) && pos <= p2 <= bytes@.len() && reg_model_wf(reg_model(reg)),
            None => take_reg(bytes@.skip(pos as int)) is None,
        },
{
    let display = match read_blob(bytes, pos) {
        Some(x) => x,
        None => {
            return None;
        },
    };
    let github = match read_blob(bytes, display.1) {
        Some(x) => x,
        None => {
            return None;
        },
    };
    let count = match read_le_checked(bytes, github.1, 4) {
        Some(x) => x,
        None => {
            return None;
        },
    };
    proof {
        crate::wire::lemma_le_val_bound(bytes@.skip(github.1 as int).take(4));
        crate::wire::lemma_pow256_vals();
    }
    let js = match read_judgements(bytes, count.1, count.0 as usize) {
        Some(x) => x,
        None => {
            return None;
        },
    };
    let reg = Registration { display: display.0, github: github.0, judgements: js.0 };
    proof {
        assert(reg_model(reg) =~= (RegModel {
            display: reg.display@,
            github: reg.github@,
            judgements: reg.judgements@,
        }));
    }
    Some((reg, js.1))
}

#[verifier::rlimit(100)]
fn read_member(bytes: &[u8], pos: usize) -> (r: Option<(Fellow, usize)>)
    requires
        pos <= bytes@.len(),
    ensures
        match r {
            Some((f, p2)) => take_member(bytes@.skip(pos as int)) == Some(
                (member_model(f), bytes@.skip(p2 as int)),
            ) && f.wf() && pos <= p2 <= bytes@.len(),
            None => take_member(bytes@.skip(pos as int)) is None,
        },
{
    let ghost s = bytes@.skip(pos as int);
    if bytes.len() - pos < 32 {
        return None;
    }
    let mut accbytes: Vec<u8> = Vec::new();
    let mut k: usize = 0;
    while k < 32
        invariant
            k <= 32,
            pos + 32 <= bytes@.len() <= usize::MAX,
            accbytes@ == bytes@.subrange(pos as int, pos + k),
        decreases 32 - k,
    {
        proof {
            assert(bytes@.subrange(pos as int, pos + k + 1) =~= bytes@.subrange(
                pos as int,
                pos + k,
            ).push(bytes@[pos + k]));
        }
        accbytes.push(bytes[pos + k]);
        k = k + 1;
    }
    proof {
        assert(s.take(32) =~= bytes@.subrange(pos as int, pos + 32));
        assert(s.skip(32) =~= bytes@.skip(pos + 32));
    }
    let rank = match read_le_checked(bytes, pos + 32, 2) {
        Some(x) => x,
        None => {
            return None;
        },
    };
    let presence = match read_bool(bytes, rank.1) {
        Some(x) => x,
        None => {
            return None;
        },
    };
    let mut p = presence.1;
    let identity: Option<Registration> = if presence.0 {
        match read_reg(bytes, p) {
            Some((reg, p2)) => {
                p = p2;
                Some(reg)
            },
            None => {
                return None;
            },
        }
    } else {
        None
    };
    let ghost p_after_reg = p;
    let gh_presence = match read_bool(bytes, p) {
        Some(x) => x,
        None => {
            return None;
        },
    };
    p = gh_presence.1;
    let github: Option<String> = if gh_presence.0 {
        match read_blob(bytes, p) {
            Some((blob, p2)) => {
                let ghost blobview = blob@;
                match crate::codec::bytes_to_string(blob) {
                    Some(st) => {
                        proof {
                            vstd::utf8::decode_utf8_encode_utf8(blobview);
                        }
                        p = p2;
                        Some(st)
                    },
                    None => {
                        return None;
                    },
                }
            },
            None => {
                return None;
            },
        }
    } else {
        None
    };
    let ghost p_after_str = p;
    let links = match read_bool(bytes, p) {
        Some(x) => x,
        None => {
            return None;
        },
    };
    p = links.1;
    let sc_presence = match read_bool(bytes, p) {
        Some(x) => x,
        None => {
            return None;
        },
    };
    p = sc_presence.1;
    let score: Option<u32> = if sc_presence.0 {
        match read_le_checked(bytes, p, 4) {
            Some((v, p2)) => {
                p = p2;
                Some(v as u32)
            },
            None => {
                return None;
            },
        }
    } else {
        None
    };
    let f = Fellow {
        account: crate::account::AccountId { bytes: accbytes },
        rank: rank.0 as u16,
        identity,
        github,
        github_links_back: links.0,
        score,
    };
    proof {
        assert(take_member(s) matches Some((m, rest)) && m =~= member_model(f) && rest
            == bytes@.skip(p as int));
    }
    Some((f, p))
}

/// True iff all member accounts are pairwise distinct.
fn check_unique(members: &Vec<Fellow>) -> (r: bool)
    ensures
        r == unique_accounts(members@.map(|i: int, f: Fellow| member_model(f))),
{
    let ghost ms = members@.map(|i: int, f: Fellow| member_model(f));
    let mut i: usize = 0;
    while i < members.len()
        invariant
            i <= members@.len(),
            ms == members@.map(|i: int, f: Fellow| member_model(f)),
            forall|a: int, b: int|
                0 <= a < b < members@.len() && a < i ==> ms[a].account != ms[b].account,
        decreases members@.len() - i,
    {
        let mut j: usize = i + 1;
        while j < members.len()
            invariant
                i < j <= members@.len() || (i + 1 == j && j > members@.len() - 1),
                i < members@.len(),
                j >= i + 1,
                ms == members@.map(|i: int, f: Fellow| member_model(f)),
                forall|b: int| i < b < j ==> ms[i as int].account != ms[b].account,
            decreases members@.len() - j,
        {
            if members[i].account.eq_account(&members[j].account) {
                assert(ms[i as int].account == ms[j as int].account);
                return false;
            }
            j = j + 1;
        }
        i = i + 1;
    }
    true
}

impl Fellows {
    /// Decodes a snapshot image.  Succeeds exactly when the bytes are a
    /// complete well-formed encoding with pairwise distinct accounts;
    /// the statistics come back zeroed and must be recomputed by
    /// `finalize` before the snapshot is usable.
    pub fn from_bytes(bytes: &[u8]) -> (r: Result<Fellows, CacheError>)
        ensures
            match r {
                Ok(f) => parse_snapshot(bytes@) == Some(snap_model(f)) && f.wf() && f.num_named
                    == 0 && f.num_verified == 0 && f.num_github == 0 && f.num_github_verified == 0
                    && f.num_accounts == 0,
                Err(e) => parse_snapshot(bytes@) is None && e == CacheError::Malformed,
            },
    {
        if bytes.len() < 1 {
            return Err(CacheError::Malformed);
        }
        if bytes[0] != SNAP_VERSION {
            return Err(CacheError::Malformed);
        }
        let count = match read_le_checked(bytes, 1, 4) {
            Some(x) => x,
            None => {
                return Err(CacheError::Malformed);
            },
        };
        proof {
            crate::wire::lemma_le_val_bound(bytes@.skip(1).take(4));
            crate::wire::lemma_pow256_vals();
        }
        let n = count.0 as usize;
        let ghost n_nat = count.0 as nat;
        let ghost rem0 = bytes@.skip(count.1 as int);
        let mut members: Vec<Fellow> = Vec::new();
        let mut pos = count.1;
        let mut i: usize = 0;
        while i < n
            invariant
                i <= n,
                n <= u32::MAX,
                n_nat == n,
                pos <= bytes@.len(),
                count.1 <= bytes@.len(),
                rem0 == bytes@.skip(count.1 as int),
                bytes@.len() >= 1 && bytes@[0] == SNAP_VERSION,
                take_le(bytes@.skip(1), 4) == Some((n_nat, rem0)),
                members@.len() == i,
                forall|k: int| 0 <= k < i ==> (#[trigger] members@[k]).wf(),
                (match take_members(bytes@.skip(pos as int), (n - i) as nat) {
                    Some((ms2, rest)) => take_members(rem0, n_nat) == Some(
                        (members@.map(|q: int, f: Fellow| member_model(f)) + ms2, rest),
                    ),
                    None => take_members(rem0, n_nat) is None,
                }),
            decreases n - i,
        {
            let m = match read_member(bytes, pos) {
                Some(x) => x,
                None => {
                    return Err(CacheError::Malformed);
                },
            };
            proof {
                let mapped = members@.map(|q: int, f: Fellow| member_model(f));
                let mapped2 = members@.push(m.0).map(|q: int, f: Fellow| member_model(f));
                assert(mapped2 =~= mapped + seq![member_model(m.0)]);
                match take_members(bytes@.skip(m.1 as int), (n - i - 1) as nat) {
                    Some((ms3, rest3)) => {
                        assert(mapped + (seq![member_model(m.0)] + ms3) =~= mapped2 + ms3);
                    },
                    None => {},
                }
            }
            members.push(m.0);
            pos = m.1;
            i = i + 1;
        }
        proof {
            assert(take_members(bytes@.skip(pos as int), 0) == Some(
                (Seq::<MemberModel>::empty(), bytes@.skip(pos as int)),
            ));
            assert(members@.map(|q: int, f: Fellow| member_model(f))
                + Seq::<MemberModel>::empty() =~= members@.map(
                |q: int, f: Fellow| member_model(f),
            ));
        }
        let ghost pos_m = pos as int;
        let ghost mapped = members@.map(|q: int, f: Fellow| member_model(f));
        let ts_presence = match read_bool(bytes, pos) {
            Some(x) => x,
            None => {
                return Err(CacheError::Malformed);
            },
        };
        pos = ts_presence.1;
        let last_updated: Option<u64> = if ts_presence.0 {
            match read_le_checked(bytes, pos, 8) {
                Some((v, p2)) => {
                    pos = p2;
                    Some(v as u64)
                },
                None => {
                    return Err(CacheError::Malformed);
                },
            }
        } else {
            None
        };
        proof {
            assert(take_opt_u64(bytes@.skip(pos_m)) == Some((last_updated, bytes@.skip(pos as int))));
        }
        if pos != bytes.len() {
            return Err(CacheError::Malformed);
        }
        proof {
            assert(bytes@.skip(pos as int).len() == 0);
        }
        if !check_unique(&members) {
            return Err(CacheError::Malformed);
        }
        let f = Fellows {
            members,
            last_updated,
            num_named: 0,
            num_verified: 0,
            num_github: 0,
            num_github_verified: 0,
            num_accounts: 0,
        };
        proof {
            assert(snap_model(f).members == mapped);
            assert(take_members(rem0, n_nat) == Some((mapped, bytes@.skip(pos_m))));
            assert forall|a: int, b: int|
                0 <= a < b < f.members@.len() implies f.members@[a].account.bytes@
                != f.members@[b].account.bytes@ by {
                assert(mapped[a] == member_model(f.members@[a]));
                assert(mapped[b] == member_model(f.members@[b]));
            }
            assert(f.wf());
            assert(parse_snapshot(bytes@) matches Some(sm) && sm =~= snap_model(f));
        }
        Ok(f)
    }
}

} // verus!

verus! {

// ----- the encoding parses back to what was encoded -----

proof fn lemma_take_le_enc(v: nat, w: nat, rest: Seq<u8>)
    requires
        v < pow256(w),
    ensures
        take_le(le_bytes(v, w) + rest, w) == Some((v, rest)),
{
    lemma_le_bytes_len(v, w);
    let s = le_bytes(v, w) + rest;
    assert(s.take(w as int) =~= le_bytes(v, w));
    assert(s.skip(w as int) =~= rest);
    lemma_le_val_le_bytes(v, w);
}

proof fn lemma_take_blob_enc(b: Seq<u8>, rest: Seq<u8>)
    requires
        b.len() <= u32::MAX,
    ensures
        take_blob(enc_blob(b) + rest) == Some((b, rest)),
{
    crate::wire::lemma_pow256_vals();
    let tail = b + rest;
    assert(enc_blob(b) + rest =~= le_bytes(b.len(), 4) + tail);
    lemma_take_le_enc(b.len(), 4, tail);
    assert(tail.take(b.len() as int) =~= b);
    assert(tail.skip(b.len() as int) =~= rest);
}

proof fn lemma_take_bool_enc(b: bool, rest: Seq<u8>)
    ensures
        take_bool(enc_bool(b) + rest) == Some((b, rest)),
{
    let s = enc_bool(b) + rest;
    assert(s[0] == if b {
        1u8
    } else {
        0u8
    });
    assert(s.skip(1) =~= rest);
}

proof fn lemma_take_judgement_enc(j: Judgement, rest: Seq<u8>)
    ensures
        take_judgement(enc_judgement(j) + rest) == Some((j, rest)),
{
    crate::wire::lemma_pow256_vals();
    let s = enc_judgement(j) + rest;
    match j {
        Judgement::FeePaid(x) => {
            assert(s[0] == 1u8);
            assert(s.skip(1) =~= le_bytes(x as nat, 16) + rest);
            lemma_take_le_enc(x as nat, 16, rest);
        },
        _ => {
            assert(s.skip(1) =~= rest);
        },
    }
}

proof fn lemma_take_judgements_enc(js: Seq<(u32, Judgement)>, rest: Seq<u8>)
    ensures
        take_judgements(enc_judgements(js) + rest, js.len()) == Some((js, rest)),
    decreases js.len(),
{
    crate::wire::lemma_pow256_vals();
    if js.len() == 0 {
        assert(enc_judgements(js) + rest =~= rest);
        assert(Seq::<(u32, Judgement)>::empty() =~= js);
    } else {
        let t2 = enc_judgements(js.skip(1)) + rest;
        let t1 = enc_judgement(js[0].1) + t2;
        assert(enc_judgements(js) + rest =~= le_bytes(js[0].0 as nat, 4) + t1);
        lemma_take_le_enc(js[0].0 as nat, 4, t1);
        lemma_take_judgement_enc(js[0].1, t2);
        lemma_take_judgements_enc(js.skip(1), rest);
        assert(seq![((js[0].0 as nat) as u32, js[0].1)] + js.skip(1) =~= js);
    }
}

proof fn lemma_take_reg_enc(r: RegModel, rest: Seq<u8>)
    requires
        reg_model_wf(r),
    ensures
        take_reg(enc_reg(r) + rest) == Some((r, rest)),
{
    crate::wire::lemma_pow256_vals();
    let t3 = enc_judgements(r.judgements) + rest;
    let t2 = le_bytes(r.judgements.len(), 4) + t3;
    let t1 = enc_blob(r.github) + t2;
    assert(enc_reg(r) + rest =~= enc_blob(r.display) + t1);
    lemma_take_blob_enc(r.display, t1);
    lemma_take_blob_enc(r.github, t2);
    lemma_take_le_enc(r.judgements.len(), 4, t3);
    lemma_take_judgements_enc(r.judgements, rest);
    assert((RegModel { display: r.display, github: r.github, judgements: r.judgements }) =~= r);
}

proof fn lemma_take_opt_reg_enc(o: Option<RegModel>, rest: Seq<u8>)
    requires
        o matches Some(r) ==> reg_model_wf(r),
    ensures
        take_opt_reg(enc_opt_reg(o) + rest) == Some((o, rest)),
{
    match o {
        None => {
            lemma_take_bool_enc(false, rest);
            assert(enc_opt_reg(o) + rest =~= enc_bool(false) + rest);
        },
        Some(r) => {
            let t1 = enc_reg(r) + rest;
            assert(enc_opt_reg(o) + rest =~= enc_bool(true) + t1);
            lemma_take_bool_enc(true, t1);
            lemma_take_reg_enc(r, rest);
        },
    }
}

proof fn lemma_take_opt_str_enc(o: Option<Seq<char>>, rest: Seq<u8>)
    requires
        o matches Some(s) ==> encode_utf8(s).len() <= u32::MAX,
    ensures
        take_opt_str(enc_opt_str(o) + rest) == Some((o, rest)),
{
    match o {
        None => {
            lemma_take_bool_enc(false, rest);
            assert(enc_opt_str(o) + rest =~= enc_bool(false) + rest);
        },
        Some(s) => {
            let t1 = enc_blob(encode_utf8(s)) + rest;
            assert(enc_opt_str(o) + rest =~= enc_bool(true) + t1);
            lemma_take_bool_enc(true, t1);
            lemma_take_blob_enc(encode_utf8(s), rest);
            encode_utf8_valid_utf8(s);
            encode_utf8_decode_utf8(s);
        },
    }
}

proof fn lemma_take_opt_u64_enc(o: Option<u64>, rest: Seq<u8>)
    ensures
        take_opt_u64(enc_opt_u64(o) + rest) == Some((o, rest)),
{
    crate::wire::lemma_pow256_vals();
    match o {
        None => {
            lemma_take_bool_enc(false, rest);
            assert(enc_opt_u64(o) + rest =~= enc_bool(false) + rest);
        },
        Some(v) => {
            let t1 = le_bytes(v as nat, 8) + rest;
            assert(enc_opt_u64(o) + rest =~= enc_bool(true) + t1);
            lemma_take_bool_enc(true, t1);
            lemma_take_le_enc(v as nat, 8, rest);
        },
    }
}

proof fn lemma_take_opt_u32_enc(o: Option<u32>, rest: Seq<u8>)
    ensures
        take_opt_u32(enc_opt_u32(o) + rest) == Some((o, rest)),
{
    crate::wire::lemma_pow256_vals();
    match o {
        None => {
            lemma_take_bool_enc(false, rest);
            assert(enc_opt_u32(o) + rest =~= enc_bool(false) + rest);
        },
        Some(v) => {
            let t1 = le_bytes(v as nat, 4) + rest;
            assert(enc_opt_u32(o) + rest =~= enc_bool(true) + t1);
            lemma_take_bool_enc(true, t1);
            lemma_take_le_enc(v as nat, 4, rest);
        },
    }
}

#[verifier::rlimit(60)]
proof fn lemma_take_member_enc(m: MemberModel, rest: Seq<u8>)
    requires
        member_model_wf(m),
    ensures
        take_member(enc_member(m) + rest) == Some((m, rest)),
{
    crate::wire::lemma_pow256_vals();
    lemma_le_bytes_len(m.rank as nat, 2);
    let t5 = enc_opt_u32(m.score) + rest;
    let t4 = enc_bool(m.links_back) + t5;
    let t3 = enc_opt_str(m.github) + t4;
    let t2 = enc_opt_reg(m.identity) + t3;
    let t1 = le_bytes(m.rank as nat, 2) + t2;
    let s = enc_member(m) + rest;
    assert(s =~= m.account + t1);
    assert(s.take(32) =~= m.account);
    assert(s.skip(32) =~= t1);
    lemma_take_le_enc(m.rank as nat, 2, t2);
    lemma_take_opt_reg_enc(m.identity, t3);
    lemma_take_opt_str_enc(m.github, t4);
    lemma_take_bool_enc(m.links_back, t5);
    lemma_take_opt_u32_enc(m.score, rest);
    assert((MemberModel {
        account: m.account,
        rank: m.rank,
        identity: m.identity,
        github: m.github,
        links_back: m.links_back,
        score: m.score,
    }) =~= m);
}

/// Concatenation of byte sequences is associative.
proof fn lemma_seq_assoc(a: Seq<u8>, b: Seq<u8>, c: Seq<u8>)
    ensures
        (a + b) + c == a + (b + c),
{
    assert((a + b) + c =~= a + (b + c));
}

#[verifier::spinoff_prover]
proof fn lemma_take_members_enc(ms: Seq<MemberModel>, rest: Seq<u8>)
    requires
        forall|i: int| 0 <= i < ms.len() ==> member_model_wf(#[trigger] ms[i]),
    ensures
        take_members(enc_members(ms) + rest, ms.len()) == Some((ms, rest)),
    decreases ms.len(),
{
    if ms.len() == 0 {
        assert(enc_members(ms) + rest =~= rest);
        assert(Seq::<MemberModel>::empty() =~= ms);
    } else {
        let t1 = enc_members(ms.skip(1)) + rest;
        lemma_seq_assoc(enc_member(ms[0]), enc_members(ms.skip(1)), rest);
        assert(enc_members(ms) + rest == enc_member(ms[0]) + t1);
        lemma_take_member_enc(ms[0], t1);
        assert(forall|i: int|
            0 <= i < ms.skip(1).len() ==> member_model_wf(#[trigger] ms.skip(1)[i]));
        lemma_take_members_enc(ms.skip(1), rest);
        assert(seq![ms[0]] + ms.skip(1) =~= ms);
    }
}

/// Splitting a list splits its encoding.
proof fn lemma_enc_judgements_concat(a: Seq<(u32, Judgement)>, b: Seq<(u32, Judgement)>)
    ensures
        enc_judgements(a + b) == enc_judgements(a) + enc_judgements(b),
    decreases a.len(),
{
    if a.len() == 0 {
        assert(a + b =~= b);
        assert(enc_judgements(a) + enc_judgements(b) =~= enc_judgements(b));
    } else {
        assert((a + b).skip(1) =~= a.skip(1) + b);
        lemma_enc_judgements_concat(a.skip(1), b);
        assert((a + b)[0] == a[0]);
        assert(enc_judgements(a + b) =~= enc_judgements(a) + enc_judgements(b));
    }
}

/// Splitting the member list splits its encoding.
proof fn lemma_enc_members_concat(a: Seq<MemberModel>, b: Seq<MemberModel>)
    ensures
        enc_members(a + b) == enc_members(a) + enc_members(b),
    decreases a.len(),
{
    if a.len() == 0 {
        assert(a + b =~= b);
        assert(enc_members(a) + enc_members(b) =~= enc_members(b));
    } else {
        assert((a + b).skip(1) =~= a.skip(1) + b);
        lemma_enc_members_concat(a.skip(1), b);
        assert((a + b)[0] == a[0]);
        assert(enc_members(a + b) =~= enc_members(a) + enc_members(b));
    }
}

// ----- executable encoding -----

/// Appends a byte slice.
fn push_bytes(out: &mut Vec<u8>, b: &[u8])
    ensures
        final(out)@ == old(out)@ + b@,
{
    let ghost start = out@;
    let mut i: usize = 0;
    while i < b.len()
        invariant
            i <= b@.len(),
            out@ == start + b@.subrange(0, i as int),
        decreases b@.len() - i,
    {
        proof {
            assert(start + b@.subrange(0, i + 1) =~= (start + b@.subrange(0, i as int)).push(
                b@[i as int],
            ));
        }
        out.push(b[i]);
        i = i + 1;
    }
    proof {
        assert(start + b@.subrange(0, b@.len() as int) =~= start + b@);
    }
}

/// Appends a length-prefixed byte string.
fn push_blob(out: &mut Vec<u8>, b: &[u8])
    requires
        b@.len() <= u32::MAX,
    ensures
        final(out)@ == old(out)@ + enc_blob(b@),
{
    push_le(out, b.len() as u128, 4);
    push_bytes(out, b);
    proof {
        assert(old(out)@ + le_bytes(b@.len(), 4) + b@ =~= old(out)@ + enc_blob(b@));
    }
}

/// Appends a presence / truth tag byte.
fn push_bool(out: &mut Vec<u8>, v: bool)
    ensures
        final(out)@ == old(out)@ + enc_bool(v),
{
    if v {
        out.push(1);
    } else {
        out.push(0);
    }
    proof {
        assert(out@ =~= old(out)@ + enc_bool(v));
    }
}

fn push_judgement(out: &mut Vec<u8>, j: Judgement)
    ensures
        final(out)@ == old(out)@ + enc_judgement(j),
{
    match j {
        Judgement::Unknown => out.push(0),
        Judgement::FeePaid(x) => {
            out.push(1);
            push_le(out, x, 16);
        },
        Judgement::Reasonable => out.push(2),
        Judgement::KnownGood => out.push(3),
        Judgement::OutOfDate => out.push(4),
        Judgement::LowQuality => out.push(5),
        Judgement::Erroneous => out.push(6),
    }
    proof {
        assert(out@ =~= old(out)@ + enc_judgement(j));
    }
}

fn push_judgements(out: &mut Vec<u8>, js: &Vec<(u32, Judgement)>)
    ensures
        final(out)@ == old(out)@ + enc_judgements(js@),
{
    let ghost start = out@;
    let mut i: usize = 0;
    proof {
        assert(js@.take(0) =~= Seq::<(u32, Judgement)>::empty());
        assert(start + enc_judgements(js@.take(0)) =~= start);
    }
    while i < js.len()
        invariant
            i <= js@.len(),
            out@ == start + enc_judgements(js@.take(i as int)),
        decreases js@.len() - i,
    {
        let (issuer, j) = js[i];
        push_le(out, issuer as u128, 4);
        push_judgement(out, j);
        proof {
            assert(js@.take(i + 1) =~= js@.take(i as int) + seq![js@[i as int]]);
            lemma_enc_judgements_concat(js@.take(i as int), seq![js@[i as int]]);
            assert(seq![js@[i as int]].skip(1) =~= Seq::<(u32, Judgement)>::empty());
            assert(enc_judgements(Seq::<(u32, Judgement)>::empty()) =~= Seq::<u8>::empty());
            assert(enc_judgements(seq![js@[i as int]]) =~= le_bytes(js@[i as int].0 as nat, 4)
                + enc_judgement(js@[i as int].1));
            assert(out@ =~= start + enc_judgements(js@.take(i + 1)));
        }
        i = i + 1;
    }
    proof {
        assert(js@.take(js@.len() as int) =~= js@);
    }
}

fn push_reg(out: &mut Vec<u8>, r: &Registration)
    requires
        reg_model_wf(reg_model(*r)),
    ensures
        final(out)@ == old(out)@ + enc_reg(reg_model(*r)),
{
    push_blob(out, r.display.as_slice());
    push_blob(out, r.github.as_slice());
    push_le(out, r.judgements.len() as u128, 4);
    push_judgements(out, &r.judgements);
    proof {
        assert(out@ =~= old(out)@ + enc_reg(reg_model(*r)));
    }
}

#[verifier::rlimit(80)]
fn push_member(out: &mut Vec<u8>, f: &Fellow)
    requires
        f.wf(),
    ensures
        final(out)@ == old(out)@ + enc_member(member_model(*f)),
{
    push_bytes(out, f.account.bytes.as_slice());
    push_le(out, f.rank as u128, 2);
    match &f.identity {
        None => push_bool(out, false),
        Some(reg) => {
            push_bool(out, true);
            push_reg(out, reg);
        },
    }
    match &f.github {
        None => push_bool(out, false),
        Some(s) => {
            push_bool(out, true);
            push_blob(out, s.as_str().as_bytes());
        },
    }
    push_bool(out, f.github_links_back);
    match f.score {
        None => push_bool(out, false),
        Some(v) => {
            push_bool(out, true);
            push_le(out, v as u128, 4);
        },
    }
    proof {
        assert(out@ =~= old(out)@ + enc_member(member_model(*f)));
    }
}

impl Fellows {
    /// The complete, self-contained binary encoding of this directory:
    /// members and capture time; the statistics are not persisted.
    pub fn to_bytes(&self) -> (r: Vec<u8>)
        requires
            self.wf(),
        ensures
            r@ == spec_encode(snap_model(*self)),
    {
        let ghost mm = snap_model(*self).members;
        let mut out: Vec<u8> = Vec::new();
        out.push(SNAP_VERSION);
        push_le(&mut out, self.members.len() as u128, 4);
        let ghost head = seq![SNAP_VERSION] + le_bytes(mm.len(), 4);
        proof {
            assert(out@ =~= head + enc_members(mm.take(0)));
        }
        let mut i: usize = 0;
        while i < self.members.len()
            invariant
                i <= self.members@.len(),
                self.wf(),
                mm == snap_model(*self).members,
                head == seq![SNAP_VERSION] + le_bytes(mm.len(), 4),
                out@ == head + enc_members(mm.take(i as int)),
            decreases self.members@.len() - i,
        {
            push_member(&mut out, &self.members[i]);
            proof {
                assert(mm[i as int] == member_model(self.members@[i as int]));
                assert(mm.take(i + 1) =~= mm.take(i as int) + seq![mm[i as int]]);
                lemma_enc_members_concat(mm.take(i as int), seq![mm[i as int]]);
                assert(seq![mm[i as int]].skip(1) =~= Seq::<MemberModel>::empty());
                assert(enc_members(Seq::<MemberModel>::empty()) =~= Seq::<u8>::empty());
                assert(enc_members(seq![mm[i as int]]) =~= enc_member(mm[i as int]));
                assert(out@ =~= head + enc_members(mm.take(i + 1)));
            }
            i = i + 1;
        }
        proof {
            assert(mm.take(mm.len() as int) =~= mm);
        }
        match self.last_updated {
            None => push_bool(&mut out, false),
            Some(t) => {
                push_bool(&mut out, true);
                push_le(&mut out, t as u128, 8);
            },
        }
        proof {
            assert(out@ =~= spec_encode(snap_model(*self)));
        }
        out
    }
}

/// Decoding an encoded well-formed snapshot yields exactly that
/// snapshot: the persisted form round-trips.
#[verifier::rlimit(80)]
pub proof fn lemma_snapshot_round_trip(s: SnapModel)
    requires
        snap_model_wf(s),
    ensures
        parse_snapshot(spec_encode(s)) == Some(s),
{
    crate::wire::lemma_pow256_vals();
    let b = spec_encode(s);
    let t2 = enc_opt_u64(s.captured_at);
    let t1 = enc_members(s.members) + t2;
    let t0 = le_bytes(s.members.len(), 4) + t1;
    assert(b =~= seq![SNAP_VERSION] + t0);
    assert(b[0] == SNAP_VERSION);
    assert(b.skip(1) =~= t0);
    lemma_take_le_enc(s.members.len(), 4, t1);
    lemma_take_members_enc(s.members, t2);
    assert(t2 =~= enc_opt_u64(s.captured_at) + Seq::<u8>::empty());
    lemma_take_opt_u64_enc(s.captured_at, Seq::empty());
    assert((SnapModel { members: s.members, captured_at: s.captured_at }) =~= s);
}

/// A well-formed directory has a well-formed persisted form.
pub proof fn lemma_snap_model_wf(f: Fellows)
    requires
        f.wf(),
    ensures
        snap_model_wf(snap_model(f)),
{
    let ms = snap_model(f).members;
    assert forall|i: int| 0 <= i < ms.len() implies member_model_wf(#[trigger] ms[i]) by {
        assert(ms[i] == member_model(f.members@[i]));
        assert(f.members@[i].wf());
    }
    assert forall|i: int, j: int| 0 <= i < j < ms.len() implies ms[i].account != ms[j].account by {
        assert(ms[i] == member_model(f.members@[i]));
        assert(ms[j] == member_model(f.members@[j]));
    }
}

/// Saving then loading a well-formed directory yields a snapshot with
/// identical members and capture time; the statistics are not part of
/// the persisted form and are recomputed by `finalize`.
pub proof fn lemma_directory_round_trip(f: Fellows)
    requires
        f.wf(),
    ensures
        parse_snapshot(spec_encode(snap_model(f))) == Some(snap_model(f)),
{
    lemma_snap_model_wf(f);
    lemma_snapshot_round_trip(snap_model(f));
}

} // verus!
