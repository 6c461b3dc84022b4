//! The social cross-check: normalizing a claimed external handle and
//! testing whether a fetched profile biography references the member's
//! canonical address.

use vstd::prelude::*;
use vstd::utf8::encode_utf8;
use crate::account::ss58_of;
use crate::member::Fellow;

verus! {

/// The whitespace stripped from the ends of a claimed handle.
pub open spec fn is_space_char(c: char) -> bool {
    c == ' ' || c == '\t' || c == '\n' || c == '\r'
}

pub open spec fn trim_front(h: Seq<char>) -> Seq<char>
    decreases h.len(),
{
    if h.len() > 0 && is_space_char(h[0]) {
        trim_front(h.skip(1))
    } else {
        h
    }
}

pub open spec fn trim_back(h: Seq<char>) -> Seq<char>
    decreases h.len(),
{
    if h.len() > 0 && is_space_char(h.last()) {
        trim_back(h.drop_last())
    } else {
        h
    }
}

/// A claimed handle as it is queried upstream: surrounding whitespace
/// trimmed, then one leading `@` removed.
pub open spec fn spec_normalize(h: Seq<char>) -> Seq<char> {
    let t = trim_back(trim_front(h));
    if t.len() > 0 && t[0] == '@' {
        t.skip(1)
    } else {
        t
    }
}

/// `needle` occurs contiguously in `hay`.
pub open spec fn has_sub(hay: Seq<u8>, needle: Seq<u8>) -> bool {
    exists|i: int|
        0 <= i <= hay.len() - needle.len() && #[trigger] hay.subrange(i, i + needle.len())
            == needle
}

fn is_space(c: char) -> (r: bool)
    ensures
        r == is_space_char(c),
{
    c == ' ' || c == '\t' || c == '\n' || c == '\r'
}

/// Normalizes a claimed handle for the upstream profile query.
pub fn normalize_handle(h: &str) -> (r: String)
    ensures
        r@ == spec_normalize(h@),
{
    let n = h.unicode_len();
    let mut start: usize = 0;
    proof {
        assert(h@.skip(0) =~= h@);
    }
    while start < n && is_space(h.get_char(start))
        invariant
            start <= n == h@.len(),
            trim_front(h@.skip(start as int)) == trim_front(h@),
        decreases n - start,
    {
        proof {
            assert(h@.skip(start as int)[0] == h@[start as int]);
            assert(h@.skip(start as int).skip(1) =~= h@.skip(start + 1));
        }
        start = start + 1;
    }
    proof {
        if start < n {
            assert(trim_front(h@.skip(start as int)) == h@.skip(start as int));
        } else {
            assert(h@.skip(start as int) =~= Seq::<char>::empty());
        }
    }
    let ghost t_front = h@.skip(start as int);
    let mut end: usize = n;
    proof {
        assert(h@.subrange(start as int, n as int) =~= h@.skip(start as int));
    }
    while end > start && is_space(h.get_char(end - 1))
        invariant
            start <= end <= n == h@.len(),
            t_front == h@.skip(start as int),
            trim_front(h@) == t_front,
            trim_back(h@.subrange(start as int, end as int)) == trim_back(t_front),
        decreases end,
    {
        proof {
            let cur = h@.subrange(start as int, end as int);
            assert(cur.last() == h@[end - 1]);
            assert(cur.drop_last() =~= h@.subrange(start as int, end - 1));
        }
        end = end - 1;
    }
    proof {
        let cur = h@.subrange(start as int, end as int);
        if end > start {
            assert(trim_back(cur) == cur);
        } else {
            assert(cur =~= Seq::<char>::empty());
        }
    }
    let trimmed = if start < end && h.get_char(start) == '@' {
        h.substring_char(start + 1, end)
    } else {
        h.substring_char(start, end)
    };
    proof {
        let cur = h@.subrange(start as int, end as int);
        if start < end && h@[start as int] == '@' {
            assert(cur[0] == h@[start as int]);
            assert(cur.skip(1) =~= h@.subrange(start + 1, end as int));
        }
    }
    trimmed.to_owned()
}

/// Byte-level substring search.
pub fn contains_bytes(hay: &[u8], needle: &[u8]) -> (r: bool)
    ensures
        r == has_sub(hay@, needle@),
{
    let hn = hay.len();
    let nn = needle.len();
    if nn > hn {
        proof {
            assert(!has_sub(hay@, needle@));
        }
        return false;
    }
    let mut i: usize = 0;
    while i <= hn - nn
        invariant
            nn <= hn == hay@.len(),
            nn == needle@.len(),
            i <= hn - nn + 1,
            forall|q: int|
                0 <= q < i ==> #[trigger] hay@.subrange(q, q + needle@.len()) != needle@,
        decreases hn - nn - i + 1,
    {
        let mut j: usize = 0;
        let mut matched = true;
        while j < nn
            invariant
                i + nn <= hn == hay@.len(),
                nn == needle@.len(),
                j <= nn,
                matched == (forall|q: int| 0 <= q < j ==> hay@[i + q] == #[trigger] needle@[q]),
            decreases nn - j,
        {
            if hay[i + j] != needle[j] {
                matched = false;
                proof {
                    assert(hay@[i + j as int] != needle@[j as int]);
                }
                j = nn;
            } else {
                proof {
                    if matched {
                        assert(forall|q: int|
                            0 <= q < j + 1 ==> hay@[i + q] == #[trigger] needle@[q]);
                    }
                }
                j = j + 1;
            }
        }
        if matched {
            proof {
                assert(hay@.subrange(i as int, i + needle@.len()) =~= needle@);
            }
            return true;
        }
        proof {
            assert(hay@.subrange(i as int, i + needle@.len()) != needle@) by {
                let w = choose|q: int| 0 <= q < needle@.len() && hay@[i + q] != needle@[q];
                assert(hay@.subrange(i as int, i + needle@.len())[w] == hay@[i + w]);
            };
        }
        i = i + 1;
    }
    proof {
        assert(!has_sub(hay@, needle@));
    }
    false
}

/// The normalized handle to query for this member, or nothing when no
/// handle is claimed (no remote call is then needed).
pub fn github_query(f: &Fellow) -> (r: Option<String>)
    ensures
        match f.spec_github() {
            Some(h) => r matches Some(q) && q@ == spec_normalize(h),
            None => r is None,
        },
{
    match f.github() {
        Some(h) => Some(normalize_handle(h.as_str())),
        None => None,
    }
}

/// The cross-check decision: true exactly when the member claims a
/// handle, a biography was fetched, and that biography contains the
/// member's canonical address as a literal substring.  A member without
/// a handle, or a profile without a biography, is simply not linked;
/// neither is an error.
pub fn social_check(f: &Fellow, bio: Option<&String>) -> (r: bool)
    requires
        f.wf(),
    ensures
        r == (f.spec_github() is Some && (bio matches Some(b) && has_sub(
            encode_utf8(b@),
            encode_utf8(ss58_of(f.account.bytes@)),
        ))),
{
    if f.github().is_none() {
        return false;
    }
    match bio {
        None => false,
        Some(b) => {
            let address = f.address();
            contains_bytes(b.as_str().as_bytes(), address.as_str().as_bytes())
        },
    }
}

} // verus!
