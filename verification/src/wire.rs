//! Little-endian fixed-width integers, the base layer of the snapshot
//! cache encoding.

use vstd::prelude::*;

verus! {

/// `256 ^ w`, the number of values representable in `w` bytes.
pub open spec fn pow256(w: nat) -> nat
    decreases w,
{
    if w == 0 {
        1
    } else {
        256 * pow256((w - 1) as nat)
    }
}

/// The value of a byte sequence read as a little-endian integer.
pub open spec fn le_val(s: Seq<u8>) -> nat
    decreases s.len(),
{
    if s.len() == 0 {
        0
    } else {
        (s[0] + 256 * le_val(s.skip(1))) as nat
    }
}

/// The `w` little-endian bytes of `v` (truncating above `256^w`).
pub open spec fn le_bytes(v: nat, w: nat) -> Seq<u8>
    decreases w,
{
    if w == 0 {
        Seq::empty()
    } else {
        seq![(v % 256) as u8] + le_bytes(v / 256, (w - 1) as nat)
    }
}

pub proof fn lemma_le_bytes_len(v: nat, w: nat)
    ensures
        le_bytes(v, w).len() == w,
    decreases w,
{
    if w > 0 {
        lemma_le_bytes_len(v / 256, (w - 1) as nat);
    }
}

pub proof fn lemma_pow256_monotonic(w1: nat, w2: nat)
    requires
        w1 <= w2,
    ensures
        pow256(w1) <= pow256(w2),
    decreases w2,
{
    if w1 < w2 && w2 > 0 {
        lemma_pow256_monotonic(w1, (w2 - 1) as nat);
    }
}

/// Encoding then decoding a value below `256^w` is the identity.
pub proof fn lemma_le_val_le_bytes(v: nat, w: nat)
    requires
        v < pow256(w),
    ensures
        le_val(le_bytes(v, w)) == v,
    decreases w,
{
    if w > 0 {
        let tail = le_bytes(v / 256, (w - 1) as nat);
        let full = seq![(v % 256) as u8] + tail;
        assert(full.skip(1) =~= tail);
        assert(v / 256 < pow256((w - 1) as nat)) by {
            assert(v < 256 * pow256((w - 1) as nat));
        };
        lemma_le_val_le_bytes(v / 256, (w - 1) as nat);
        assert(le_val(full) == full[0] + 256 * le_val(tail));
        assert(full[0] == v % 256);
    }
}

/// A `w`-byte sequence always decodes below `256^w`.
pub proof fn lemma_le_val_bound(s: Seq<u8>)
    ensures
        le_val(s) < pow256(s.len()),
    decreases s.len(),
{
    if s.len() > 0 {
        lemma_le_val_bound(s.skip(1));
    }
}

pub proof fn lemma_pow256_vals()
    ensures
        pow256(1) == 0x100,
        pow256(2) == 0x10000,
        pow256(4) == 0x100000000,
        pow256(8) == 0x10000000000000000,
        pow256(16) == u128::MAX + 1,
{
    reveal_with_fuel(pow256, 17);
}

/// Appends the `w` little-endian bytes of `v` to `out`.
pub fn push_le(out: &mut Vec<u8>, v: u128, w: usize)
    ensures
        final(out)@ == old(out)@ + le_bytes(v as nat, w as nat),
    decreases w,
{
    if w == 0 {
        assert(out@ =~= old(out)@ + le_bytes(v as nat, 0));
    } else {
        let b: u8 = (v % 256) as u8;
        out.push(b);
        push_le(out, v / 256, w - 1);
        assert(out@ =~= old(out)@ + le_bytes(v as nat, w as nat)) by {
            assert(le_bytes(v as nat, w as nat) == seq![b] + le_bytes(
                (v as nat) / 256,
                (w - 1) as nat,
            ));
        };
    }
}

/// Reads `w <= 16` little-endian bytes starting at `pos`.
pub fn read_le(bytes: &[u8], pos: usize, w: usize) -> (r: u128)
    requires
        pos + w <= bytes@.len(),
        w <= 16,
    ensures
        r as nat == le_val(bytes@.subrange(pos as int, pos + w)),
{
    let ghost sub = bytes@.subrange(pos as int, pos + w);
    let n = bytes.len();
    let mut val: u128 = 0;
    let mut j: usize = w;
    proof {
        assert(sub.skip(w as int) =~= Seq::<u8>::empty());
    }
    while j > 0
        invariant
            j <= w <= 16,
            pos + w <= n == bytes@.len(),
            sub == bytes@.subrange(pos as int, pos + w),
            val as nat == le_val(sub.skip(j as int)),
            (val as nat) < pow256((w - j) as nat),
        decreases j,
    {
        let b = bytes[pos + j - 1];
        proof {
            lemma_pow256_monotonic((w - j) as nat, 15);
            lemma_pow256_vals();
            assert(pow256(15) * 256 == pow256(16));
            assert((val as nat) * 256 + 256 <= pow256(16));
            let tail = sub.skip(j as int);
            assert(sub.skip(j - 1 as int)[0] == sub[j - 1]);
            assert(sub[j - 1] == bytes@[pos + j - 1]);
            assert(sub.skip(j - 1 as int).skip(1) =~= tail);
            assert(le_val(sub.skip(j - 1 as int)) == sub[j - 1] + 256 * le_val(tail));
        }
        val = val * 256 + (b as u128);
        j = j - 1;
        proof {
            lemma_pow256_monotonic(1, (w - j) as nat);
        }
    }
    proof {
        assert(sub.skip(0) =~= sub);
    }
    val
}

} // verus!
