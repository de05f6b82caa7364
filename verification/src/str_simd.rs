//! Lane-wise matchers for the run of allowed bytes at the start of a buffer.
//!
//! Each matcher cuts the scanned bytes into lanes, marks in a bitmask the
//! bytes that the class refuses, and counts the clear bits below the first
//! mark. The two tiers differ in lane width (16 or 32 bytes), the two widths
//! in how many bytes one call scans (32 or 64).

use vstd::prelude::*;
use vstd::std_specs::bits::{axiom_u64_trailing_zeros, u64_trailing_zeros};
use crate::class::{is_span, lemma_scan_bounds, lemma_span_unique, span, Bitmap128, Bitmap256};

verus! {

/// Mask bits above the 32 scanned bytes, set so that a count of trailing
/// zeros stops at 32 when no scanned byte is refused.
const SENTINEL_32: u64 = 0xffff_ffff_0000_0000;

/// Whether bit `j` of `m` is set.
spec fn bit(m: u64, j: int) -> bool {
    (m >> (j as u64)) & 1u64 == 1u64
}

/// `m` marks the bytes of `s` that `class` refuses: bit `j` is set exactly
/// when `s[j]` is outside the class, and no bit beyond `s` is set.
spec fn marks(m: u64, s: Seq<u8>, class: Set<u8>) -> bool {
    &&& s.len() <= 64
    &&& forall|j: int| 0 <= j < s.len() ==> (#[trigger] bit(m, j) <==> !class.contains(s[j]))
    &&& forall|j: int| s.len() <= j < 64 ==> !#[trigger] bit(m, j)
}

/// Setting bit `i` of a mask sets that bit and changes no other.
proof fn lemma_bit_set(m: u64, i: u64, j: u64)
    by (bit_vector)
    requires
        i < 64,
        j < 64,
    ensures
        (((m | (1u64 << i)) >> j) & 1u64 == 1u64) == (j == i || ((m >> j) & 1u64 == 1u64)),
{
}

/// A bit of `(hi << k) | lo` is set where that bit of `lo` is, or where the
/// bit `k` places lower of `hi` is.
proof fn lemma_bit_join(lo: u64, hi: u64, k: u64, j: u64)
    by (bit_vector)
    requires
        k < 64,
        j < 64,
    ensures
        ((((hi << k) | lo) >> j) & 1u64 == 1u64) == (((lo >> j) & 1u64 == 1u64) || (j >= k && ((hi
            >> ((j - k) as u64)) & 1u64 == 1u64))),
{
}

/// The empty mask has no bit set.
proof fn lemma_bit_zero(j: u64)
    by (bit_vector)
    requires
        j < 64,
    ensures
        (0u64 >> j) & 1u64 == 0u64,
{
}

/// With the sentinel, every bit from 32 up is set and the lower ones stay.
proof fn lemma_bit_sentinel(m: u64, j: u64)
    by (bit_vector)
    requires
        j < 64,
    ensures
        (((0xffff_ffff_0000_0000u64 | m) >> j) & 1u64 == 1u64) == (j >= 32 || ((m >> j) & 1u64
            == 1u64)),
{
}

/// The empty mask marks the empty sequence.
proof fn lemma_marks_empty(class: Set<u8>)
    ensures
        marks(0, Seq::<u8>::empty(), class),
{
    assert forall|j: int| 0 <= j < 64 implies !#[trigger] bit(0, j) by {
        lemma_bit_zero(j as u64);
    }
}

/// Marking one more byte: the bit at the next place is set if the byte is
/// refused, and the mask is kept if it is allowed.
proof fn lemma_marks_push(m: u64, s: Seq<u8>, class: Set<u8>, b: u8)
    requires
        marks(m, s, class),
        s.len() < 64,
    ensures
        !class.contains(b) ==> marks(m | (1u64 << (s.len() as u64)), s.push(b), class),
        class.contains(b) ==> marks(m, s.push(b), class),
{
    let i = s.len() as u64;
    let t = s.push(b);
    if class.contains(b) {
        assert forall|j: int| 0 <= j < t.len() implies (#[trigger] bit(m, j) <==> !class.contains(
            t[j],
        )) by {
            if j < s.len() {
                assert(t[j] == s[j]);
            }
        }
    } else {
        let n = m | (1u64 << i);
        assert forall|j: int| 0 <= j < 64 implies (#[trigger] bit(n, j) <==> (j == i || bit(m, j))) by {
            lemma_bit_set(m, i, j as u64);
        }
        assert forall|j: int| 0 <= j < t.len() implies (#[trigger] bit(n, j) <==> !class.contains(
            t[j],
        )) by {
            if j < s.len() {
                assert(t[j] == s[j]);
            }
        }
    }
}

/// Joining two masks: the high one, moved up past the bytes of the low one,
/// marks the bytes that follow them.
proof fn lemma_marks_join(lo: u64, hi: u64, s1: Seq<u8>, s2: Seq<u8>, class: Set<u8>)
    requires
        marks(lo, s1, class),
        marks(hi, s2, class),
        s1.len() < 64,
        s1.len() + s2.len() <= 64,
    ensures
        marks((hi << (s1.len() as u64)) | lo, s1 + s2, class),
{
    let k = s1.len() as u64;
    let m = (hi << k) | lo;
    let s = s1 + s2;
    assert forall|j: int| 0 <= j < 64 implies (#[trigger] bit(m, j) <==> (bit(lo, j) || (j >= k
        && bit(hi, j - k)))) by {
        lemma_bit_join(lo, hi, k, j as u64);
    }
    assert forall|j: int| 0 <= j < s.len() implies (#[trigger] bit(m, j) <==> !class.contains(
        s[j],
    )) by {
        if j < k {
            assert(s[j] == s1[j]);
        } else {
            assert(s[j] == s2[j - k]);
            assert(bit(hi, j - k) <==> !class.contains(s2[j - k]));
        }
    }
    assert forall|j: int| s.len() <= j < 64 implies !#[trigger] bit(m, j) by {
        assert(!bit(hi, j - k));
    }
}

/// The place of the lowest set bit is the run length, provided that the
/// mask marks the refused bytes and, where the sequence is shorter than the
/// mask, the bit just beyond it is set.
proof fn lemma_first_mark_is_span(m: u64, s: Seq<u8>, class: Set<u8>)
    requires
        s.len() <= 64,
        forall|j: int| 0 <= j < s.len() ==> (#[trigger] bit(m, j) <==> !class.contains(s[j])),
        s.len() < 64 ==> bit(m, s.len() as int),
    ensures
        u64_trailing_zeros(m) == span(s, class),
{
    axiom_u64_trailing_zeros(m);
    let tz = u64_trailing_zeros(m) as int;
    assert forall|j: int| 0 <= j < tz implies !#[trigger] bit(m, j) by {
        let ju = j as u64;
        assert((m >> ju) & 1u64 == 0u64);
    }
    if tz < 64 {
        assert(bit(m, tz));
    }
    if s.len() < 64 && tz > s.len() {
        assert(!bit(m, s.len() as int));
    }
    assert forall|i: int| 0 <= i < tz implies class.contains(#[trigger] s[i]) by {
        assert(!bit(m, i));
    }
    assert(is_span(s, class, tz));
    lemma_span_unique(s, class, tz);
}

/// Counts the clear bits below the lowest set bit of `m`.
fn first_mark(m: u64) -> (n: usize)
    ensures
        n == u64_trailing_zeros(m),
        n <= 64,
{
    proof {
        axiom_u64_trailing_zeros(m);
    }
    m.trailing_zeros() as usize
}

/// Marks the refused bytes of the 16-byte lane that starts at `at`.
fn reject_mask_128(buf: &[u8], at: usize, class: &Bitmap128) -> (m: u64)
    requires
        at + 16 <= buf.len(),
    ensures
        marks(m, buf@.subrange(at as int, at + 16), class@),
{
    let mut m: u64 = 0;
    let mut i: usize = 0;
    proof {
        lemma_marks_empty(class@);
        assert(buf@.subrange(at as int, at as int) =~= Seq::<u8>::empty());
    }
    while i < 16
        invariant
            i <= 16,
            at + 16 <= buf.len(),
            marks(m, buf@.subrange(at as int, at + i), class@),
        decreases 16 - i,
    {
        let b: u8 = buf[at + i];
        proof {
            lemma_marks_push(m, buf@.subrange(at as int, at + i), class@, b);
            assert(buf@.subrange(at as int, at + i).push(b) =~= buf@.subrange(
                at as int,
                at + i + 1,
            ));
        }
        if !class.contains(b) {
            m = m | (1u64 << i);
        }
        i += 1;
    }
    m
}

/// Marks the refused bytes of the 32-byte lane that starts at `at`.
fn reject_mask_256(buf: &[u8], at: usize, class: &Bitmap256) -> (m: u64)
    requires
        at + 32 <= buf.len(),
    ensures
        marks(m, buf@.subrange(at as int, at + 32), class@),
{
    let mut m: u64 = 0;
    let mut i: usize = 0;
    proof {
        lemma_marks_empty(class@);
        assert(buf@.subrange(at as int, at as int) =~= Seq::<u8>::empty());
    }
    while i < 32
        invariant
            i <= 32,
            at + 32 <= buf.len(),
            marks(m, buf@.subrange(at as int, at + i), class@),
        decreases 32 - i,
    {
        let b: u8 = buf[at + i];
        proof {
            lemma_marks_push(m, buf@.subrange(at as int, at + i), class@, b);
            assert(buf@.subrange(at as int, at + i).push(b) =~= buf@.subrange(
                at as int,
                at + i + 1,
            ));
        }
        if !class.contains_at(b, i) {
            m = m | (1u64 << i);
        }
        i += 1;
    }
    m
}

/// Run length over the first 32 bytes of `buf`, scanned as one 32-byte
/// lane: the number of leading bytes that `arbm` allows, 32 if it allows
/// them all.
pub fn _strspn_ascii_32_avx(buf: &[u8], arbm: Bitmap256) -> (n: usize)
    requires
        buf.len() >= 32,
    ensures
        n == span(buf@.subrange(0, 32), arbm@),
        n <= 32,
        (forall|i: int| 0 <= i < 32 ==> arbm@.contains(#[trigger] buf@[i])) ==> n == 32,
        (buf.len() <= 33 && !arbm@.contains(buf@[buf.len() - 1]) && forall|i: int|
            0 <= i < buf.len() - 1 ==> arbm@.contains(#[trigger] buf@[i])) ==> n == buf.len() - 1,
{
    let msk: u64 = reject_mask_256(buf, 0, &arbm);
    let res: u64 = SENTINEL_32 | msk;
    proof {
        let s = buf@.subrange(0, 32);
        assert forall|j: int| 0 <= j < 64 implies (#[trigger] bit(res, j) <==> (j >= 32 || bit(
            msk,
            j,
        ))) by {
            lemma_bit_sentinel(msk, j as u64);
        }
        lemma_first_mark_is_span(res, s, arbm@);
        lemma_scan_bounds(buf@, arbm@, s.len() as int);
    }
    first_mark(res)
}

/// Run length over the first 64 bytes of `buf`, scanned as two 32-byte
/// lanes: the number of leading bytes that `arbm` allows, 64 if it allows
/// them all.
pub fn _strspn_ascii_64_avx(buf: &[u8], arbm: Bitmap256) -> (n: usize)
    requires
        buf.len() >= 64,
    ensures
        n == span(buf@.subrange(0, 64), arbm@),
        n <= 64,
        (forall|i: int| 0 <= i < 64 ==> arbm@.contains(#[trigger] buf@[i])) ==> n == 64,
        (buf.len() <= 65 && !arbm@.contains(buf@[buf.len() - 1]) && forall|i: int|
            0 <= i < buf.len() - 1 ==> arbm@.contains(#[trigger] buf@[i])) ==> n == buf.len() - 1,
{
    let msk0: u64 = reject_mask_256(buf, 0, &arbm);
    let msk1: u64 = reject_mask_256(buf, 32, &arbm);
    let res: u64 = (msk1 << 32) | msk0;
    proof {
        let s = buf@.subrange(0, 64);
        lemma_marks_join(msk0, msk1, buf@.subrange(0, 32), buf@.subrange(32, 64), arbm@);
        assert(buf@.subrange(0, 32) + buf@.subrange(32, 64) =~= s);
        lemma_first_mark_is_span(res, s, arbm@);
        lemma_scan_bounds(buf@, arbm@, s.len() as int);
    }
    first_mark(res)
}

/// Run length over the first 32 bytes of `buf`, scanned as two 16-byte
/// lanes: the number of leading bytes that `arbm` allows, 32 if it allows
/// them all.
pub fn _strspn_ascii_32_sse(buf: &[u8], arbm: Bitmap128) -> (n: usize)
    requires
        buf.len() >= 32,
    ensures
        n == span(buf@.subrange(0, 32), arbm@),
        n <= 32,
        (forall|i: int| 0 <= i < 32 ==> arbm@.contains(#[trigger] buf@[i])) ==> n == 32,
        (buf.len() <= 33 && !arbm@.contains(buf@[buf.len() - 1]) && forall|i: int|
            0 <= i < buf.len() - 1 ==> arbm@.contains(#[trigger] buf@[i])) ==> n == buf.len() - 1,
{
    let msk0: u64 = reject_mask_128(buf, 0, &arbm);
    let msk1: u64 = reject_mask_128(buf, 16, &arbm);
    let joined: u64 = (msk1 << 16) | msk0;
    let res: u64 = SENTINEL_32 | joined;
    proof {
        let s = buf@.subrange(0, 32);
        lemma_marks_join(msk0, msk1, buf@.subrange(0, 16), buf@.subrange(16, 32), arbm@);
        assert(buf@.subrange(0, 16) + buf@.subrange(16, 32) =~= s);
        assert forall|j: int| 0 <= j < 64 implies (#[trigger] bit(res, j) <==> (j >= 32 || bit(
            joined,
            j,
        ))) by {
            lemma_bit_sentinel(joined, j as u64);
        }
        lemma_first_mark_is_span(res, s, arbm@);
        lemma_scan_bounds(buf@, arbm@, s.len() as int);
    }
    first_mark(res)
}

/// Run length over the first 64 bytes of `buf`, scanned as four 16-byte
/// lanes: the number of leading bytes that `arbm` allows, 64 if it allows
/// them all.
pub fn _strspn_ascii_64_sse(buf: &[u8], arbm: Bitmap128) -> (n: usize)
    requires
        buf.len() >= 64,
    ensures
        n == span(buf@.subrange(0, 64), arbm@),
        n <= 64,
        (forall|i: int| 0 <= i < 64 ==> arbm@.contains(#[trigger] buf@[i])) ==> n == 64,
        (buf.len() <= 65 && !arbm@.contains(buf@[buf.len() - 1]) && forall|i: int|
            0 <= i < buf.len() - 1 ==> arbm@.contains(#[trigger] buf@[i])) ==> n == buf.len() - 1,
{
    let msk0: u64 = reject_mask_128(buf, 0, &arbm);
    let msk1: u64 = reject_mask_128(buf, 16, &arbm);
    let msk2: u64 = reject_mask_128(buf, 32, &arbm);
    let msk3: u64 = reject_mask_128(buf, 48, &arbm);
    let mut res: u64 = msk3;
    res = (res << 16) | msk2;
    proof {
        lemma_marks_join(msk2, msk3, buf@.subrange(32, 48), buf@.subrange(48, 64), arbm@);
        assert(buf@.subrange(32, 48) + buf@.subrange(48, 64) =~= buf@.subrange(32, 64));
    }
    res = (res << 16) | msk1;
    proof {
        lemma_marks_join(msk1, (msk3 << 16) | msk2, buf@.subrange(16, 32), buf@.subrange(32, 64), arbm@);
        assert(buf@.subrange(16, 32) + buf@.subrange(32, 64) =~= buf@.subrange(16, 64));
    }
    res = (res << 16) | msk0;
    proof {
        let s = buf@.subrange(0, 64);
        lemma_marks_join(
            msk0,
            (((msk3 << 16) | msk2) << 16) | msk1,
            buf@.subrange(0, 16),
            buf@.subrange(16, 64),
            arbm@,
        );
        assert(buf@.subrange(0, 16) + buf@.subrange(16, 64) =~= s);
        lemma_first_mark_is_span(res, s, arbm@);
        lemma_scan_bounds(buf@, arbm@, s.len() as int);
    }
    first_mark(res)
}

} // verus!
