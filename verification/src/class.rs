//! Character classes over bytes, and the length of a run of allowed bytes.

use vstd::prelude::*;

verus! {

/// Number of leading bytes of `s` that all belong to `class`: the index of
/// the first byte outside the class, or the length of `s` if there is none.
pub open spec fn span(s: Seq<u8>, class: Set<u8>) -> nat
    decreases s.len(),
{
    if s.len() == 0 || !class.contains(s[0]) {
        0
    } else {
        1 + span(s.drop_first(), class)
    }
}

/// `n` is the run length of `s`: everything before `n` is allowed, and `n`
/// is either the end of `s` or the place of a byte that is not allowed.
pub open spec fn is_span(s: Seq<u8>, class: Set<u8>, n: int) -> bool {
    &&& 0 <= n <= s.len()
    &&& forall|i: int| 0 <= i < n ==> class.contains(#[trigger] s[i])
    &&& n < s.len() ==> !class.contains(s[n])
}

/// The run length is the only number that `is_span` accepts.
pub proof fn lemma_span_unique(s: Seq<u8>, class: Set<u8>, n: int)
    requires
        is_span(s, class, n),
    ensures
        span(s, class) == n,
    decreases s.len(),
{
    if s.len() == 0 || !class.contains(s[0]) {
        if n > 0 {
            assert(class.contains(s[0]));
        }
    } else {
        let t = s.drop_first();
        assert forall|i: int| 0 <= i < n - 1 implies class.contains(#[trigger] t[i]) by {
            assert(t[i] == s[i + 1]);
        }
        if n - 1 < t.len() {
            assert(t[n - 1] == s[n]);
        }
        lemma_span_unique(t, class, n - 1);
    }
}

/// The run length satisfies `is_span`.
pub proof fn lemma_span_is_span(s: Seq<u8>, class: Set<u8>)
    ensures
        is_span(s, class, span(s, class) as int),
    decreases s.len(),
{
    if s.len() == 0 || !class.contains(s[0]) {
    } else {
        let t = s.drop_first();
        lemma_span_is_span(t, class);
        let m = span(t, class) as int;
        assert forall|i: int| 0 <= i < m + 1 implies class.contains(#[trigger] s[i]) by {
            if i > 0 {
                assert(s[i] == t[i - 1]);
            }
        }
        if m + 1 < s.len() {
            assert(s[m + 1] == t[m]);
        }
    }
}

/// A sequence whose bytes are all allowed is one run.
pub proof fn lemma_span_all_allowed(s: Seq<u8>, class: Set<u8>)
    requires
        forall|i: int| 0 <= i < s.len() ==> class.contains(#[trigger] s[i]),
    ensures
        span(s, class) == s.len(),
{
    lemma_span_unique(s, class, s.len() as int);
}

/// Scanning the first `width` bytes of a buffer stops at the first byte that
/// the class refuses, or at `width` if that byte lies at or beyond it.
pub proof fn lemma_scan_stops_at_first_refused(
    buf: Seq<u8>,
    class: Set<u8>,
    width: int,
    k: int,
)
    requires
        0 <= width <= buf.len(),
        0 <= k < buf.len(),
        forall|i: int| 0 <= i < k ==> class.contains(#[trigger] buf[i]),
        !class.contains(buf[k]),
    ensures
        k < width ==> span(buf.subrange(0, width), class) == k,
        k >= width ==> span(buf.subrange(0, width), class) == width,
{
    let s = buf.subrange(0, width);
    let n = if k < width { k } else { width };
    assert forall|i: int| 0 <= i < n implies class.contains(#[trigger] s[i]) by {
        assert(s[i] == buf[i]);
    }
    lemma_span_unique(s, class, n);
}

/// What a scan of the first `width` bytes of a buffer yields in three plain
/// cases: never more than `width`; `width` itself where all scanned bytes
/// are allowed; and the length less one where only the last byte of the
/// buffer is refused and the scan reaches it or ends just before it.
pub proof fn lemma_scan_bounds(buf: Seq<u8>, class: Set<u8>, width: int)
    requires
        0 <= width <= buf.len(),
    ensures
        span(buf.subrange(0, width), class) <= width,
        (forall|i: int| 0 <= i < width ==> class.contains(#[trigger] buf[i])) ==> span(
            buf.subrange(0, width),
            class,
        ) == width,
        (1 <= buf.len() <= width + 1 && !class.contains(buf[buf.len() - 1]) && forall|i: int|
            0 <= i < buf.len() - 1 ==> class.contains(#[trigger] buf[i])) ==> span(
            buf.subrange(0, width),
            class,
        ) == buf.len() - 1,
{
    let s = buf.subrange(0, width);
    lemma_span_is_span(s, class);
    if forall|i: int| 0 <= i < width ==> class.contains(#[trigger] buf[i]) {
        assert forall|i: int| 0 <= i < s.len() implies class.contains(#[trigger] s[i]) by {
            assert(s[i] == buf[i]);
        }
        lemma_span_all_allowed(s, class);
    }
    if 1 <= buf.len() <= width + 1 && !class.contains(buf[buf.len() - 1]) && forall|i: int|
        0 <= i < buf.len() - 1 ==> class.contains(#[trigger] buf[i]) {
        lemma_scan_stops_at_first_refused(buf, class, width, buf.len() - 1);
    }
}

/// Where the class allows every byte of a buffer of at least 32 bytes, a
/// scan of its first 32 bytes yields 32: the lane saturates.
pub proof fn lemma_scan_32_saturates(buf: Seq<u8>, class: Set<u8>)
    requires
        buf.len() >= 32,
        forall|i: int| 0 <= i < buf.len() ==> class.contains(#[trigger] buf[i]),
    ensures
        span(buf.subrange(0, 32), class) == 32,
{
    let s = buf.subrange(0, 32);
    assert forall|i: int| 0 <= i < s.len() implies class.contains(#[trigger] s[i]) by {
        assert(s[i] == buf[i]);
    }
    lemma_span_all_allowed(s, class);
}

/// Where all bytes of a buffer but the last are allowed and the last is
/// refused, a scan of the first 32 bytes yields the length less one. The
/// scan sees 32 bytes only, so this holds of buffers of 32 and of 33 bytes;
/// on a longer one the scan saturates at 32 before it meets the last byte.
pub proof fn lemma_scan_32_one_short(buf: Seq<u8>, class: Set<u8>)
    requires
        32 <= buf.len() < 64,
        buf.len() - 1 <= 32,
        forall|i: int| 0 <= i < buf.len() - 1 ==> class.contains(#[trigger] buf[i]),
        !class.contains(buf[buf.len() - 1]),
    ensures
        span(buf.subrange(0, 32), class) == buf.len() - 1,
{
    lemma_scan_stops_at_first_refused(buf, class, 32, buf.len() - 1);
}

/// The fixed table that turns a low nibble into one of eight bit flags.
/// Nibbles 8 to 15 select no flag.
pub const BIT_FLAGS: [u8; 16] = [
    0x01, 0x02, 0x04, 0x08, 0x10, 0x20, 0x40, 0x80,
    0x00, 0x00, 0x00, 0x00, 0x00, 0x00, 0x00, 0x00,
];

/// Whether the row bitmap `rows` allows the byte `b`: the high nibble of
/// `b` picks a row, the low nibble picks one of its eight bits, and that bit
/// is set. A low nibble from 8 up picks no bit, so such a byte is never
/// allowed.
pub open spec fn allows(rows: Seq<u8>, b: u8) -> bool {
    b % 16 < 8 && (rows[(b / 16) as int] >> (b % 16)) & 1 == 1
}

/// The flag that the table holds for a low nibble meets a row exactly where
/// the row has the bit of that nibble.
proof fn lemma_flag_selects_bit(lo: u8, row: u8)
    requires
        lo < 16,
    ensures
        (BIT_FLAGS@[lo as int] & row != 0) == (lo < 8 && (row >> lo) & 1 == 1),
{
    let flag = BIT_FLAGS@[lo as int];
    assert(lo < 8 ==> flag == 1u8 << lo) by {
        assert(1u8 << 0u8 == 0x01 && 1u8 << 1u8 == 0x02 && 1u8 << 2u8 == 0x04 && 1u8 << 3u8
            == 0x08 && 1u8 << 4u8 == 0x10 && 1u8 << 5u8 == 0x20 && 1u8 << 6u8 == 0x40 && 1u8
            << 7u8 == 0x80) by (bit_vector);
    }
    assert(lo >= 8 ==> flag == 0);
    assert(lo < 8 ==> (((1u8 << lo) & row != 0) == ((row >> lo) & 1 == 1))) by (bit_vector);
    assert(0u8 & row == 0) by (bit_vector);
}

/// The set of bytes that a row bitmap allows.
pub open spec fn class_of(rows: Seq<u8>) -> Set<u8> {
    Set::new(|b: u8| allows(rows, b))
}

/// A character class held as sixteen rows of eight flags, the layout of one
/// 128-bit vector.
#[derive(Clone, Copy)]
pub struct Bitmap128 {
    rows: [u8; 16],
}

impl Bitmap128 {
    /// The sixteen rows, indexed by high nibble.
    pub closed spec fn rows(&self) -> Seq<u8> {
        self.rows@
    }

    /// The bytes that the class allows.
    pub open spec fn view(&self) -> Set<u8> {
        class_of(self.rows())
    }

    /// Builds the class whose row `h` holds, at bit `l`, whether the byte
    /// with high nibble `h` and low nibble `l` is allowed.
    pub fn new(rows: [u8; 16]) -> (r: Bitmap128)
        ensures
            r.rows() == rows@,
    {
        Bitmap128 { rows }
    }

    /// Tests one byte against the class.
    pub fn contains(&self, b: u8) -> (r: bool)
        ensures
            r == self@.contains(b),
    {
        let lo: usize = (b & 0x0f) as usize;
        let hi: usize = (b >> 4) as usize;
        proof {
            assert(b & 0x0f == b % 16) by (bit_vector);
            assert(b >> 4 == b / 16) by (bit_vector);
            lemma_flag_selects_bit(b % 16, self.rows@[hi as int]);
        }
        (BIT_FLAGS[lo] & self.rows[hi]) != 0
    }
}

/// A character class laid out for a 256-bit vector: two groups of sixteen
/// rows, one for each 16-byte half of a lane, both holding the same rows.
#[derive(Clone, Copy)]
pub struct Bitmap256 {
    lanes: [u8; 32],
}

impl Bitmap256 {
    #[verifier::type_invariant]
    spec fn replicated(&self) -> bool {
        self.lanes@.subrange(16, 32) == self.lanes@.subrange(0, 16)
    }

    /// The sixteen rows, indexed by high nibble.
    pub closed spec fn rows(&self) -> Seq<u8> {
        self.lanes@.subrange(0, 16)
    }

    /// The bytes that the class allows.
    pub open spec fn view(&self) -> Set<u8> {
        class_of(self.rows())
    }

    /// Builds the class from its sixteen rows, copying them into both groups.
    pub fn new(rows: [u8; 16]) -> (r: Bitmap256)
        ensures
            r.rows() == rows@,
    {
        let mut lanes: [u8; 32] = [0u8; 32];
        let mut i: usize = 0;
        while i < 16
            invariant
                i <= 16,
                forall|j: int| 0 <= j < i ==> #[trigger] lanes@[j] == rows@[j],
                forall|j: int| 16 <= j < 16 + i ==> #[trigger] lanes@[j] == rows@[j - 16],
            decreases 16 - i,
        {
            lanes[i] = rows[i];
            lanes[i + 16] = rows[i];
            i += 1;
        }
        assert(lanes@.subrange(0, 16) =~= rows@);
        assert(lanes@.subrange(16, 32) =~= rows@);
        Bitmap256 { lanes }
    }

    /// Takes all 32 bytes of a vector as they stand. The result is `None`
    /// exactly when the two groups differ, since such a vector would allow a
    /// byte in one half of a lane and refuse it in the other.
    pub fn from_lanes(lanes: [u8; 32]) -> (r: Option<Bitmap256>)
        ensures
            r is Some <==> lanes@.subrange(16, 32) == lanes@.subrange(0, 16),
            r is Some ==> r.unwrap().rows() == lanes@.subrange(0, 16),
    {
        let mut i: usize = 0;
        while i < 16
            invariant
                i <= 16,
                forall|j: int| 0 <= j < i ==> lanes@[j] == #[trigger] lanes@[j + 16],
            decreases 16 - i,
        {
            if lanes[i + 16] != lanes[i] {
                assert(lanes@.subrange(16, 32)[i as int] != lanes@.subrange(0, 16)[i as int]);
                return None;
            }
            i += 1;
        }
        assert(lanes@.subrange(16, 32) =~= lanes@.subrange(0, 16));
        Some(Bitmap256 { lanes })
    }

    /// Tests one byte against the class.
    pub fn contains(&self, b: u8) -> (r: bool)
        ensures
            r == self@.contains(b),
    {
        self.contains_at(b, 0)
    }

    /// Tests the byte that stands at place `slot` of a 32-byte lane, reading
    /// the group of rows that serves that half of the lane.
    pub(crate) fn contains_at(&self, b: u8, slot: usize) -> (r: bool)
        requires
            slot < 32,
        ensures
            r == self@.contains(b),
    {
        proof {
            use_type_invariant(self);
        }
        let group: usize = if slot < 16 { 0 } else { 16 };
        let lo: usize = (b & 0x0f) as usize;
        let hi: usize = (b >> 4) as usize;
        proof {
            assert(b & 0x0f == b % 16) by (bit_vector);
            assert(b >> 4 == b / 16) by (bit_vector);
            assert(self.lanes@[group + hi] == self.rows()[hi as int]) by {
                assert(self.lanes@.subrange(16, 32)[hi as int] == self.lanes@.subrange(
                    0,
                    16,
                )[hi as int]);
            }
            lemma_flag_selects_bit(b % 16, self.lanes@[group + hi]);
        }
        (BIT_FLAGS[lo] & self.lanes[group + hi]) != 0
    }
}

/// Whether the `k`-th pair of `ranges` bounds `b`: the pair is whole, and
/// `b` lies between its two bytes, both included.
pub open spec fn pair_bounds(ranges: Seq<u8>, k: int, b: u8) -> bool {
    &&& 0 <= k
    &&& 2 * k + 1 < ranges.len()
    &&& ranges[2 * k] <= b <= ranges[2 * k + 1]
}

/// Whether `b` lies in one of the closed ranges that `ranges` lists as pairs
/// of a low and a high byte. A last byte without a partner bounds nothing.
pub open spec fn in_ranges(ranges: Seq<u8>, b: u8) -> bool {
    exists|k: int| pair_bounds(ranges, k, b)
}

/// The set of bytes that lie in one of the ranges.
pub open spec fn range_class(ranges: Seq<u8>) -> Set<u8> {
    Set::new(|b: u8| in_ranges(ranges, b))
}

/// Tests one byte against a list of ranges.
pub fn ranges_contain(ranges: &[u8], b: u8) -> (r: bool)
    ensures
        r == in_ranges(ranges@, b),
{
    let mut i: usize = 0;
    while ranges.len() - i >= 2
        invariant
            i <= ranges.len(),
            i % 2 == 0,
            forall|k: int| 0 <= k && 2 * k < i ==> !pair_bounds(ranges@, k, b),
        decreases ranges.len() - i,
    {
        if ranges[i] <= b && b <= ranges[i + 1] {
            assert(pair_bounds(ranges@, i as int / 2, b));
            return true;
        }
        assert forall|k: int| 0 <= k && 2 * k < i + 2 implies !pair_bounds(ranges@, k, b) by {
            if 2 * k >= i {
                assert(2 * k == i);
            }
        }
        i += 2;
    }
    assert forall|k: int| !pair_bounds(ranges@, k, b) by {
        if 0 <= k && 2 * k + 1 < ranges@.len() {
            assert(2 * k < i);
        }
    }
    false
}

/// Looks through the 16 bytes of `buf` that start at `at` for the first one
/// that lies in one of the ranges, and returns its offset, or 16 if none
/// does: the number of leading bytes outside the ranges.
pub fn first_in_ranges(buf: &[u8], at: usize, ranges: &[u8]) -> (i: usize)
    requires
        at + 16 <= buf.len(),
    ensures
        i == span(buf@.subrange(at as int, at + 16), range_class(ranges@).complement()),
        i <= 16,
{
    let ghost s = buf@.subrange(at as int, at + 16);
    let ghost outside = range_class(ranges@).complement();
    let mut i: usize = 0;
    while i < 16
        invariant
            i <= 16,
            at + 16 <= buf.len(),
            s == buf@.subrange(at as int, at + 16),
            outside == range_class(ranges@).complement(),
            forall|j: int| 0 <= j < i ==> outside.contains(#[trigger] s[j]),
        decreases 16 - i,
    {
        if ranges_contain(ranges, buf[at + i]) {
            assert(!outside.contains(s[i as int]));
            proof {
                lemma_span_unique(s, outside, i as int);
            }
            return i;
        }
        assert(outside.contains(s[i as int]));
        i += 1;
    }
    proof {
        lemma_span_unique(s, outside, 16);
    }
    i
}

} // verus!
