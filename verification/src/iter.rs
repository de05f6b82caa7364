//! A forward cursor over a borrowed byte buffer, and its 8-byte window.

use vstd::prelude::*;
use vstd::slice::slice_subrange;
use crate::class::{
    first_in_ranges, in_ranges, lemma_span_is_span, lemma_span_unique, range_class, span,
};

verus! {

/// What a cursor is, as a value: the buffer it reads, how far it has read,
/// and whether `find` scans in strides or stands down.
pub struct Cursor {
    pub buf: Seq<u8>,
    pub pos: int,
    pub accelerated: bool,
}

impl Cursor {
    /// The position lies within the buffer or at its end.
    pub open spec fn wf(self) -> bool {
        0 <= self.pos <= self.buf.len()
    }

    /// The byte at the position, if one is left.
    pub open spec fn peek(self) -> Option<u8> {
        if 0 <= self.pos < self.buf.len() {
            Some(self.buf[self.pos])
        } else {
            None
        }
    }

    /// The same cursor, `n` bytes further on.
    pub open spec fn advanced(self, n: int) -> Cursor {
        Cursor { pos: self.pos + n, ..self }
    }

    /// The bytes read so far, without the last `skip` of them.
    pub open spec fn head(self, skip: int) -> Seq<u8> {
        self.buf.subrange(0, self.pos - skip)
    }

    /// A cursor at the start of the bytes not yet read.
    pub open spec fn rest(self) -> Cursor {
        Cursor { buf: self.buf.subrange(self.pos, self.buf.len() as int), pos: 0, ..self }
    }

    /// Where a stride scan ends: after the last whole 16-byte stride that
    /// fits between the position and the end of the buffer.
    pub open spec fn scan_limit(self) -> int {
        self.pos + 16 * ((self.buf.len() - self.pos) / 16)
    }

    /// The bytes that a stride scan looks at.
    pub open spec fn scanned(self) -> Seq<u8> {
        self.buf.subrange(self.pos, self.scan_limit())
    }

    /// How many of the scanned bytes come before the first one in `ranges`.
    pub open spec fn skipped(self, ranges: Seq<u8>) -> int {
        span(self.scanned(), range_class(ranges).complement()) as int
    }

    /// What `find` returns: nothing without stride scanning, else the first
    /// scanned byte that lies in `ranges`.
    pub open spec fn found(self, ranges: Seq<u8>) -> Option<u8> {
        if self.accelerated && self.skipped(ranges) < self.scanned().len() {
            Some(self.scanned()[self.skipped(ranges)])
        } else {
            None
        }
    }

    /// Where `find` leaves the cursor: in place without stride scanning,
    /// just past the byte it found, or at the scan limit if it found none.
    pub open spec fn after_find(self, ranges: Seq<u8>) -> Cursor {
        if !self.accelerated {
            self
        } else if self.skipped(ranges) < self.scanned().len() {
            self.advanced(self.skipped(ranges) + 1)
        } else {
            self.advanced(self.scanned().len() as int)
        }
    }
}

/// Peeking is idempotent: `peek` reads the state and cannot change it, so a
/// cursor shows the same byte, or the same end, however often it is asked
/// before the next step.
pub proof fn lemma_peek_idempotent(before: Cursor, after: Cursor)
    requires
        after == before,
    ensures
        after.peek() == before.peek(),
{
}

/// Cutting loses nothing: the bytes read and the bytes left make up the
/// buffer, and the cursor that is left stands at the start of its own.
pub proof fn lemma_cut_splits(c: Cursor)
    requires
        c.wf(),
    ensures
        c.head(0) + c.rest().buf == c.buf,
        c.rest().wf(),
        c.rest().pos == 0,
{
    assert(c.head(0) + c.rest().buf =~= c.buf);
}

/// What `find` does to a cursor: it never moves it back or out of the
/// buffer; the byte it returns lies in the ranges and is the one just
/// before the new position; and every byte that it stepped over before that
/// lies outside the ranges.
pub proof fn lemma_find_meaning(c: Cursor, ranges: Seq<u8>)
    requires
        c.wf(),
    ensures
        c.pos <= c.after_find(ranges).pos <= c.buf.len(),
        !c.accelerated ==> c.found(ranges) is None && c.after_find(ranges) == c,
        c.found(ranges) matches Some(b) ==> in_ranges(ranges, b) && c.pos < c.after_find(
            ranges,
        ).pos && c.buf[c.after_find(ranges).pos - 1] == b,
        forall|i: int|
            c.pos <= i < c.after_find(ranges).pos && !(c.found(ranges) is Some && i
                == c.after_find(ranges).pos - 1) ==> !in_ranges(ranges, #[trigger] c.buf[i]),
{
    let outside = range_class(ranges).complement();
    lemma_span_is_span(c.scanned(), outside);
    let n = c.skipped(ranges);
    assert(c.scan_limit() <= c.buf.len());
    if c.accelerated {
        if n < c.scanned().len() {
            assert(c.scanned()[n] == c.buf[c.pos + n]);
            assert(!outside.contains(c.scanned()[n]));
        }
        assert forall|i: int|
            c.pos <= i < c.after_find(ranges).pos && !(c.found(ranges) is Some && i
                == c.after_find(ranges).pos - 1) implies !in_ranges(
            ranges,
            #[trigger] c.buf[i],
        ) by {
            assert(c.buf[i] == c.scanned()[i - c.pos]);
            assert(outside.contains(c.scanned()[i - c.pos]));
        }
    }
}

/// A forward-only reader over a borrowed buffer. The buffer is never copied
/// or changed: the cursor only remembers how far it has read.
pub struct Bytes<'a> {
    slice: &'a [u8],
    pos: usize,
    accelerated: bool,
}

impl<'a> View for Bytes<'a> {
    type V = Cursor;

    closed spec fn view(&self) -> Cursor {
        Cursor { buf: self.slice@, pos: self.pos as int, accelerated: self.accelerated }
    }
}

impl<'a> Bytes<'a> {
    /// Holds of every cursor: the position never leaves the buffer.
    #[verifier::type_invariant]
    pub open spec fn inv(&self) -> bool {
        self@.wf()
    }

    /// A cursor at the start of `slice`, whose `find` stands down.
    pub fn new(slice: &'a [u8]) -> (r: Bytes<'a>)
        ensures
            r@ == (Cursor { buf: slice@, pos: 0, accelerated: false }),
    {
        Bytes { slice: slice, pos: 0, accelerated: false }
    }

    /// A cursor at the start of `slice`, with stride scanning in `find`
    /// switched on or off as `accelerated` says.
    pub fn with_acceleration(slice: &'a [u8], accelerated: bool) -> (r: Bytes<'a>)
        ensures
            r@ == (Cursor { buf: slice@, pos: 0, accelerated }),
    {
        Bytes { slice: slice, pos: 0, accelerated: accelerated }
    }

    /// Whether `find` scans in strides.
    pub fn is_accelerated(&self) -> (r: bool)
        ensures
            r == self@.accelerated,
    {
        self.accelerated
    }

    /// The number of bytes read since the cursor was made or last cut.
    pub fn pos(&self) -> (r: usize)
        ensures
            r == self@.pos,
            self@.wf(),
    {
        proof {
            use_type_invariant(self);
        }
        self.pos
    }

    /// The byte at the position, which stays where it is.
    pub fn peek(&self) -> (r: Option<u8>)
        ensures
            r == self@.peek(),
    {
        if self.pos < self.slice.len() {
            Some(self.slice[self.pos])
        } else {
            None
        }
    }

    /// Steps over one byte.
    pub fn bump(&mut self)
        requires
            old(self)@.pos < old(self)@.buf.len(),
        ensures
            final(self)@ == old(self)@.advanced(1),
    {
        assert(self.slice@.len() == self.slice.len());
        self.pos += 1;
    }

    /// The length of the whole buffer, read and unread.
    pub fn len(&self) -> (r: usize)
        ensures
            r == self@.buf.len(),
    {
        self.slice.len()
    }

    /// Cuts the buffer at the position: returns the bytes read so far, and
    /// leaves a cursor at the start of the rest.
    pub fn slice(&mut self) -> (head: &'a [u8])
        ensures
            head@ == old(self)@.head(0),
            final(self)@ == old(self)@.rest(),
    {
        self.slice_skip(0)
    }

    /// Cuts the buffer at the position: returns the bytes read so far
    /// without the last `skip` of them, and leaves a cursor at the start of
    /// the rest.
    pub fn slice_skip(&mut self, skip: usize) -> (head: &'a [u8])
        requires
            skip <= old(self)@.pos,
        ensures
            head@ == old(self)@.head(skip as int),
            final(self)@ == old(self)@.rest(),
    {
        proof {
            use_type_invariant(&*self);
        }
        let head_pos: usize = self.pos - skip;
        let head: &'a [u8] = slice_subrange(self.slice, 0, head_pos);
        let tail: &'a [u8] = slice_subrange(self.slice, self.pos, self.slice.len());
        self.pos = 0;
        self.slice = tail;
        head
    }

    /// Opens a window on the next eight bytes. It opens only where more
    /// than eight bytes are unread, so that one byte is left behind it.
    pub fn next_8<'b>(&'b mut self) -> (r: Option<Bytes8<'b, 'a>>)
        ensures
            r is Some <==> old(self)@.pos + 8 < old(self)@.buf.len(),
            r is None ==> *final(self) == *old(self),
            r is Some ==> *r.unwrap().bytes == *old(self),
            r is Some ==> *final(r.unwrap().bytes) == *final(self),
            r is Some ==> r.unwrap().pos == 0,
            r is Some ==> r.unwrap().wf(),
    {
        proof {
            use_type_invariant(&*self);
        }
        if self.slice.len() - self.pos > 8 {
            Some(Bytes8 { bytes: self, pos: 0 })
        } else {
            None
        }
    }

    /// Looks in whole 16-byte strides, from the position on, for the first
    /// byte that lies in one of `ranges`, given as pairs of a low and a high
    /// byte: at most eight pairs, as many as one 16-byte vector holds. On a
    /// hit the cursor stands just past that byte; on a miss it stands at the
    /// end of the last stride, and bytes behind that have not been looked
    /// at. A cursor without stride scanning looks at nothing, stays in place
    /// and returns `None`, whatever the buffer holds: the caller then goes
    /// byte by byte with `peek` and `bump`.
    pub fn find(&mut self, ranges: &[u8]) -> (r: Option<u8>)
        requires
            old(self)@.accelerated ==> ranges@.len() <= 16,
        ensures
            r == old(self)@.found(ranges@),
            final(self)@ == old(self)@.after_find(ranges@),
            !old(self)@.accelerated ==> r is None && *final(self) == *old(self),
            old(self)@.pos <= final(self)@.pos <= old(self)@.buf.len(),
            r matches Some(b) ==> in_ranges(ranges@, b) && old(self)@.pos < final(self)@.pos
                && old(self)@.buf[final(self)@.pos - 1] == b,
    {
        proof {
            use_type_invariant(&*self);
        }
        if !self.accelerated {
            return None;
        }
        let ghost start = self@;
        let ghost outside = range_class(ranges@).complement();
        let unread: usize = self.slice.len() - self.pos;
        let mut left: usize = unread - unread % 16;
        while left != 0
            invariant
                start == old(self)@,
                start.wf(),
                start.accelerated,
                outside == range_class(ranges@).complement(),
                self@ == start.advanced(self@.pos - start.pos),
                start.pos <= self@.pos,
                self@.pos + left == start.scan_limit(),
                left % 16 == 0,
                start.scan_limit() <= start.buf.len(),
                forall|j: int|
                    0 <= j < self@.pos - start.pos ==> outside.contains(
                        #[trigger] start.scanned()[j],
                    ),
            decreases left,
        {
            assert(self.pos + 16 <= self.slice.len());
            let i: usize = first_in_ranges(self.slice, self.pos, ranges);
            proof {
                let done = self@.pos - start.pos;
                let stride = start.buf.subrange(self@.pos, self@.pos + 16);
                lemma_span_is_span(stride, outside);
                assert forall|j: int| 0 <= j < done + i implies outside.contains(
                    #[trigger] start.scanned()[j],
                ) by {
                    if j >= done {
                        assert(start.scanned()[j] == stride[j - done]);
                    }
                }
                if i < 16 {
                    assert(start.scanned()[done + i] == stride[i as int]);
                    lemma_span_unique(start.scanned(), outside, done + i);
                }
            }
            if i != 16 {
                self.pos += i + 1;
                assert(!outside.contains(self.slice@[self.pos - 1]));
                return Some(self.slice[self.pos - 1]);
            }
            self.pos += 16;
            left -= 16;
        }
        proof {
            lemma_span_unique(start.scanned(), outside, start.scanned().len() as int);
        }
        None
    }

    /// Yields the byte at the position and steps over it, or yields nothing
    /// at the end of the buffer.
    pub fn next(&mut self) -> (r: Option<u8>)
        ensures
            r == old(self)@.peek(),
            r is Some ==> final(self)@ == old(self)@.advanced(1),
            r is None ==> final(self)@ == old(self)@,
    {
        if self.pos < self.slice.len() {
            let b: u8 = self.slice[self.pos];
            self.pos += 1;
            Some(b)
        } else {
            None
        }
    }
}

/// A window on eight unread bytes of a cursor, read one by one and in order
/// through `_0` to `_7`. Each read steps the cursor, which is borrowed for as
/// long as the window lives. `pos` counts the reads made so far.
pub struct Bytes8<'a, 'b: 'a> {
    pub bytes: &'a mut Bytes<'b>,
    pub pos: usize,
}

impl<'a, 'b: 'a> Bytes8<'a, 'b> {
    /// The bytes of the window that are still to be read lie within the
    /// buffer, with one byte to spare.
    pub open spec fn wf(&self) -> bool {
        &&& self.pos <= 8
        &&& 0 <= self.bytes@.pos
        &&& self.bytes@.pos + (8 - self.pos) < self.bytes@.buf.len()
    }

    /// Says whether the window stands at place `pos`, and moves it on by one.
    fn assert_pos(&mut self, pos: usize) -> (ret: bool)
        requires
            old(self).pos < 8,
        ensures
            ret == (old(self).pos == pos),
            final(self).pos == old(self).pos + 1,
            *final(self).bytes == *old(self).bytes,
            *final(final(self).bytes) == *final(old(self).bytes),
    {
        let ret: bool = self.pos == pos;
        self.pos += 1;
        ret
    }

    /// Reads the byte at the cursor and steps over it.
    fn take(&mut self) -> (b: u8)
        requires
            0 <= old(self).bytes@.pos < old(self).bytes@.buf.len(),
        ensures
            Some(b) == old(self).bytes@.peek(),
            final(self).bytes@ == old(self).bytes@.advanced(1),
            final(self).pos == old(self).pos,
            *final(final(self).bytes) == *final(old(self).bytes),
    {
        let b: u8 = self.bytes.slice[self.bytes.pos];
        self.bytes.pos += 1;
        b
    }

    /// The first byte of the window.
    pub fn _0(&mut self) -> (b: u8)
        requires
            old(self).wf(),
            old(self).pos == 0,
        ensures
            Some(b) == old(self).bytes@.peek(),
            final(self).bytes@ == old(self).bytes@.advanced(1),
            final(self).pos == 1,
            final(self).wf(),
            *final(final(self).bytes) == *final(old(self).bytes),
    {
        let in_order: bool = self.assert_pos(0);
        assert(in_order);
        self.take()
    }

    /// The second byte of the window.
    pub fn _1(&mut self) -> (b: u8)
        requires
            old(self).wf(),
            old(self).pos == 1,
        ensures
            Some(b) == old(self).bytes@.peek(),
            final(self).bytes@ == old(self).bytes@.advanced(1),
            final(self).pos == 2,
            final(self).wf(),
            *final(final(self).bytes) == *final(old(self).bytes),
    {
        let in_order: bool = self.assert_pos(1);
        assert(in_order);
        self.take()
    }

    /// The third byte of the window.
    pub fn _2(&mut self) -> (b: u8)
        requires
            old(self).wf(),
            old(self).pos == 2,
        ensures
            Some(b) == old(self).bytes@.peek(),
            final(self).bytes@ == old(self).bytes@.advanced(1),
            final(self).pos == 3,
            final(self).wf(),
            *final(final(self).bytes) == *final(old(self).bytes),
    {
        let in_order: bool = self.assert_pos(2);
        assert(in_order);
        self.take()
    }

    /// The fourth byte of the window.
    pub fn _3(&mut self) -> (b: u8)
        requires
            old(self).wf(),
            old(self).pos == 3,
        ensures
            Some(b) == old(self).bytes@.peek(),
            final(self).bytes@ == old(self).bytes@.advanced(1),
            final(self).pos == 4,
            final(self).wf(),
            *final(final(self).bytes) == *final(old(self).bytes),
    {
        let in_order: bool = self.assert_pos(3);
        assert(in_order);
        self.take()
    }

    /// The fifth byte of the window.
    pub fn _4(&mut self) -> (b: u8)
        requires
            old(self).wf(),
            old(self).pos == 4,
        ensures
            Some(b) == old(self).bytes@.peek(),
            final(self).bytes@ == old(self).bytes@.advanced(1),
            final(self).pos == 5,
            final(self).wf(),
            *final(final(self).bytes) == *final(old(self).bytes),
    {
        let in_order: bool = self.assert_pos(4);
        assert(in_order);
        self.take()
    }

    /// The sixth byte of the window.
    pub fn _5(&mut self) -> (b: u8)
        requires
            old(self).wf(),
            old(self).pos == 5,
        ensures
            Some(b) == old(self).bytes@.peek(),
            final(self).bytes@ == old(self).bytes@.advanced(1),
            final(self).pos == 6,
            final(self).wf(),
            *final(final(self).bytes) == *final(old(self).bytes),
    {
        let in_order: bool = self.assert_pos(5);
        assert(in_order);
        self.take()
    }

    /// The seventh byte of the window.
    pub fn _6(&mut self) -> (b: u8)
        requires
            old(self).wf(),
            old(self).pos == 6,
        ensures
            Some(b) == old(self).bytes@.peek(),
            final(self).bytes@ == old(self).bytes@.advanced(1),
            final(self).pos == 7,
            final(self).wf(),
            *final(final(self).bytes) == *final(old(self).bytes),
    {
        let in_order: bool = self.assert_pos(6);
        assert(in_order);
        self.take()
    }

    /// The eighth byte of the window.
    pub fn _7(&mut self) -> (b: u8)
        requires
            old(self).wf(),
            old(self).pos == 7,
        ensures
            Some(b) == old(self).bytes@.peek(),
            final(self).bytes@ == old(self).bytes@.advanced(1),
            final(self).pos == 8,
            final(self).wf(),
            *final(final(self).bytes) == *final(old(self).bytes),
    {
        let in_order: bool = self.assert_pos(7);
        assert(in_order);
        self.take()
    }
}

} // verus!
