//! Line and column numbers for byte offsets.

use vstd::prelude::*;
use vstd::utf8::*;

use crate::text;

verus! {

broadcast use {vstd::seq_lib::group_seq_properties, vstd::utf8::group_utf8_lib};

/// A place in a file, 1-based on both axes, with the column counted in
/// **characters**. The mutation-testing-report schema requires exactly this,
/// and a byte column would drift on any line holding a non-ASCII string.
#[derive(Clone, Copy, Debug, PartialEq, Eq)]
pub struct Position {
    pub line: u32,
    pub column: u32,
}

/// Line numbers for offsets that only ever move forward. Counting from where
/// the last question left off scans a file once, where counting from byte zero
/// would scan it once per mutant.
pub struct Lines {
    scanned: usize,
    newlines: u32,
    /// Just past the most recent newline: where the current line's columns are
    /// counted from.
    line_start: usize,
}

/// Where a `Lines` cursor stands.
pub struct Cursor {
    pub scanned: nat,
    pub newlines: nat,
    pub line_start: nat,
}

impl View for Lines {
    type V = Cursor;

    closed spec fn view(&self) -> Cursor {
        Cursor {
            scanned: self.scanned as nat,
            newlines: self.newlines as nat,
            line_start: self.line_start as nat,
        }
    }
}

/// How many of these bytes are newlines.
pub open spec fn newlines_in(bytes: Seq<u8>) -> nat
    decreases bytes.len(),
{
    if bytes.len() == 0 {
        0
    } else {
        newlines_in(bytes.drop_last()) + if bytes.last() == 10 {
            1nat
        } else {
            0
        }
    }
}

/// Just past the last newline in these bytes.
pub open spec fn past_last_newline(bytes: Seq<u8>) -> Option<nat>
    decreases bytes.len(),
{
    if bytes.len() == 0 {
        None
    } else if bytes.last() == 10 {
        Some(bytes.len())
    } else {
        past_last_newline(bytes.drop_last())
    }
}

/// How many characters stand between two offsets, and none when one of the two
/// falls inside a character.
pub open spec fn chars_between(source: Seq<char>, start: int, end: int) -> nat {
    match text::sliced(source, start, end) {
        Some(part) => part.len(),
        None => 0,
    }
}

/// A sum that stops at the largest 32-bit number.
pub open spec fn capped(n: nat) -> nat {
    if n > 0xffff_ffff {
        0xffff_ffff
    } else {
        n
    }
}

/// The cursor before anything was asked.
pub open spec fn fresh() -> Cursor {
    Cursor { scanned: 0, newlines: 0, line_start: 0 }
}

impl Cursor {
    /// The cursor moved up to an offset, having taken in what it passed over. An
    /// offset behind the cursor, or past the end, leaves it where it is.
    pub open spec fn advanced(self, bytes: Seq<u8>, offset: nat) -> Cursor {
        if self.scanned <= offset <= bytes.len() {
            let span = bytes.subrange(self.scanned as int, offset as int);
            Cursor {
                scanned: offset,
                newlines: capped(self.newlines + newlines_in(span)),
                line_start: match past_last_newline(span) {
                    Some(past) => self.scanned + past,
                    None => self.line_start,
                },
            }
        } else {
            self
        }
    }

    /// The line the cursor stands on.
    pub open spec fn line(self) -> nat {
        capped(self.newlines + 1)
    }

    /// The column the cursor stands on.
    pub open spec fn column(self, source: Seq<char>) -> nat {
        capped(chars_between(source, self.line_start as int, self.scanned as int) + 1)
    }

    /// Whether the cursor knows what a scan from byte zero would know, newlines
    /// past the largest 32-bit number left out.
    pub open spec fn is_exact(self, bytes: Seq<u8>) -> bool {
        &&& self.scanned <= bytes.len()
        &&& self.newlines == capped(newlines_in(bytes.subrange(0, self.scanned as int)))
        &&& self.line_start == line_start_of(bytes, self.scanned)
    }
}

/// The line of an offset, counted from byte zero.
pub open spec fn line_of(bytes: Seq<u8>, offset: nat) -> nat {
    newlines_in(bytes.subrange(0, offset as int)) + 1
}

/// Where the line of an offset starts, found from byte zero.
pub open spec fn line_start_of(bytes: Seq<u8>, offset: nat) -> nat {
    match past_last_newline(bytes.subrange(0, offset as int)) {
        Some(past) => past,
        None => 0,
    }
}

/// The line and the column of an offset, both counted from 1: how many newlines
/// come before it, and how many characters since the last of them. Neither
/// number goes past the largest 32-bit one, and an offset past the end is
/// answered with the first place there is.
pub open spec fn place_of(source: Seq<char>, offset: int) -> (int, int) {
    let bytes = encode_utf8(source);
    if 0 <= offset <= bytes.len() {
        (
            capped(line_of(bytes, offset as nat)) as int,
            capped(
                chars_between(source, line_start_of(bytes, offset as nat) as int, offset) + 1,
            ) as int,
        )
    } else {
        (1, 1)
    }
}

proof fn lemma_newlines_concat(a: Seq<u8>, b: Seq<u8>)
    ensures
        newlines_in(a + b) == newlines_in(a) + newlines_in(b),
        newlines_in(b) <= b.len(),
        past_last_newline(a + b) == match past_last_newline(b) {
            Some(past) => Some(a.len() + past),
            None => past_last_newline(a),
        },
    decreases b.len(),
{
    if b.len() == 0 {
        assert(a + b =~= a);
    } else {
        assert((a + b).drop_last() =~= a + b.drop_last());
        assert((a + b).last() == b.last());
        lemma_newlines_concat(a, b.drop_last());
    }
}

/// An exact cursor that moves forward stays exact.
pub proof fn lemma_forward_stays_exact(cursor: Cursor, bytes: Seq<u8>, offset: nat)
    requires
        cursor.is_exact(bytes),
        cursor.scanned <= offset <= bytes.len(),
    ensures
        cursor.advanced(bytes, offset).is_exact(bytes),
        cursor.advanced(bytes, offset).line() == capped(line_of(bytes, offset)),
{
    let behind = bytes.subrange(0, cursor.scanned as int);
    let ahead = bytes.subrange(cursor.scanned as int, offset as int);
    assert(bytes.subrange(0, offset as int) =~= behind + ahead);
    lemma_newlines_concat(behind, ahead);
}

/// Asked about offsets that never move back, the cursor answers what a scan
/// from byte zero would, whichever offsets came before the last one and however
/// often it was asked: the line is one more than the newlines in front of the
/// offset, and the column one more than the characters since the last of them,
/// each as long as it fits in 32 bits.
pub proof fn law_a_forward_walk_answers_like_a_scan(source: Seq<char>, offsets: Seq<nat>)
    requires
        offsets.len() > 0,
        offsets.last() <= text::width(source),
        forall|i: int, j: int| 0 <= i <= j < offsets.len() ==> offsets[i] <= offsets[j],
    ensures
        ({
            let bytes = encode_utf8(source);
            let last = offsets.last();
            let line = newlines_in(bytes.subrange(0, last as int)) + 1;
            let column = chars_between(
                source,
                line_start_of(bytes, last) as int,
                last as int,
            ) + 1;
            let cursor = walked(bytes, offsets);
            &&& cursor.is_exact(bytes)
            &&& cursor.scanned == last
            &&& line <= u32::MAX ==> cursor.line() == line
            &&& column <= u32::MAX ==> cursor.column(source) == column
            &&& cursor.line() >= 1 && cursor.column(source) >= 1
            &&& (cursor.line() as int, cursor.column(source) as int) == place_of(
                source,
                last as int,
            )
        }),
    decreases offsets.len(),
{
    let bytes = encode_utf8(source);
    let earlier = offsets.drop_last();
    if earlier.len() > 0 {
        law_a_forward_walk_answers_like_a_scan(source, earlier);
        assert(earlier.last() == offsets[offsets.len() - 2]);
    } else {
        assert(bytes.subrange(0, 0) =~= Seq::<u8>::empty());
    }
    lemma_forward_stays_exact(walked(bytes, earlier), bytes, offsets.last());
}

/// An offset behind the cursor, or past the end, moves nothing: the line and the
/// column are those of the last answer, and so are all that come after.
pub proof fn law_an_offset_behind_repeats_the_last_answer(
    cursor: Cursor,
    source: Seq<char>,
    offset: nat,
)
    requires
        offset < cursor.scanned || offset > text::width(source),
    ensures
        cursor.advanced(encode_utf8(source), offset) == cursor,
{
}

/// A fresh cursor moved to each of these offsets in turn.
pub open spec fn walked(bytes: Seq<u8>, offsets: Seq<nat>) -> Cursor
    decreases offsets.len(),
{
    if offsets.len() == 0 {
        fresh()
    } else {
        walked(bytes, offsets.drop_last()).advanced(bytes, offsets.last())
    }
}

impl Default for Lines {
    fn default() -> (lines: Lines)
        ensures
            lines@ == fresh(),
    {
        Lines { scanned: 0, newlines: 0, line_start: 0 }
    }
}

impl Lines {
    /// Move the cursor up to `byte_offset`, taking in what it passes over.
    ///
    /// An offset behind the cursor, or past the end, takes in nothing and
    /// repeats the last answer.
    fn advance(&mut self, source: &str, byte_offset: usize)
        ensures
            final(self)@ == old(self)@.advanced(encode_utf8(source@), byte_offset as nat),
    {
        let bytes: &[u8] = source.as_bytes();
        if !(self.scanned <= byte_offset && byte_offset <= bytes.len()) {
            return;
        }
        let from: usize = self.scanned;
        let ghost known = self.newlines as nat;
        let mut newlines: u32 = self.newlines;
        let mut line_start: usize = self.line_start;
        let mut at: usize = from;
        assert(bytes@.subrange(from as int, from as int) =~= Seq::<u8>::empty());
        while at < byte_offset
            invariant
                from <= at <= byte_offset <= bytes@.len(),
                newlines as nat == capped(
                    known + newlines_in(bytes@.subrange(from as int, at as int)),
                ),
                line_start as nat == match past_last_newline(
                    bytes@.subrange(from as int, at as int),
                ) {
                    Some(past) => from as nat + past,
                    None => old(self)@.line_start,
                },
            decreases byte_offset - at,
        {
            let ghost wider = bytes@.subrange(from as int, at + 1);
            assert(wider.drop_last() =~= bytes@.subrange(from as int, at as int));
            assert(wider.last() == bytes@[at as int]);
            if bytes[at] == 10 {
                newlines = newlines.saturating_add(1);
                line_start = at + 1;
            }
            at += 1;
        }
        self.newlines = newlines;
        self.line_start = line_start;
        self.scanned = byte_offset;
    }

    /// The line of an offset. A line number past the largest 32-bit one is
    /// answered as that one, and an offset behind the cursor, or past the end,
    /// with the last answer.
    pub fn at(&mut self, source: &str, byte_offset: usize) -> (line: u32)
        ensures
            final(self)@ == old(self)@.advanced(encode_utf8(source@), byte_offset as nat),
            line as nat == final(self)@.line(),
    {
        self.advance(source, byte_offset);
        self.newlines.saturating_add(1)
    }

    /// The line and the column of an offset. An offset behind the cursor, or
    /// past the end, is answered with the last line and column.
    pub fn position(&mut self, source: &str, byte_offset: usize) -> (place: Position)
        ensures
            final(self)@ == old(self)@.advanced(encode_utf8(source@), byte_offset as nat),
            place.line as nat == final(self)@.line(),
            place.column as nat == final(self)@.column(source@),
    {
        self.advance(source, byte_offset);
        let before: usize = match text::slice(source, self.line_start, self.scanned) {
            Some(part) => part.unicode_len(),
            None => 0,
        };
        let column: u32 = if before as u64 >= 0xffff_ffff {
            0xffff_ffff
        } else {
            before as u32 + 1
        };
        Position { line: self.newlines.saturating_add(1), column }
    }

    /// The line and the column of an offset, wherever the cursor stood before:
    /// mutants nest, and one inside another starts behind the end of that one.
    pub fn locate(&mut self, source: &str, byte_offset: usize) -> (place: Position)
        ensures
            (place.line as int, place.column as int) == place_of(source@, byte_offset as int),
            final(self)@ == fresh().advanced(encode_utf8(source@), byte_offset as nat),
    {
        let ghost bytes = encode_utf8(source@);
        *self = Lines::default();
        proof {
            if byte_offset <= bytes.len() {
                assert(bytes.subrange(0, byte_offset as int) == bytes.subrange(
                    fresh().scanned as int,
                    byte_offset as int,
                ));
            } else {
                assert(bytes.subrange(0, 0) =~= Seq::<u8>::empty());
                assert(decode_utf8(Seq::<u8>::empty()).len() == 0);
            }
        }
        self.position(source, byte_offset)
    }
}

/// Newlines are the bytes equal to 10, each counted once; and a line starts just
/// behind the last of them, or at byte zero when there is none.
pub proof fn law_a_line_starts_behind_its_last_newline(bytes: Seq<u8>)
    ensures
        newlines_in(bytes) == bytes.filter(|byte: u8| byte == 10).len(),
        match past_last_newline(bytes) {
            Some(past) => 0 < past <= bytes.len() && bytes[past - 1] == 10 && forall|i: int|
                past <= i < bytes.len() ==> bytes[i] != 10,
            None => forall|i: int| 0 <= i < bytes.len() ==> bytes[i] != 10,
        },
    decreases bytes.len(),
{
    reveal(Seq::filter);
    if bytes.len() > 0 {
        let shorter = bytes.drop_last();
        law_a_line_starts_behind_its_last_newline(shorter);
        assert forall|i: int| 0 <= i < shorter.len() implies shorter[i] == bytes[i] by {}
        assert(bytes[bytes.len() - 1] == bytes.last());
    }
}

/// The place of an offset, both numbers counted from one: its line is one more
/// than the newlines in front of it, and its column one more than the characters
/// between it and the last of those.
pub proof fn law_a_place_counts_lines_and_characters(
    source: Seq<char>,
    offset: int,
    from: int,
    part: Seq<char>,
)
    requires
        0 <= from <= offset <= encode_utf8(source).len() < 0xffff_ffff,
        from == 0 || encode_utf8(source)[from - 1] == 10,
        forall|i: int| from <= i < offset ==> encode_utf8(source)[i] != 10,
        text::sliced(source, from, offset) == Some(part),
        part.len() < 0xffff_ffff,
    ensures
        place_of(source, offset).0 == encode_utf8(source).subrange(0, offset).filter(
            |byte: u8| byte == 10,
        ).len() + 1,
        place_of(source, offset).1 == part.len() + 1,
{
    let bytes = encode_utf8(source);
    let head = bytes.subrange(0, offset);
    law_a_line_starts_behind_its_last_newline(head);
    assert forall|i: int| 0 <= i < head.len() implies head[i] == bytes[i] by {}
    let newline = |byte: u8| byte == 10;
    lemma_filter_is_shorter(head);
    match past_last_newline(head) {
        Some(past) => {
            assert(head[past - 1] == 10);
            if from > past {
                assert(head[from - 1] == 10);
            }
            if past > from {
                assert(bytes[past - 1] != 10);
            }
            assert(past == from);
        },
        None => {
            if from > 0 {
                assert(head[from - 1] == 10);
            }
        },
    }
}

proof fn lemma_filter_is_shorter(bytes: Seq<u8>)
    ensures
        bytes.filter(|byte: u8| byte == 10).len() <= bytes.len(),
    decreases bytes.len(),
{
    reveal(Seq::filter);
    if bytes.len() > 0 {
        lemma_filter_is_shorter(bytes.drop_last());
    }
}

} // verus!
