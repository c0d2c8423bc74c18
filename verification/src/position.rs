//! Editor positions: lines, and UTF-16 code units within a line.
use crate::syntax::ByteRange;
use crate::text::{
    byte_len, byte_len_of, fits, is_ended, lemma_byte_len_monotonic, lemma_byte_len_step,
    utf16_width, utf16_width_of, utf8_width_of,
};
use vstd::prelude::*;

verus! {

/// A place in a text: a line, and a number of UTF-16 code units into it, both from zero.
#[derive(Debug, Clone, Copy, PartialEq, Eq, Structural)]
pub struct Position {
    pub line: u32,
    pub character: u32,
}

/// The text between two positions.
#[derive(Debug, Clone, Copy, PartialEq, Eq, Structural)]
pub struct Range {
    pub start: Position,
    pub end: Position,
}

/// The line and the code unit at the end of a text.
pub open spec fn end_of(s: Seq<char>) -> (nat, nat)
    decreases s.len(),
{
    if s.len() == 0 {
        (0, 0)
    } else {
        let (line, character) = end_of(s.drop_last());
        if s.last() == '\n' {
            (line + 1, 0)
        } else {
            (line, character + utf16_width(s.last()))
        }
    }
}

/// The position at the end of a text.
pub open spec fn position_after(s: Seq<char>) -> Position {
    Position { line: end_of(s).0 as u32, character: end_of(s).1 as u32 }
}

/// How many characters of a text start before a byte offset.
pub open spec fn chars_before(s: Seq<char>, offset: int) -> int
    decreases s.len(),
{
    if s.len() == 0 {
        0
    } else if byte_len(s.drop_last()) < offset {
        s.len() as int
    } else {
        chars_before(s.drop_last(), offset)
    }
}

/// The position of a byte offset: the end of the characters that start before it.
pub open spec fn position_of_offset(s: Seq<char>, offset: int) -> Position {
    position_after(s.take(chars_before(s, offset)))
}

/// The first character, from `i` on, that stands on the line of the position and not before it.
pub open spec fn index_from(s: Seq<char>, position: Position, i: int) -> int
    decreases s.len() - i,
{
    if i >= s.len() {
        s.len() as int
    } else if end_of(s.take(i)).0 == position.line && end_of(s.take(i)).1 >= position.character {
        i
    } else {
        index_from(s, position, i + 1)
    }
}

/// The character at a position; the end of the text if there is none.
pub open spec fn index_of_position(s: Seq<char>, position: Position) -> int {
    index_from(s, position, 0)
}

/// The place is at the start of a line.
pub open spec fn starts_line(s: Seq<char>, i: int) -> bool {
    0 <= i <= s.len() && (i == 0 || s[i - 1] == '\n')
}

/// A position is found within the text.
pub proof fn lemma_index_in_text(text: Seq<char>, position: Position, i: int)
    requires
        0 <= i <= text.len(),
    ensures
        i <= index_from(text, position, i) <= text.len(),
    decreases text.len() - i,
{
    if i < text.len() {
        lemma_index_in_text(text, position, i + 1);
    }
}

proof fn lemma_line_from(s: Seq<char>, line: u32, i: int)
    requires
        0 <= i <= s.len(),
        is_ended(s) || line <= end_of(s).0,
        end_of(s.take(i)).0 <= line,
        end_of(s.take(i)).0 == line ==> starts_line(s, i),
    ensures
        starts_line(s, index_from(s, Position { line, character: 0 }, i)),
    decreases s.len() - i,
{
    if i < s.len() {
        if end_of(s.take(i)).0 != line {
            assert(s.take(i + 1).drop_last() =~= s.take(i));
            lemma_line_from(s, line, i + 1);
        }
    } else {
        assert(s.take(i) =~= s);
    }
}

/// The start of a line that a text has is found at the start of a line. So is one beyond the
/// text, where the last line is ended.
pub proof fn lemma_index_of_line(s: Seq<char>, line: u32)
    requires
        is_ended(s) || line <= end_of(s).0,
    ensures
        starts_line(s, index_of_position(s, Position { line, character: 0 })),
{
    assert(s.take(0) =~= Seq::<char>::empty());
    lemma_line_from(s, line, 0);
}

/// The part of a text at a range.
pub open spec fn text_at(s: Seq<char>, range: Range) -> Seq<char> {
    s.subrange(index_of_position(s, range.start), index_of_position(s, range.end))
}

/// The range runs forward, within the text, and what stands there is `part`.
pub open spec fn reads(s: Seq<char>, range: Range, part: Seq<char>) -> bool {
    0 <= index_of_position(s, range.start) <= index_of_position(s, range.end) <= s.len()
        && text_at(s, range) == part
}

/// The byte offset of a position; the length of the text if there is no such character.
pub open spec fn offset_of_position(s: Seq<char>, position: Position) -> nat {
    byte_len(s.take(index_of_position(s, position)))
}

/// The positions of two byte offsets.
pub open spec fn range_of_offsets(s: Seq<char>, start: int, end: int) -> Range {
    Range { start: position_of_offset(s, start), end: position_of_offset(s, end) }
}

/// A text has no more lines and code units than bytes.
pub proof fn lemma_end_bounded(s: Seq<char>)
    ensures
        end_of(s).0 + end_of(s).1 <= byte_len(s),
        end_of(s).1 > 0 ==> end_of(s).0 < byte_len(s),
    decreases s.len(),
{
    if s.len() > 0 {
        lemma_end_bounded(s.drop_last());
    }
}

/// One more character goes on in its line or starts another.
pub proof fn lemma_end_step(s: Seq<char>, i: int)
    requires
        0 <= i < s.len(),
    ensures
        end_of(s.take(i + 1)) == if s[i] == '\n' {
            ((end_of(s.take(i)).0 + 1) as nat, 0nat)
        } else {
            (end_of(s.take(i)).0, end_of(s.take(i)).1 + utf16_width(s[i]))
        },
{
    assert(s.take(i + 1).drop_last() =~= s.take(i));
}

/// The characters that start before an offset are those up to the first that does not.
pub proof fn lemma_chars_before(s: Seq<char>, offset: int, i: int)
    requires
        0 <= i <= s.len(),
        i == s.len() || byte_len(s.take(i)) >= offset,
        i == 0 || byte_len(s.take(i - 1)) < offset,
    ensures
        chars_before(s, offset) == i,
    decreases s.len(),
{
    if s.len() > 0 {
        assert(s.drop_last() =~= s.take(s.len() - 1));
        if i == s.len() {
        } else {
            lemma_byte_len_monotonic(s, i, s.len() - 1);
            assert(s.drop_last().take(i) =~= s.take(i));
            if i > 0 {
                assert(s.drop_last().take(i - 1) =~= s.take(i - 1));
            }
            lemma_chars_before(s.drop_last(), offset, i);
        }
    }
}

/// The position of a byte offset into a text.
pub fn byte_to_position(text: &Vec<char>, offset: usize) -> (r: Position)
    requires
        fits(text@),
    ensures
        r == position_of_offset(text@, offset as int),
        r.line == end_of(text@.take(chars_before(text@, offset as int))).0,
        r.character == end_of(text@.take(chars_before(text@, offset as int))).1,
{
    let mut line: u32 = 0;
    let mut character: u32 = 0;
    let mut i: usize = 0;
    let mut at: usize = 0;
    while i < text.len() && at < offset
        invariant
            fits(text@),
            i <= text@.len(),
            at == byte_len(text@.take(i as int)),
            (line as nat, character as nat) == end_of(text@.take(i as int)),
            i == 0 || byte_len(text@.take(i - 1)) < offset,
        decreases text@.len() - i,
    {
        proof {
            lemma_byte_len_step(text@, i as int);
            lemma_byte_len_monotonic(text@, i + 1, i + 1);
            lemma_end_step(text@, i as int);
            lemma_end_bounded(text@.take(i + 1));
        }
        let c: char = text[i];
        if c == '\n' {
            line = line + 1;
            character = 0;
        } else {
            character = character + utf16_width_of(c);
        }
        at = at + utf8_width_of(c);
        i = i + 1;
    }
    proof {
        lemma_chars_before(text@, offset as int, i as int);
    }
    Position { line, character }
}

/// The character of a text at a position.
pub fn position_to_index(text: &Vec<char>, position: Position) -> (r: usize)
    requires
        fits(text@),
    ensures
        r == index_of_position(text@, position),
        r <= text@.len(),
{
    let mut line: u32 = 0;
    let mut character: u32 = 0;
    let mut i: usize = 0;
    while i < text.len()
        invariant
            fits(text@),
            i <= text@.len(),
            (line as nat, character as nat) == end_of(text@.take(i as int)),
            index_of_position(text@, position) == index_from(text@, position, i as int),
        decreases text@.len() - i,
    {
        if line == position.line && character >= position.character {
            return i;
        }
        proof {
            lemma_end_step(text@, i as int);
            lemma_byte_len_monotonic(text@, i + 1, i + 1);
            lemma_end_bounded(text@.take(i + 1));
        }
        let c: char = text[i];
        if c == '\n' {
            line = line + 1;
            character = 0;
        } else {
            character = character + utf16_width_of(c);
        }
        i = i + 1;
    }
    i
}

/// The byte offset of a position in a text.
pub fn position_to_byte(text: &Vec<char>, position: Position) -> (r: usize)
    requires
        fits(text@),
    ensures
        r == offset_of_position(text@, position),
{
    let i: usize = position_to_index(text, position);
    byte_len_of(text, i)
}

/// The positions of a range of byte offsets.
pub fn range_for_text_range(text: &Vec<char>, range: ByteRange) -> (r: Range)
    requires
        fits(text@),
    ensures
        r == range_of_offsets(text@, range.start as int, range.end as int),
{
    Range {
        start: byte_to_position(text, range.start as usize),
        end: byte_to_position(text, range.end as usize),
    }
}

/// Positions go by line first, then by code unit.
pub open spec fn not_after(left: Position, right: Position) -> bool {
    left.line < right.line || (left.line == right.line && left.character <= right.character)
}

/// Whether a position does not come after another.
pub fn position_le(left: Position, right: Position) -> (r: bool)
    ensures
        r == not_after(left, right),
{
    left.line < right.line || left.line == right.line && left.character <= right.character
}

/// The position lies between the two ends of the range, or on one of them.
pub open spec fn within(position: Position, range: Range) -> bool {
    not_after(range.start, position) && not_after(position, range.end)
}

/// Whether a position lies in a range or at one of its ends.
pub fn position_in_range(position: Position, range: Range) -> (r: bool)
    ensures
        r == within(position, range),
{
    position_le(range.start, position) && position_le(position, range.end)
}

/// The range of a diagnostic concerns a request: a cursor lies in it, or a selection touches it.
pub open spec fn touches(diagnostic: Range, requested: Range) -> bool {
    if requested.start == requested.end {
        within(requested.start, diagnostic)
    } else {
        not_after(diagnostic.start, requested.end) && not_after(requested.start, diagnostic.end)
    }
}

/// Whether a finding lies where something was asked for: at the cursor, or in the selection.
pub fn ranges_intersect_or_touch_cursor(diagnostic: Range, requested: Range) -> (r: bool)
    ensures
        r == touches(diagnostic, requested),
{
    if requested.start == requested.end {
        return position_in_range(requested.start, diagnostic);
    }
    position_le(diagnostic.start, requested.end) && position_le(requested.start, diagnostic.end)
}

/// The ends of longer prefixes of a text come later.
pub proof fn lemma_ends_increase(s: Seq<char>, i: int, j: int)
    requires
        0 <= i < j <= s.len(),
    ensures
        end_of(s.take(i)).0 < end_of(s.take(j)).0 || (end_of(s.take(i)).0 == end_of(s.take(j)).0
            && end_of(s.take(i)).1 < end_of(s.take(j)).1),
    decreases j,
{
    lemma_end_step(s, j - 1);
    if i < j - 1 {
        lemma_ends_increase(s, i, j - 1);
    }
}

proof fn lemma_index_from(s: Seq<char>, position: Position, from: int, i: int)
    requires
        0 <= from <= i <= s.len(),
        end_of(s.take(i)) == (position.line as nat, position.character as nat),
    ensures
        index_from(s, position, from) == i,
    decreases i - from,
{
    if from < i {
        lemma_ends_increase(s, from, i);
        lemma_index_from(s, position, from + 1, i);
    }
}

/// The position of a character leads back to the character.
pub proof fn character_survives_round_trip(text: Seq<char>, i: int)
    requires
        fits(text),
        0 <= i <= text.len(),
    ensures
        index_of_position(text, position_of_offset(text, byte_len(text.take(i)) as int)) == i,
{
    let offset = byte_len(text.take(i)) as int;
    if i > 0 {
        lemma_byte_len_step(text, i - 1);
    }
    lemma_chars_before(text, offset, i);
    lemma_end_bounded(text.take(i));
    lemma_byte_len_monotonic(text, i, i);
    lemma_index_from(text, position_of_offset(text, offset), 0, i);
}

/// Turning the byte offset of a character into a position and back gives the offset again.
pub proof fn offset_survives_round_trip(text: Seq<char>, i: int)
    requires
        fits(text),
        0 <= i <= text.len(),
    ensures
        offset_of_position(text, position_of_offset(text, byte_len(text.take(i)) as int))
            == byte_len(text.take(i)),
{
    character_survives_round_trip(text, i);
}

/// A later byte offset of a text never has an earlier position.
pub proof fn positions_follow_offsets(text: Seq<char>, i: int, j: int)
    requires
        fits(text),
        0 <= i <= j <= text.len(),
    ensures
        not_after(
            position_of_offset(text, byte_len(text.take(i)) as int),
            position_of_offset(text, byte_len(text.take(j)) as int),
        ),
{
    if i > 0 {
        lemma_byte_len_step(text, i - 1);
    }
    if j > 0 {
        lemma_byte_len_step(text, j - 1);
    }
    lemma_chars_before(text, byte_len(text.take(i)) as int, i);
    lemma_chars_before(text, byte_len(text.take(j)) as int, j);
    lemma_end_bounded(text.take(i));
    lemma_end_bounded(text.take(j));
    lemma_byte_len_monotonic(text, i, j);
    if i < j {
        lemma_ends_increase(text, i, j);
    }
}

/// The position behind a text counts the line feeds in it, and the code units behind the last one.
pub proof fn positions_count_lines(head: Seq<char>, line: Seq<char>)
    requires
        !line.contains('\n'),
    ensures
        end_of(head.push('\n') + line).0 == end_of(head).0 + 1,
        end_of(head.push('\n') + line).1 == units(line),
        end_of(line) == (0nat, units(line)),
    decreases line.len(),
{
    let s = head.push('\n') + line;
    if line.len() == 0 {
        assert(s =~= head.push('\n'));
        assert(head.push('\n').drop_last() =~= head);
    } else {
        let fewer = line.drop_last();
        assert(!fewer.contains('\n')) by {
            if fewer.contains('\n') {
                let k = fewer.index_of('\n');
                assert(line[k] == '\n');
            }
        }
        positions_count_lines(head, fewer);
        assert(s.drop_last() =~= head.push('\n') + fewer);
        assert(s.last() == line.last());
        assert(line.last() != '\n') by {
            if line.last() == '\n' {
                assert(line[line.len() - 1] == '\n');
            }
        }
    }
}

/// How many UTF-16 code units a text has: two for each character beyond the basic plane, and one
/// for each other.
pub open spec fn units(s: Seq<char>) -> nat
    decreases s.len(),
{
    if s.len() == 0 {
        0
    } else {
        units(s.drop_last()) + (if s.last() as u32 >= 0x10000 {
            2nat
        } else {
            1nat
        })
    }
}

/// The character at a position is the first that stands on its line and not before it; where no
/// character does, it is the end of the text.
pub proof fn positions_lead_to_characters(s: Seq<char>, position: Position)
    ensures
        0 <= index_of_position(s, position) <= s.len(),
        index_of_position(s, position) < s.len() ==> reaches(
            s,
            position,
            index_of_position(s, position),
        ),
        forall|i: int|
            0 <= i < index_of_position(s, position) ==> !#[trigger] reaches(s, position, i),
{
    lemma_first_reached(s, position, 0);
}

/// The character stands on the line of the position, and not before it.
pub open spec fn reaches(s: Seq<char>, position: Position, i: int) -> bool {
    end_of(s.take(i)).0 == position.line && end_of(s.take(i)).1 >= position.character
}

proof fn lemma_first_reached(s: Seq<char>, position: Position, from: int)
    requires
        0 <= from <= s.len(),
        forall|i: int| 0 <= i < from ==> !#[trigger] reaches(s, position, i),
    ensures
        from <= index_from(s, position, from) <= s.len(),
        index_from(s, position, from) < s.len() ==> reaches(
            s,
            position,
            index_from(s, position, from),
        ),
        forall|i: int|
            0 <= i < index_from(s, position, from) ==> !#[trigger] reaches(s, position, i),
    decreases s.len() - from,
{
    if from < s.len() && !reaches(s, position, from) {
        lemma_first_reached(s, position, from + 1);
    }
}

/// Of two positions the one on the earlier line comes first, and on one line the one with fewer
/// code units before it.
pub proof fn positions_are_ordered(a: Position, b: Position, c: Position)
    ensures
        not_after(a, b) && not_after(b, a) <==> a == b,
        not_after(a, b) || not_after(b, a),
        not_after(a, b) && not_after(b, c) ==> not_after(a, c),
        a.line < b.line ==> not_after(a, b),
        a.line == b.line && a.character < b.character ==> not_after(a, b),
{
}

/// A finding is concerned by a request exactly if some position lies in both, their ends
/// included.
pub proof fn requests_concern_what_they_touch(finding: Range, requested: Range)
    requires
        not_after(finding.start, finding.end),
        not_after(requested.start, requested.end),
    ensures
        touches(finding, requested) <==> exists|p: Position|
            #[trigger] within(p, finding) && within(p, requested),
{
    if touches(finding, requested) {
        if not_after(finding.start, requested.start) {
            assert(within(requested.start, finding) && within(requested.start, requested));
        } else {
            assert(within(finding.start, finding) && within(finding.start, requested));
        }
    }
}

}
