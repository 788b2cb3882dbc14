//! Positions in source text.
use crate::model::{ByteRange, Position, SourceLocation, SourceLocationView, SourceRange};
use crate::text::chars_of;
use vstd::prelude::*;
use vstd::string::*;
use vstd::utf8::*;

verus! {

/// How many bytes a character takes in UTF-8.
pub open spec fn utf8_width(c: char) -> int {
    encode_scalar(c as u32).len() as int
}

/// How many units a character takes in UTF-16.
pub open spec fn utf16_width(c: char) -> nat {
    if c as u32 > 0xffff {
        2
    } else {
        1
    }
}

/// How many of the first characters of a text fit into a number of bytes.
pub open spec fn fitting(source: Seq<char>, bytes: int) -> nat
    decreases source.len(),
{
    if source.len() == 0 || utf8_width(source[0]) > bytes {
        0
    } else {
        1 + fitting(source.drop_first(), bytes - utf8_width(source[0]))
    }
}

/// The line breaks in a text.
pub open spec fn line_breaks(text: Seq<char>) -> nat
    decreases text.len(),
{
    if text.len() == 0 {
        0
    } else {
        line_breaks(text.drop_last()) + if text.last() == '\n' {
            1nat
        } else {
            0nat
        }
    }
}

/// The UTF-16 units behind the last line break of a text.
pub open spec fn column_of(text: Seq<char>) -> nat
    decreases text.len(),
{
    if text.len() == 0 || text.last() == '\n' {
        0
    } else {
        column_of(text.drop_last()) + utf16_width(text.last())
    }
}

/// A number in 32 bits; higher bits are cut off.
pub open spec fn low_bits(n: nat) -> u32 {
    (n % 0x1_0000_0000) as u32
}

/// The position of a byte; a byte inside a character counts as the start of the character, and
/// a byte behind the end as the end.
pub open spec fn position_of(source: Seq<char>, byte: int) -> Position {
    let before = source.take(fitting(source, byte) as int);
    Position { line: low_bits(line_breaks(before)), character: low_bits(column_of(before)) }
}

/// The characters before a position are as many as fit in front of the byte.
pub proof fn position_takes_what_fits(source: Seq<char>, bytes: int)
    requires
        bytes >= 0,
    ensures
        fitting(source, bytes) <= source.len(),
        encode_utf8(source.take(fitting(source, bytes) as int)).len() <= bytes,
        fitting(source, bytes) < source.len() ==> encode_utf8(
            source.take((fitting(source, bytes) + 1) as int),
        ).len() > bytes,
    decreases source.len(),
{
    let k = fitting(source, bytes);
    if source.len() > 0 && utf8_width(source[0]) <= bytes {
        let rest = source.drop_first();
        position_takes_what_fits(rest, bytes - utf8_width(source[0]));
        assert(source.take(k as int).drop_first() =~= rest.take(k - 1));
        if k < source.len() {
            assert(source.take((k + 1) as int).drop_first() =~= rest.take(k as int));
        }
    } else if source.len() > 0 {
        assert(source.take(1).len() == 1);
        assert(source.take(1)[0] == source[0]);
    }
}

proof fn lemma_fitting(front: Seq<char>, rest: Seq<char>)
    ensures
        fitting(front + rest, encode_utf8(front).len() as int) == front.len(),
    decreases front.len(),
{
    let source = front + rest;
    if front.len() == 0 {
        if source.len() > 0 {
            assert(utf8_width(source[0]) > 0);
        }
    } else {
        lemma_fitting(front.drop_first(), rest);
        assert(source.drop_first() =~= front.drop_first() + rest);
        assert(source[0] == front[0]);
        assert(encode_utf8(front).len() == utf8_width(front[0]) + encode_utf8(
            front.drop_first(),
        ).len());
    }
}

proof fn lemma_lines(before: Seq<char>, line: Seq<char>)
    requires
        before.len() == 0 || before.last() == '\n',
        forall|i: int| 0 <= i < line.len() ==> #[trigger] line[i] != '\n',
    ensures
        line_breaks(before + line) == line_breaks(before),
        (forall|i: int| 0 <= i < line.len() ==> (#[trigger] line[i]) as u32 <= 0xffff)
            ==> column_of(before + line) == line.len(),
        (forall|i: int| 0 <= i < line.len() ==> (#[trigger] line[i]) as u32 > 0xffff)
            ==> column_of(before + line) == 2 * line.len(),
    decreases line.len(),
{
    let all = before + line;
    if line.len() == 0 {
        assert(all =~= before);
    } else {
        let less = line.drop_last();
        assert forall|i: int| 0 <= i < less.len() implies #[trigger] less[i] == line[i] by {}
        lemma_lines(before, less);
        assert(all.drop_last() =~= before + less);
        assert(all.last() == line.last());
        assert(line.last() == line[line.len() - 1]);
    }
}

proof fn lemma_breaks(text: Seq<char>)
    ensures
        line_breaks(text) == text.filter(|c: char| c == '\n').len(),
    decreases text.len(),
{
    reveal(Seq::filter);
    if text.len() > 0 {
        lemma_breaks(text.drop_last());
    }
}

/// A position counts the line breaks in front of its line, and what stands in front of it in the
/// line: characters of the basic plane once, others twice.
pub proof fn positions_count_lines_and_columns(
    before: Seq<char>,
    line: Seq<char>,
    rest: Seq<char>,
)
    requires
        before.len() == 0 || before.last() == '\n',
        forall|i: int| 0 <= i < line.len() ==> #[trigger] line[i] != '\n',
    ensures
        ({
            let at = position_of(
                before + line + rest,
                encode_utf8(before + line).len() as int,
            );
            let breaks = before.filter(|c: char| c == '\n').len();
            &&& breaks <= u32::MAX ==> at.line == breaks
            &&& line.len() <= u32::MAX && (forall|i: int|
                0 <= i < line.len() ==> (#[trigger] line[i]) as u32 <= 0xffff) ==> at.character
                == line.len()
            &&& 2 * line.len() <= u32::MAX && (forall|i: int|
                0 <= i < line.len() ==> (#[trigger] line[i]) as u32 > 0xffff) ==> at.character == 2
                * line.len()
        }),
{
    let front = before + line;
    lemma_fitting(front, rest);
    assert((front + rest).take(front.len() as int) =~= front);
    lemma_lines(before, line);
    lemma_breaks(before);
}

fn width_of(c: char) -> (r: usize)
    ensures
        r == utf8_width(c),
        1 <= r <= 4,
{
    let code = c as u32;
    if code <= 0x7f {
        1
    } else if code <= 0x7ff {
        2
    } else if code <= 0xffff {
        3
    } else {
        4
    }
}

fn cut(n: u64) -> (r: u32)
    ensures
        r == low_bits(n as nat),
{
    assert(n as u32 == n % 0x1_0000_0000) by (bit_vector);
    n as u32
}

/// The position of a byte in a text.
pub fn utf16_position(source: &str, byte: usize) -> (r: Position)
    ensures
        r == position_of(source@, byte as int),
{
    let chars = chars_of(source);
    let n: usize = chars.len();
    let ghost k = fitting(source@, byte as int);
    let mut room: usize = byte;
    let mut line: u64 = 0;
    let mut character: u64 = 0;
    let mut i: usize = 0;
    assert(source@.skip(0) =~= source@);
    assert(source@.take(0) =~= Seq::empty());
    while i < n && width_of(chars[i]) <= room
        invariant
            i <= n,
            n == chars@.len(),
            chars@ == source@,
            k == i + fitting(source@.skip(i as int), room as int),
            line == line_breaks(source@.take(i as int)),
            character == column_of(source@.take(i as int)),
            line <= i,
            character + room <= byte,
            i + room <= byte,
        ensures
            k == i,
            line == line_breaks(source@.take(i as int)),
            character == column_of(source@.take(i as int)),
        decreases n - i,
    {
        let c = chars[i];
        proof {
            let s = source@;
            assert(s.skip(i as int)[0] == c);
            assert(s.skip(i as int).drop_first() =~= s.skip(i + 1));
            assert(s.take(i + 1).drop_last() =~= s.take(i as int));
            assert(s.take(i + 1).last() == c);
        }
        room -= width_of(c);
        if c == '\n' {
            line += 1;
            character = 0;
        } else if c as u32 > 0xffff {
            character += 2;
        } else {
            character += 1;
        }
        i += 1;
    }
    Position { line: cut(line), character: cut(character) }
}

/// The byte at which the line begins that is `rows` lines behind byte `from`; the end when there
/// are fewer lines.
pub open spec fn line_start_from(bytes: Seq<u8>, rows: int, from: int) -> int
    decreases bytes.len() - from,
{
    if rows <= 0 || !(0 <= from < bytes.len()) {
        from
    } else if bytes[from] == 10 {
        line_start_from(bytes, rows - 1, from + 1)
    } else {
        line_start_from(bytes, rows, from + 1)
    }
}

/// The byte of a row and a column, both from zero; at most the length of the text.
pub open spec fn byte_of_point(source: Seq<char>, row: int, column: int) -> int {
    let bytes = encode_utf8(source);
    let at = line_start_from(bytes, row, 0) + column;
    if at < bytes.len() {
        at
    } else {
        bytes.len() as int
    }
}

/// The byte of a row and a column; at most the length of the text.
pub fn point_to_byte(source: &str, row: usize, column: usize) -> (r: usize)
    ensures
        r == byte_of_point(source@, row as int, column as int),
{
    let bytes = source.as_bytes();
    let n: usize = bytes.len();
    let ghost start = line_start_from(bytes@, row as int, 0);
    let mut rows: usize = row;
    let mut i: usize = 0;
    while rows > 0 && i < n
        invariant
            i <= n,
            n == bytes@.len(),
            start == line_start_from(bytes@, rows as int, i as int),
        ensures
            start == i,
            i <= n,
        decreases n - i,
    {
        if bytes[i] == 10 {
            rows -= 1;
        }
        i += 1;
    }
    if column < n - i {
        i + column
    } else {
        n
    }
}

/// The place between two bytes of a file.
pub open spec fn location_of(
    path: Seq<char>,
    source: Seq<char>,
    start: int,
    end: int,
) -> SourceLocationView {
    SourceLocationView {
        path,
        range: SourceRange {
            start: position_of(source, start),
            end: position_of(source, end),
        },
        byte_range: ByteRange { start: low_bits(start as nat), end: low_bits(end as nat) },
    }
}

/// The place between two bytes of a file.
pub fn location(path: &str, source: &str, start: usize, end: usize) -> (r: SourceLocation)
    ensures
        r@ == location_of(path@, source@, start as int, end as int),
{
    SourceLocation {
        path: path.to_owned(),
        range: SourceRange {
            start: utf16_position(source, start),
            end: utf16_position(source, end),
        },
        byte_range: ByteRange { start: cut(start as u64), end: cut(end as u64) },
    }
}

} // verus!
