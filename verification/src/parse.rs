//! Reading a board from a line of text.
//!
//! A line is cut at its commas. Each piece is trimmed and read as a decimal
//! number; the pieces that are a digit from 1 to 9 give the cells of the
//! board, in order, and all other pieces are passed over.

use crate::board::Sudoku;
use crate::digits::all_in_range;
use vstd::prelude::*;

verus! {

/// Whether `c` is white space: one of the code points with Unicode's
/// `White_Space` property, which are the ones that `str::trim` removes.
pub open spec fn is_whitespace(c: char) -> bool {
    let u = c as u32;
    ||| 0x09 <= u <= 0x0D
    ||| u == 0x20
    ||| u == 0x85
    ||| u == 0xA0
    ||| u == 0x1680
    ||| 0x2000 <= u <= 0x200A
    ||| u == 0x2028
    ||| u == 0x2029
    ||| u == 0x202F
    ||| u == 0x205F
    ||| u == 0x3000
}

/// Whether `c` is one of the characters `0` to `9`.
pub open spec fn is_decimal_digit(c: char) -> bool {
    0x30 <= c as u32 <= 0x39
}

/// The number that a decimal digit stands for.
pub open spec fn digit_value(c: char) -> nat {
    if is_decimal_digit(c) {
        (c as u32 - 0x30) as nat
    } else {
        0
    }
}

/// `s` without the white space it begins with.
pub open spec fn trim_start(s: Seq<char>) -> Seq<char>
    decreases s.len(),
{
    if s.len() > 0 && is_whitespace(s.first()) {
        trim_start(s.drop_first())
    } else {
        s
    }
}

/// `s` without the white space it ends with.
pub open spec fn trim_end(s: Seq<char>) -> Seq<char>
    decreases s.len(),
{
    if s.len() > 0 && is_whitespace(s.last()) {
        trim_end(s.drop_last())
    } else {
        s
    }
}

/// `s` without the white space around it.
pub open spec fn trim(s: Seq<char>) -> Seq<char> {
    trim_end(trim_start(s))
}

/// Whether `s` holds decimal digits only.
pub open spec fn all_decimal_digits(s: Seq<char>) -> bool {
    forall|i: int| 0 <= i < s.len() ==> is_decimal_digit(#[trigger] s[i])
}

/// The number that a string of decimal digits stands for.
pub open spec fn decimal_value(digits: Seq<char>) -> nat
    decreases digits.len(),
{
    if digits.len() == 0 {
        0
    } else {
        10 * decimal_value(digits.drop_last()) + digit_value(digits.last())
    }
}

/// `s` without the plus sign that it may begin with.
pub open spec fn without_sign(s: Seq<char>) -> Seq<char> {
    if s.len() > 0 && s.first() == '+' {
        s.drop_first()
    } else {
        s
    }
}

/// The byte that `s` is the decimal notation of: an optional plus sign, then
/// one or more digits, which stand for a number up to 255. These are the
/// strings that `u8::from_str` accepts.
pub open spec fn number_value(s: Seq<char>) -> Option<u8> {
    let digits = without_sign(s);
    if digits.len() > 0 && all_decimal_digits(digits) && decimal_value(digits) <= 255 {
        Some(decimal_value(digits) as u8)
    } else {
        None
    }
}

/// The cell value that a piece of a line gives, if it gives one: the piece
/// is trimmed, read as a number, and kept if that number is a digit from 1
/// to 9.
pub open spec fn piece_value(piece: Seq<char>) -> Option<u8> {
    match number_value(trim(piece)) {
        Some(v) => if 1 <= v <= 9 {
            Some(v)
        } else {
            None
        },
        None => None,
    }
}

/// The length of the piece that `s` begins with: the number of characters
/// before its first comma.
pub open spec fn first_piece_len(s: Seq<char>) -> nat
    decreases s.len(),
{
    if s.len() == 0 || s.first() == ',' {
        0
    } else {
        1 + first_piece_len(s.drop_first())
    }
}

/// The pieces that the commas cut `s` into, in order. A string with `n`
/// commas has `n + 1` pieces, some of which may be empty.
pub open spec fn split_commas(s: Seq<char>) -> Seq<Seq<char>>
    decreases s.len(),
{
    let n = first_piece_len(s) as int;
    if n < s.len() {
        seq![s.take(n)] + split_commas(s.skip(n + 1))
    } else {
        seq![s]
    }
}

/// The cell values that a sequence of pieces gives, in order.
pub open spec fn kept_values(pieces: Seq<Seq<char>>) -> Seq<u8>
    decreases pieces.len(),
{
    if pieces.len() == 0 {
        Seq::empty()
    } else {
        let before = kept_values(pieces.drop_last());
        match piece_value(pieces.last()) {
            Some(v) => before.push(v),
            None => before,
        }
    }
}

/// The cell values that a line gives, in order.
pub open spec fn line_values(line: Seq<char>) -> Seq<u8> {
    kept_values(split_commas(line))
}

/// The values of two runs of pieces, one after the other, are the values of
/// the first followed by those of the second.
pub proof fn lemma_kept_values_concat(a: Seq<Seq<char>>, b: Seq<Seq<char>>)
    ensures
        kept_values(a + b) == kept_values(a) + kept_values(b),
    decreases b.len(),
{
    if b.len() == 0 {
        assert(a + b =~= a);
    } else {
        lemma_kept_values_concat(a, b.drop_last());
        assert((a + b).drop_last() =~= a + b.drop_last());
    }
}

/// Every value that is kept is a digit from 1 to 9.
pub proof fn lemma_kept_values_in_range(pieces: Seq<Seq<char>>)
    ensures
        all_in_range(kept_values(pieces)),
    decreases pieces.len(),
{
    if pieces.len() > 0 {
        lemma_kept_values_in_range(pieces.drop_last());
    }
}

/// A string of digits stands for a number at least as large as any of its
/// prefixes does.
proof fn lemma_decimal_value_grows(digits: Seq<char>, k: int)
    requires
        0 <= k <= digits.len(),
    ensures
        decimal_value(digits.take(k)) <= decimal_value(digits),
    decreases digits.len() - k,
{
    if k == digits.len() {
        assert(digits.take(k) =~= digits);
    } else {
        lemma_decimal_value_grows(digits.drop_last(), k);
        assert(digits.drop_last().take(k) =~= digits.take(k));
    }
}

/// The characters of a string.
fn chars_of(line: &str) -> (chars: Vec<char>)
    ensures
        chars@ == line@,
{
    broadcast use vstd::string::group_string_axioms;

    let mut chars: Vec<char> = Vec::new();
    let all = line.chars();
    for c in it: all
        invariant
            it.seq() == line@,
            chars@ == it.seq().take(it.index()),
    {
        chars.push(c);
    }
    chars
}

/// Computes [`is_whitespace`].
fn is_space(c: char) -> (b: bool)
    ensures
        b == is_whitespace(c),
{
    let u: u32 = c as u32;
    (0x09 <= u && u <= 0x0D) || u == 0x20 || u == 0x85 || u == 0xA0 || u == 0x1680 || (0x2000 <= u
        && u <= 0x200A) || u == 0x2028 || u == 0x2029 || u == 0x202F || u == 0x205F || u == 0x3000
}

/// Where the piece that begins at `start` ends: at the next comma, or at
/// the end of the line.
fn piece_end(chars: &Vec<char>, start: usize) -> (end: usize)
    requires
        start <= chars.len(),
    ensures
        start <= end <= chars.len(),
        end - start == first_piece_len(chars@.skip(start as int)),
{
    let mut end: usize = start;
    while end < chars.len() && chars[end] != ','
        invariant
            start <= end <= chars.len(),
            first_piece_len(chars@.skip(start as int)) == (end - start) + first_piece_len(
                chars@.skip(end as int),
            ),
        decreases chars.len() - end,
    {
        assert(chars@.skip(end as int).drop_first() =~= chars@.skip(end as int + 1));
        end += 1;
    }
    end
}

/// The part of `chars[from..to]` that is left when the white space around
/// it is taken away.
fn trim_bounds(chars: &Vec<char>, from: usize, to: usize) -> (r: (usize, usize))
    requires
        from <= to <= chars.len(),
    ensures
        from <= r.0 <= r.1 <= to,
        chars@.subrange(r.0 as int, r.1 as int) == trim(chars@.subrange(from as int, to as int)),
{
    let mut a: usize = from;
    while a < to && is_space(chars[a])
        invariant
            from <= a <= to <= chars.len(),
            trim_start(chars@.subrange(from as int, to as int)) == trim_start(
                chars@.subrange(a as int, to as int),
            ),
        decreases to - a,
    {
        assert(chars@.subrange(a as int, to as int).drop_first() =~= chars@.subrange(
            a as int + 1,
            to as int,
        ));
        a += 1;
    }
    let mut b: usize = to;
    while b > a && is_space(chars[b - 1])
        invariant
            a <= b <= to <= chars.len(),
            trim_end(chars@.subrange(a as int, to as int)) == trim_end(
                chars@.subrange(a as int, b as int),
            ),
        decreases b - a,
    {
        assert(chars@.subrange(a as int, b as int).drop_last() =~= chars@.subrange(
            a as int,
            b as int - 1,
        ));
        b -= 1;
    }
    (a, b)
}

/// The byte that `chars[from..to]` is the decimal notation of.
fn number_at(chars: &Vec<char>, from: usize, to: usize) -> (r: Option<u8>)
    requires
        from <= to <= chars.len(),
    ensures
        r == number_value(chars@.subrange(from as int, to as int)),
{
    let mut i: usize = from;
    if i < to && chars[i] == '+' {
        i += 1;
    }
    let first: usize = i;
    let ghost digits = chars@.subrange(first as int, to as int);
    if first == to {
        return None;
    }
    let mut value: u16 = 0;
    while i < to
        invariant
            from <= first <= i <= to <= chars.len(),
            digits == chars@.subrange(first as int, to as int),
            digits == without_sign(chars@.subrange(from as int, to as int)),
            all_decimal_digits(digits.take(i - first)),
            value == decimal_value(digits.take(i - first)),
            value <= 255,
        decreases to - i,
    {
        let u: u32 = chars[i] as u32;
        if u < 0x30 || u > 0x39 {
            assert(!is_decimal_digit(digits[i - first]));
            return None;
        }
        let d: u16 = (u - 0x30) as u16;
        proof {
            let taken = digits.take(i - first + 1);
            assert(taken.drop_last() =~= digits.take(i - first));
            assert forall|k: int| 0 <= k < taken.len() implies is_decimal_digit(
                #[trigger] taken[k],
            ) by {
                if k < i - first {
                    assert(taken[k] == digits.take(i - first)[k]);
                }
            }
        }
        value = value * 10 + d;
        if value > 255 {
            proof {
                lemma_decimal_value_grows(digits, i - first + 1);
            }
            return None;
        }
        i += 1;
    }
    assert(digits.take(to - first) =~= digits);
    Some(value as u8)
}

/// The cell value that the piece `chars[from..to]` gives, if it gives one.
fn value_at(chars: &Vec<char>, from: usize, to: usize) -> (r: Option<u8>)
    requires
        from <= to <= chars.len(),
    ensures
        r == piece_value(chars@.subrange(from as int, to as int)),
{
    let (a, b) = trim_bounds(chars, from, to);
    match number_at(chars, a, b) {
        Some(v) => if 1 <= v && v <= 9 {
            Some(v)
        } else {
            None
        },
        None => None,
    }
}

/// Reads a board from a line of comma-separated numbers.
///
/// The first 81 cell values of the line make the board. A line that gives
/// fewer than 81 is no board. Pieces that are no number, and numbers that
/// are no digit from 1 to 9, are passed over in silence, so every cell of a
/// board that comes out of here is in range.
pub fn parse_raw_line_to_sudoku(input: &str) -> (board: Option<Sudoku>)
    ensures
        match board {
            Some(b) => line_values(input@).len() >= 81 && b@ == line_values(input@).take(81),
            None => line_values(input@).len() < 81,
        },
        line_values(input@).len() == 81 ==> board is Some && board->0@ == line_values(input@),
        board matches Some(b) ==> all_in_range(b@),
{
    let chars = chars_of(input);
    let mut fields = [0u8; 81];
    let mut count: usize = 0;
    let mut start: usize = 0;
    let mut more: bool = true;
    let ghost mut done: Seq<Seq<char>> = Seq::empty();
    assert(chars@.skip(0) =~= chars@);
    while more && count < 81
        invariant
            chars@ == input@,
            count <= 81,
            start <= chars.len(),
            more ==> split_commas(chars@) == done + split_commas(chars@.skip(start as int)),
            !more ==> split_commas(chars@) == done,
            kept_values(done) == fields@.take(count as int),
        decreases (if more { 1int } else { 0int }), chars.len() - start,
    {
        let end = piece_end(&chars, start);
        let ghost piece = chars@.subrange(start as int, end as int);
        proof {
            // The piece at `start` is the first piece of what is left, and
            // what follows its comma is left for the rounds to come.
            let rest = chars@.skip(start as int);
            assert(rest.take(end - start) =~= piece);
            if end < chars.len() {
                assert(rest.skip(end - start + 1) =~= chars@.skip(end as int + 1));
            }
            assert(done.push(piece).drop_last() =~= done);
        }
        match value_at(&chars, start, end) {
            Some(v) => {
                fields[count] = v;
                count += 1;
            },
            None => {},
        }
        proof {
            done = done.push(piece);
        }
        if end < chars.len() {
            start = end + 1;
        } else {
            more = false;
        }
    }
    proof {
        if more {
            lemma_kept_values_concat(done, split_commas(chars@.skip(start as int)));
        }
        lemma_kept_values_in_range(done);
    }
    if count == 81 {
        assert(fields@.take(81) =~= fields@);
        Some(Sudoku { fields })
    } else {
        None
    }
}

} // verus!
