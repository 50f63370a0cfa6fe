//! Reading one edge from a line of text: two numbers separated by white
//! space.

use vstd::prelude::*;

verus! {

/// White space as Unicode defines it.
pub open spec fn is_space(c: char) -> bool {
    let u = c as u32;
    ||| 0x09 <= u <= 0x0D
    ||| u == 0x20
    ||| u == 0x85
    ||| u == 0xA0
    ||| u == 0x1680
    ||| 0x2000 <= u <= 0x200A
    ||| u == 0x2028
    ||| u == 0x2029
    ||| u == 0x202F
    ||| u == 0x205F
    ||| u == 0x3000
}

/// A decimal digit.
pub open spec fn is_digit(c: char) -> bool {
    '0' <= c <= '9'
}

/// The first place at or behind `from` that holds no white space, the end of
/// the line where there is none.
pub open spec fn field_start(line: Seq<char>, from: int) -> int
    decreases line.len() - from,
{
    if from >= line.len() || !is_space(line[from]) {
        from
    } else {
        field_start(line, from + 1)
    }
}

/// The first place at or behind `from` that holds white space, the end of
/// the line where there is none.
pub open spec fn field_end(line: Seq<char>, from: int) -> int
    decreases line.len() - from,
{
    if from >= line.len() || is_space(line[from]) {
        from
    } else {
        field_end(line, from + 1)
    }
}

/// The number that the first `count` digits write.
pub open spec fn value_upto(digits: Seq<char>, count: nat) -> int
    decreases count,
{
    if count == 0 {
        0
    } else {
        value_upto(digits, (count - 1) as nat) * 10 + (digits[count - 1] as u32 - '0' as u32)
    }
}

/// The number that a run of decimal digits writes, where there is at least
/// one, all are digits, and the number is no larger than a machine word
/// holds.
pub open spec fn unsigned(digits: Seq<char>) -> Option<usize> {
    if digits.len() > 0 && (forall|k: int| 0 <= k < digits.len() ==> is_digit(#[trigger] digits[k]))
        && value_upto(digits, digits.len()) <= usize::MAX {
        Some(value_upto(digits, digits.len()) as usize)
    } else {
        None
    }
}

/// The number that a field writes: decimal digits with or without a plus
/// sign before them.
pub open spec fn number(field: Seq<char>) -> Option<usize> {
    if field.len() > 0 && field[0] == '+' {
        unsigned(field.subrange(1, field.len() as int))
    } else {
        unsigned(field)
    }
}

/// The edge that a line writes: the numbers of its first two fields. What
/// follows the second field is not read. There is no edge where the line has
/// fewer than two fields or one of the two is not a number.
pub open spec fn edge_of(line: Seq<char>) -> Option<(usize, usize)> {
    let a = field_start(line, 0);
    let b = field_end(line, a);
    let c = field_start(line, b);
    let d = field_end(line, c);
    if a < b && c < d {
        match (number(line.subrange(a, b)), number(line.subrange(c, d))) {
            (Some(source), Some(destination)) => Some((source, destination)),
            _ => None,
        }
    } else {
        None
    }
}

/// Longer runs of digits write larger numbers.
proof fn lemma_value_grows(digits: Seq<char>, a: nat, b: nat)
    requires
        a <= b <= digits.len(),
        forall|k: int| 0 <= k < digits.len() ==> is_digit(#[trigger] digits[k]),
    ensures
        0 <= value_upto(digits, a) <= value_upto(digits, b),
    decreases b,
{
    if a < b {
        lemma_value_grows(digits, a, (b - 1) as nat);
        assert(is_digit(digits[b - 1]));
    } else if b > 0 {
        lemma_value_grows(digits, (a - 1) as nat, (b - 1) as nat);
        assert(is_digit(digits[b - 1]));
    }
}

pub fn is_white_space(c: char) -> (r: bool)
    ensures
        r == is_space(c),
{
    let u = c as u32;
    (0x09 <= u && u <= 0x0D) || u == 0x20 || u == 0x85 || u == 0xA0 || u == 0x1680 || (0x2000 <= u
        && u <= 0x200A) || u == 0x2028 || u == 0x2029 || u == 0x202F || u == 0x205F || u == 0x3000
}

fn skip_spaces(line: &[char], from: usize) -> (i: usize)
    requires
        from <= line.len(),
    ensures
        i == field_start(line@, from as int),
        from <= i <= line.len(),
{
    let mut i = from;
    while i < line.len() && is_white_space(line[i])
        invariant
            from <= i <= line.len(),
            field_start(line@, i as int) == field_start(line@, from as int),
        decreases line.len() - i,
    {
        i += 1;
    }
    i
}

fn skip_field(line: &[char], from: usize) -> (i: usize)
    requires
        from <= line.len(),
    ensures
        i == field_end(line@, from as int),
        from <= i <= line.len(),
{
    let mut i = from;
    while i < line.len() && !is_white_space(line[i])
        invariant
            from <= i <= line.len(),
            field_end(line@, i as int) == field_end(line@, from as int),
        decreases line.len() - i,
    {
        i += 1;
    }
    i
}

/// The number that the field from `from` up to `to` writes.
fn read_number(line: &[char], from: usize, to: usize) -> (r: Option<usize>)
    requires
        from <= to <= line.len(),
    ensures
        r == number(line@.subrange(from as int, to as int)),
{
    let ghost field = line@.subrange(from as int, to as int);
    let mut i = from;
    if i < to && line[i] == '+' {
        assert(field[0] == '+');
        i += 1;
    } else if i < to {
        assert(field[0] == line@[from as int]);
    }
    let start = i;
    let ghost digits = line@.subrange(start as int, to as int);
    assert(digits =~= if field.len() > 0 && field[0] == '+' {
        field.subrange(1, field.len() as int)
    } else {
        field
    });
    assert(number(field) == unsigned(digits));
    if start == to {
        return None;
    }
    let mut value: usize = 0;
    while i < to
        invariant
            start <= i <= to,
            to <= line.len(),
            digits == line@.subrange(start as int, to as int),
            number(line@.subrange(from as int, to as int)) == unsigned(digits),
            forall|k: int| 0 <= k < i - start ==> is_digit(#[trigger] digits[k]),
            value == value_upto(digits, (i - start) as nat),
        decreases to - i,
    {
        let c = line[i];
        assert(c == digits[i - start]);
        if !('0' <= c && c <= '9') {
            assert(!is_digit(digits[i - start]));
            return None;
        }
        let d = (c as u32 - '0' as u32) as usize;
        if value > (usize::MAX - d) / 10 {
            proof {
                assert(value_upto(digits, (i - start + 1) as nat) == value * 10 + d);
                if forall|k: int| 0 <= k < digits.len() ==> is_digit(#[trigger] digits[k]) {
                    lemma_value_grows(digits, (i - start + 1) as nat, digits.len());
                }
            }
            return None;
        }
        value = value * 10 + d;
        i += 1;
    }
    Some(value)
}

/// Reads the edge that a line writes.
pub fn parse_edge(line: &[char]) -> (r: Option<(usize, usize)>)
    ensures
        r == edge_of(line@),
{
    let a = skip_spaces(line, 0);
    let b = skip_field(line, a);
    let c = skip_spaces(line, b);
    let d = skip_field(line, c);
    if a < b && c < d {
        match (read_number(line, a, b), read_number(line, c, d)) {
            (Some(source), Some(destination)) => Some((source, destination)),
            _ => None,
        }
    } else {
        None
    }
}

} // verus!
