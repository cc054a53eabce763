//! Reading one line of an edge list: two numbers separated by white space
//! name an edge; a line that starts with `#`, and any line that does not hold
//! exactly two fields, is passed over.

use vstd::prelude::*;

verus! {

broadcast use vstd::string::group_string_axioms;

/// What a line of an edge list holds.
#[derive(Clone, Copy, Debug, PartialEq, Eq, Structural)]
pub enum Line {
    /// A comment, a blank line, or a line without exactly two fields.
    Skipped,
    /// An edge from the node of the first label to the node of the second.
    Edge(u32, u32),
    /// Two fields, one of which is not a number that fits in 32 bits.
    Malformed,
}

/// `c` has the Unicode property `White_Space`.
pub open spec fn is_space(c: char) -> bool {
    let x = c as u32;
    ||| 0x09 <= x <= 0x0D
    ||| x == 0x20
    ||| x == 0x85
    ||| x == 0xA0
    ||| x == 0x1680
    ||| 0x2000 <= x <= 0x200A
    ||| x == 0x2028
    ||| x == 0x2029
    ||| x == 0x202F
    ||| x == 0x205F
    ||| x == 0x3000
}

/// `c` is one of the digits `0` to `9`.
pub open spec fn is_digit(c: char) -> bool {
    0x30 <= c as u32 <= 0x39
}

/// The fields of `text`: its longest runs of characters that are not white
/// space, in order.
pub open spec fn fields(text: Seq<char>) -> Seq<Seq<char>>
    decreases text.len(),
{
    if text.len() == 0 {
        Seq::empty()
    } else {
        let before = fields(text.drop_last());
        if is_space(text.last()) {
            before
        } else if text.len() >= 2 && !is_space(text[text.len() - 2]) {
            before.drop_last().push(before.last().push(text.last()))
        } else {
            before.push(seq![text.last()])
        }
    }
}

/// The number that the digits `digits` write in base ten.
pub open spec fn decimal(digits: Seq<char>) -> nat
    decreases digits.len(),
{
    if digits.len() == 0 {
        0
    } else {
        10 * decimal(digits.drop_last()) + (digits.last() as u32 - 0x30) as nat
    }
}

/// The digits of a field: the field without a leading `+`.
pub open spec fn unsigned(field: Seq<char>) -> Seq<char> {
    if field.len() > 0 && field[0] == '+' {
        field.drop_first()
    } else {
        field
    }
}

/// The number that `field` writes: one or more digits, with or without a `+`
/// in front, whose value fits in 32 bits.
pub open spec fn number(field: Seq<char>) -> Option<u32> {
    let digits = unsigned(field);
    if digits.len() > 0 && (forall|i: int| 0 <= i < digits.len() ==> is_digit(#[trigger] digits[i]))
        && decimal(digits) <= u32::MAX {
        Some(decimal(digits) as u32)
    } else {
        None
    }
}

/// What the line `text` holds.
pub open spec fn line_of(text: Seq<char>) -> Line {
    let parts = fields(text);
    if text.len() > 0 && text[0] == '#' {
        Line::Skipped
    } else if parts.len() != 2 {
        Line::Skipped
    } else {
        match (number(parts[0]), number(parts[1])) {
            (Some(from), Some(to)) => Line::Edge(from, to),
            _ => Line::Malformed,
        }
    }
}

fn space(c: char) -> (b: bool)
    ensures
        b == is_space(c),
{
    let x = c as u32;
    (0x09 <= x && x <= 0x0D) || x == 0x20 || x == 0x85 || x == 0xA0 || x == 0x1680 || (0x2000 <= x
        && x <= 0x200A) || x == 0x2028 || x == 0x2029 || x == 0x202F || x == 0x205F || x == 0x3000
}

/// The characters of `line`.
fn chars_of(line: &str) -> (chars: Vec<char>)
    ensures
        chars@ == line@,
{
    let mut chars: Vec<char> = Vec::new();
    for c in it: line.chars()
        invariant
            it.seq() == line@,
            chars@ == it.seq().take(it.index()),
    {
        chars.push(c);
    }
    chars
}

/// Splits `text` into its fields.
fn split(text: &Vec<char>) -> (parts: Vec<Vec<char>>)
    ensures
        parts@.len() == fields(text@).len(),
        forall|k: int| 0 <= k < parts@.len() ==> (#[trigger] parts@[k])@ == fields(text@)[k],
{
    let mut parts: Vec<Vec<char>> = Vec::new();
    let mut i: usize = 0;
    proof {
        assert(text@.take(0) =~= Seq::<char>::empty());
    }
    while i < text.len()
        invariant
            i <= text.len(),
            parts@.len() == fields(text@.take(i as int)).len(),
            forall|k: int|
                0 <= k < parts@.len() ==> (#[trigger] parts@[k])@ == fields(text@.take(i as int))[k],
            i > 0 && !is_space(text@[i - 1]) ==> parts@.len() > 0,
        decreases text.len() - i,
    {
        let c = text[i];
        proof {
            assert(text@.take(i + 1).drop_last() =~= text@.take(i as int));
        }
        if space(c) {
        } else if i > 0 && !space(text[i - 1]) {
            let last = parts.len() - 1;
            parts[last].push(c);
        } else {
            let mut part: Vec<char> = Vec::new();
            part.push(c);
            parts.push(part);
        }
        i += 1;
    }
    proof {
        assert(text@.take(i as int) =~= text@);
    }
    parts
}

/// A longer run of digits writes a number that is no smaller.
proof fn lemma_decimal_grows(digits: Seq<char>, upto: int)
    requires
        0 <= upto <= digits.len(),
        forall|i: int| 0 <= i < digits.len() ==> is_digit(#[trigger] digits[i]),
    ensures
        decimal(digits.take(upto)) <= decimal(digits),
    decreases digits.len() - upto,
{
    if upto < digits.len() {
        lemma_decimal_grows(digits, upto + 1);
        assert(digits.take(upto + 1).drop_last() =~= digits.take(upto));
    } else {
        assert(digits.take(upto) =~= digits);
    }
}

/// Reads the number that `field` writes.
fn parse_number(field: &Vec<char>) -> (value: Option<u32>)
    ensures
        value == number(field@),
{
    let start: usize = if field.len() > 0 && field[0] == '+' {
        1
    } else {
        0
    };
    let ghost digits = unsigned(field@);
    proof {
        assert(digits =~= field@.skip(start as int));
    }
    if start == field.len() {
        return None;
    }
    let mut total: u64 = 0;
    let mut i: usize = start;
    proof {
        assert(digits.take(0) =~= Seq::<char>::empty());
    }
    while i < field.len()
        invariant
            start <= i <= field.len(),
            start < field.len(),
            digits == field@.skip(start as int),
            digits == unsigned(field@),
            forall|k: int| 0 <= k < i - start ==> is_digit(#[trigger] digits[k]),
            total == decimal(digits.take(i - start)),
            total <= u32::MAX,
        decreases field.len() - i,
    {
        let x = field[i] as u32;
        proof {
            assert(digits[i - start] == field@[i as int]);
            assert(digits.take(i - start + 1).drop_last() =~= digits.take(i - start));
        }
        if x < 0x30 || x > 0x39 {
            return None;
        }
        total = total * 10 + (x - 0x30) as u64;
        if total > 0xFFFF_FFFF {
            proof {
                if forall|k: int| 0 <= k < digits.len() ==> is_digit(#[trigger] digits[k]) {
                    lemma_decimal_grows(digits, i - start + 1);
                }
            }
            return None;
        }
        i += 1;
    }
    proof {
        assert(digits.take(i - start) =~= digits);
    }
    Some(total as u32)
}

/// Reads one line of an edge list.
pub fn parse_line(line: &str) -> (found: Line)
    ensures
        found == line_of(line@),
{
    let text = chars_of(line);
    if text.len() > 0 && text[0] == '#' {
        return Line::Skipped;
    }
    let parts = split(&text);
    if parts.len() != 2 {
        return Line::Skipped;
    }
    match (parse_number(&parts[0]), parse_number(&parts[1])) {
        (Some(from), Some(to)) => Line::Edge(from, to),
        _ => Line::Malformed,
    }
}

} // verus!
