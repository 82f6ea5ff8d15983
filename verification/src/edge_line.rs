//! Reading one line of an edge list: two decimal node identifiers with a
//! comma between them.

use vstd::prelude::*;
use vstd::slice::slice_subrange;

verus! {

/// The byte `+`.
pub const PLUS: u8 = 43;

/// The byte `,`.
pub const COMMA: u8 = 44;

/// The byte `0`.
pub const ZERO: u8 = 48;

/// The byte `9`.
pub const NINE: u8 = 57;

/// `b` is a decimal digit.
pub open spec fn is_digit(b: u8) -> bool {
    ZERO <= b <= NINE
}

/// Every byte of `s` is a decimal digit.
pub open spec fn all_digits(s: Seq<u8>) -> bool {
    forall|i: int| 0 <= i < s.len() ==> is_digit(#[trigger] s[i])
}

/// The number that the decimal digits `digits` write.
pub open spec fn decimal_value(digits: Seq<u8>) -> nat
    decreases digits.len(),
{
    if digits.len() == 0 {
        0
    } else {
        10 * decimal_value(digits.drop_last()) + (digits.last() - ZERO) as nat
    }
}

/// The field without the one `+` that may lead it.
pub open spec fn unsigned_part(field: Seq<u8>) -> Seq<u8> {
    if field.len() > 0 && field[0] == PLUS {
        field.skip(1)
    } else {
        field
    }
}

/// The identifier that a field writes: one or more decimal digits, after at
/// most one `+`, whose value a `usize` can hold. Any other field writes none.
pub open spec fn field_value(field: Seq<u8>) -> Option<usize> {
    let digits = unsigned_part(field);
    if digits.len() > 0 && all_digits(digits) && decimal_value(digits) <= usize::MAX {
        Some(decimal_value(digits) as usize)
    } else {
        None
    }
}

/// The line has a comma at `c`, with an identifier before it and another after it.
pub open spec fn reads_at(line: Seq<u8>, c: int) -> bool {
    &&& 0 <= c < line.len()
    &&& line[c] == COMMA
    &&& field_value(line.take(c)) is Some
    &&& field_value(line.skip(c + 1)) is Some
}

/// The pair that a line writes: exactly two fields, parted by a comma, each
/// of them an identifier. Any other line writes none.
pub open spec fn edge_of_line(line: Seq<u8>) -> Option<(usize, usize)> {
    if exists|c: int| reads_at(line, c) {
        let c = choose|c: int| reads_at(line, c);
        Some((field_value(line.take(c))->0, field_value(line.skip(c + 1))->0))
    } else {
        None
    }
}

/// The digits read so far never write more than all of them.
pub proof fn lemma_decimal_prefix(digits: Seq<u8>, k: int)
    requires
        0 <= k <= digits.len(),
        all_digits(digits),
    ensures
        decimal_value(digits.take(k)) <= decimal_value(digits),
    decreases digits.len(),
{
    if k == digits.len() {
        assert(digits.take(k) =~= digits);
    } else {
        let rest = digits.drop_last();
        assert(all_digits(rest)) by {
            assert forall|i: int| 0 <= i < rest.len() implies is_digit(#[trigger] rest[i]) by {
                assert(rest[i] == digits[i]);
            }
        }
        lemma_decimal_prefix(rest, k);
        assert(rest.take(k) =~= digits.take(k));
        assert(is_digit(digits[digits.len() - 1]));
    }
}

/// A field that holds a comma writes no identifier.
pub proof fn lemma_comma_in_field(field: Seq<u8>, j: int)
    requires
        0 <= j < field.len(),
        field[j] == COMMA,
    ensures
        field_value(field) is None,
{
    let digits = unsigned_part(field);
    if field[0] == PLUS {
        assert(digits[j - 1] == field[j]);
        assert(!is_digit(digits[j - 1]));
    } else {
        assert(!is_digit(digits[j]));
    }
}

/// At most one comma of a line has an identifier on either side.
pub proof fn lemma_one_comma(line: Seq<u8>, c: int, d: int)
    requires
        reads_at(line, c),
        reads_at(line, d),
    ensures
        c == d,
{
    if c < d {
        assert(line.take(d)[c] == line[c]);
        lemma_comma_in_field(line.take(d), c);
    }
    if d < c {
        assert(line.take(c)[d] == line[d]);
        lemma_comma_in_field(line.take(c), d);
    }
}

/// The identifier that `field` writes, if it writes one.
pub fn parse_id(field: &[u8]) -> (id: Option<usize>)
    ensures
        id == field_value(field@),
{
    let len: usize = field.len();
    let first: usize = if len > 0 && field[0] == PLUS {
        1
    } else {
        0
    };
    let ghost digits = unsigned_part(field@);
    proof {
        assert(digits =~= field@.skip(first as int));
    }
    if first == len {
        return None;
    }
    let mut value: usize = 0;
    for i in first..len
        invariant
            first <= len == field@.len(),
            digits == field@.skip(first as int),
            digits == unsigned_part(field@),
            all_digits(digits.take(i - first)),
            value == decimal_value(digits.take(i - first)),
    {
        let b: u8 = field[i];
        let ghost seen = digits.take(i - first);
        let ghost more = digits.take(i - first + 1);
        proof {
            assert(more.drop_last() =~= seen);
            assert(more.last() == b);
            assert(digits[i - first] == b);
        }
        if b < ZERO || b > NINE {
            proof {
                assert(!is_digit(digits[i - first]));
            }
            return None;
        }
        let digit: usize = (b - ZERO) as usize;
        proof {
            assert(all_digits(more)) by {
                assert forall|j: int| 0 <= j < more.len() implies is_digit(#[trigger] more[j]) by {
                    if j < seen.len() {
                        assert(seen[j] == more[j]);
                    }
                }
            }
        }
        proof {
            assert(decimal_value(more) == 10 * value + digit);
        }
        if value > (usize::MAX - digit) / 10 {
            proof {
                if all_digits(digits) {
                    lemma_decimal_prefix(digits, i - first + 1);
                }
            }
            return None;
        }
        value = value * 10 + digit;
    }
    proof {
        assert(digits.take(len - first) =~= digits);
    }
    Some(value)
}

/// The pair of identifiers that `line` writes, if it writes one.
pub fn parse_edge_line(line: &[u8]) -> (edge: Option<(usize, usize)>)
    ensures
        edge == edge_of_line(line@),
{
    let len: usize = line.len();
    let mut comma: usize = 0;
    while comma < len && line[comma] != COMMA
        invariant
            comma <= len == line@.len(),
            forall|j: int| 0 <= j < comma ==> line@[j] != COMMA,
        decreases len - comma,
    {
        comma = comma + 1;
    }
    if comma == len {
        return None;
    }
    let left = parse_id(slice_subrange(line, 0, comma));
    let right = parse_id(slice_subrange(line, comma + 1, len));
    proof {
        assert(line@.subrange(0, comma as int) =~= line@.take(comma as int));
        assert(line@.subrange(comma + 1, len as int) =~= line@.skip(comma + 1));
        assert forall|c: int| reads_at(line@, c) implies c == comma by {
            if comma < c {
                assert(line@.take(c)[comma as int] == COMMA);
                lemma_comma_in_field(line@.take(c), comma as int);
            }
        }
    }
    match (left, right) {
        (Some(u), Some(v)) => {
            proof {
                assert(reads_at(line@, comma as int));
                lemma_one_comma(line@, comma as int, choose|c: int| reads_at(line@, c));
            }
            Some((u, v))
        },
        _ => None,
    }
}

/// Takes one line of an edge list in: the pair that it writes joins the
/// sources and the targets read so far; a line that writes none is passed
/// over.
pub fn record_edge_line(nodes: &mut Vec<usize>, edges: &mut Vec<usize>, line: &[u8])
    ensures
        edge_of_line(line@) matches Some(pair) ==> {
            &&& final(nodes)@ == old(nodes)@.push(pair.0)
            &&& final(edges)@ == old(edges)@.push(pair.1)
        },
        edge_of_line(line@) is None ==> final(nodes)@ == old(nodes)@ && final(edges)@ == old(edges)@,
{
    match parse_edge_line(line) {
        Some((node, edge)) => {
            nodes.push(node);
            edges.push(edge);
        },
        None => {},
    }
}

} // verus!
