use vstd::prelude::*;
use vstd::string::StringSliceAdditionalSpecFns;

verus! {

pub const OPEN_PAREN: u8 = 40;

pub const CLOSE_PAREN: u8 = 41;

pub const COMMA: u8 = 44;

pub const PLUS: u8 = 43;

pub const DIGIT_ZERO: u8 = 48;

pub const DIGIT_NINE: u8 = 57;

/// Why an edge literal was refused.
#[derive(Debug, Clone, Copy, PartialEq, Eq)]
pub enum EdgeError {
    /// A parenthesis or the comma is missing, or they are out of order.
    Malformed,
    /// A field is not a non-negative integer that fits in `usize`.
    BadNumber,
}

impl EdgeError {
    /// A message that describes the error.
    pub fn message(&self) -> (r: String)
        ensures
            *self is Malformed ==> r@ == "Malformed edge"@,
            *self is BadNumber ==> r@ == "invalid digit or number too large"@,
    {
        match self {
            EdgeError::Malformed => String::from_str("Malformed edge"),
            EdgeError::BadNumber => String::from_str("invalid digit or number too large"),
        }
    }
}

/// The index of the first `c` in `s` at or after `i`, or `s.len()` if none.
pub open spec fn first_from(s: Seq<u8>, c: u8, i: int) -> int
    decreases s.len() - i,
{
    if i >= s.len() {
        s.len() as int
    } else if s[i] == c {
        i
    } else {
        first_from(s, c, i + 1)
    }
}

/// The index of the first `c` in `s`, or `s.len()` if none.
pub open spec fn first_index(s: Seq<u8>, c: u8) -> int {
    first_from(s, c, 0)
}

pub open spec fn is_digit(b: u8) -> bool {
    DIGIT_ZERO <= b <= DIGIT_NINE
}

/// The value of a string of decimal digits.
pub open spec fn digits_value(s: Seq<u8>) -> int
    decreases s.len(),
{
    if s.len() == 0 {
        0
    } else {
        digits_value(s.drop_last()) * 10 + (s.last() - DIGIT_ZERO)
    }
}

/// The digits of a number field: the field without one leading `+`.
pub open spec fn number_digits(s: Seq<u8>) -> Seq<u8> {
    if s.len() > 0 && s[0] == PLUS {
        s.drop_first()
    } else {
        s
    }
}

/// The value of a number field: one or more decimal digits after an optional
/// `+`, of a value that fits in `usize`.
pub open spec fn number_value(s: Seq<u8>) -> Option<usize> {
    let d = number_digits(s);
    if d.len() > 0 && (forall|i: int| 0 <= i < d.len() ==> is_digit(#[trigger] d[i]))
        && digits_value(d) <= usize::MAX {
        Some(digits_value(d) as usize)
    } else {
        None
    }
}

/// The edge that the literal `(<a>,<b>)` stands for, read between the first
/// `(`, the first `,` and the first `)`.
pub open spec fn edge_literal(s: Seq<u8>) -> Result<(usize, usize), EdgeError> {
    let open = first_index(s, OPEN_PAREN);
    let close = first_index(s, CLOSE_PAREN);
    let comma = first_index(s, COMMA);
    if open == s.len() || close == s.len() || comma == s.len() || comma < open + 1 || close < comma
        + 1 {
        Err(EdgeError::Malformed)
    } else {
        match (
            number_value(s.subrange(open + 1, comma)),
            number_value(s.subrange(comma + 1, close)),
        ) {
            (Some(a), Some(b)) => Ok((a, b)),
            _ => Err(EdgeError::BadNumber),
        }
    }
}

proof fn lemma_first_from_bound(s: Seq<u8>, c: u8, i: int)
    requires
        0 <= i,
    ensures
        first_from(s, c, i) <= s.len(),
    decreases s.len() - i,
{
    if i < s.len() && s[i] != c {
        lemma_first_from_bound(s, c, i + 1);
    }
}

fn find_byte(s: &[u8], c: u8) -> (r: usize)
    ensures
        r == first_index(s@, c),
        r <= s.len(),
{
    let mut i: usize = 0;
    proof {
        lemma_first_from_bound(s@, c, 0);
    }
    while i < s.len() && s[i] != c
        invariant
            0 <= i <= s.len(),
            first_from(s@, c, i as int) == first_index(s@, c),
            first_from(s@, c, i as int) <= s.len(),
        decreases s.len() - i,
    {
        i = i + 1;
    }
    i
}

proof fn lemma_digits_value_grows(s: Seq<u8>, j: int, i: int)
    requires
        0 <= j <= i <= s.len(),
        forall|k: int| 0 <= k < s.len() ==> is_digit(#[trigger] s[k]),
    ensures
        0 <= digits_value(s.subrange(0, j)) <= digits_value(s.subrange(0, i)),
    decreases i - j,
{
    if j < i {
        lemma_digits_value_grows(s, j, i - 1);
        assert(s.subrange(0, i).drop_last() =~= s.subrange(0, i - 1));
    } else {
        lemma_digits_value_nonneg(s.subrange(0, i));
    }
}

proof fn lemma_digits_value_nonneg(s: Seq<u8>)
    requires
        forall|k: int| 0 <= k < s.len() ==> is_digit(#[trigger] s[k]),
    ensures
        digits_value(s) >= 0,
    decreases s.len(),
{
    if s.len() > 0 {
        lemma_digits_value_nonneg(s.drop_last());
    }
}

/// Reads the number field `s[from..to]`.
fn parse_number(s: &[u8], from: usize, to: usize) -> (r: Option<usize>)
    requires
        from <= to <= s.len(),
    ensures
        r == number_value(s@.subrange(from as int, to as int)),
{
    let ghost f = s@.subrange(from as int, to as int);
    let mut start = from;
    if from < to && s[from] == PLUS {
        start = from + 1;
    }
    let ghost d = s@.subrange(start as int, to as int);
    assert(d =~= number_digits(f));
    if start == to {
        return None;
    }
    let mut i: usize = start;
    while i < to
        invariant
            start <= i <= to <= s.len(),
            d == s@.subrange(start as int, to as int),
            d == number_digits(f),
            f == s@.subrange(from as int, to as int),
            forall|k: int| 0 <= k < i - start ==> is_digit(#[trigger] d[k]),
        decreases to - i,
    {
        if s[i] < DIGIT_ZERO || s[i] > DIGIT_NINE {
            assert(!is_digit(d[i - start]));
            return None;
        }
        i = i + 1;
    }
    let mut acc: usize = 0;
    let mut i: usize = start;
    while i < to
        invariant
            start <= i <= to <= s.len(),
            d == s@.subrange(start as int, to as int),
            d == number_digits(f),
            f == s@.subrange(from as int, to as int),
            forall|k: int| 0 <= k < d.len() ==> is_digit(#[trigger] d[k]),
            acc == digits_value(d.subrange(0, i - start)),
        decreases to - i,
    {
        proof {
            assert(d[i - start] == s@[i as int]);
            assert(is_digit(d[i - start]));
        }
        let digit = (s[i] - DIGIT_ZERO) as usize;
        proof {
            assert(d.subrange(0, i - start + 1).drop_last() =~= d.subrange(0, i - start));
            assert(d.subrange(0, i - start + 1).last() == d[i - start]);
            lemma_digits_value_grows(d, i - start + 1, d.len() as int);
            assert(d.subrange(0, d.len() as int) =~= d);
        }
        match acc.checked_mul(10) {
            Some(t) => match t.checked_add(digit) {
                Some(v) => {
                    acc = v;
                },
                None => {
                    return None;
                },
            },
            None => {
                proof {
                    lemma_digits_value_nonneg(d.subrange(0, i - start));
                }
                return None;
            },
        }
        i = i + 1;
    }
    proof {
        assert(d.subrange(0, d.len() as int) =~= d);
    }
    Some(acc)
}

/// Reads an edge literal `(<a>,<b>)`.
pub fn parse_edge(s: &str) -> (r: Result<(usize, usize), EdgeError>)
    ensures
        r == edge_literal(s.spec_bytes()),
{
    let b = s.as_bytes();
    let open = find_byte(b, OPEN_PAREN);
    let close = find_byte(b, CLOSE_PAREN);
    let comma = find_byte(b, COMMA);
    if open == b.len() || close == b.len() || comma == b.len() || comma < open + 1 || close < comma
        + 1 {
        return Err(EdgeError::Malformed);
    }
    let first = parse_number(b, open + 1, comma);
    let second = parse_number(b, comma + 1, close);
    match (first, second) {
        (Some(x), Some(y)) => Ok((x, y)),
        _ => Err(EdgeError::BadNumber),
    }
}

} // verus!
