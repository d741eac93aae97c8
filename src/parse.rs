use vstd::prelude::*;
use vstd::string::StringSliceAdditionalSpecFns;

use crate::cell::Cell;

verus! {

/// Why a text could not be read as a cell.
#[derive(Debug, Clone, Copy, PartialEq, Eq, Structural)]
pub enum ParseCellError {
    /// No comma separates the two coordinates.
    MissingComma,
    /// A coordinate is not a decimal number that fits in a `u32`.
    InvalidNumber,
}

pub open spec fn is_paren(b: u8) -> bool {
    b == 0x28 || b == 0x29
}

pub open spec fn is_digit(b: u8) -> bool {
    0x30 <= b <= 0x39
}

/// `s` without its leading parentheses.
pub open spec fn trim_front(s: Seq<u8>) -> Seq<u8>
    decreases s.len(),
{
    if s.len() > 0 && is_paren(s[0]) {
        trim_front(s.drop_first())
    } else {
        s
    }
}

/// `s` without its trailing parentheses.
pub open spec fn trim_back(s: Seq<u8>) -> Seq<u8>
    decreases s.len(),
{
    if s.len() > 0 && is_paren(s.last()) {
        trim_back(s.drop_last())
    } else {
        s
    }
}

/// `s` with every parenthesis removed from both ends.
pub open spec fn trim_parens(s: Seq<u8>) -> Seq<u8> {
    trim_back(trim_front(s))
}

/// Value of a string of decimal digits, most significant first.
pub open spec fn digits_value(s: Seq<u8>) -> nat
    decreases s.len(),
{
    if s.len() == 0 {
        0
    } else {
        digits_value(s.drop_last()) * 10 + (s.last() - 0x30) as nat
    }
}

/// The digits of a number written with an optional leading `+`.
pub open spec fn unsigned_digits(s: Seq<u8>) -> Seq<u8> {
    if s.len() > 0 && s[0] == 0x2b {
        s.drop_first()
    } else {
        s
    }
}

/// A `u32` written in decimal: an optional `+`, then at least one digit,
/// with a value that fits.
pub open spec fn parse_u32_spec(s: Seq<u8>) -> Option<u32> {
    let d = unsigned_digits(s);
    if d.len() > 0 && (forall|i: int| 0 <= i < d.len() ==> is_digit(#[trigger] d[i])) && digits_value(d)
        <= u32::MAX {
        Some(digits_value(d) as u32)
    } else {
        None
    }
}

/// `i` is the position of the first comma of `t`.
pub open spec fn is_first_comma(t: Seq<u8>, i: int) -> bool {
    &&& 0 <= i < t.len()
    &&& t[i] == 0x2c
    &&& forall|j: int| 0 <= j < i ==> #[trigger] t[j] != 0x2c
}

/// A cell written `(x,y)`: parentheses at both ends are dropped, the text is
/// split at its first comma, and each side is read as a `u32`.
pub open spec fn parse_cell_spec(s: Seq<u8>) -> Result<Cell, ParseCellError> {
    let t = trim_parens(s);
    if exists|i: int| is_first_comma(t, i) {
        let i = choose|i: int| is_first_comma(t, i);
        match (parse_u32_spec(t.subrange(0, i)), parse_u32_spec(t.subrange(i + 1, t.len() as int))) {
            (Some(x), Some(y)) => Ok(Cell { x, y }),
            _ => Err(ParseCellError::InvalidNumber),
        }
    } else {
        Err(ParseCellError::MissingComma)
    }
}

proof fn lemma_digits_value_prefix(d: Seq<u8>, k: int)
    requires
        0 <= k <= d.len(),
        forall|i: int| 0 <= i < d.len() ==> is_digit(#[trigger] d[i]),
    ensures
        digits_value(d.subrange(0, k)) <= digits_value(d),
    decreases d.len(),
{
    if k < d.len() {
        let e = d.drop_last();
        assert(forall|i: int| 0 <= i < e.len() ==> e[i] == d[i]);
        lemma_digits_value_prefix(e, k);
        assert(e.subrange(0, k) =~= d.subrange(0, k));
    } else {
        assert(d.subrange(0, k) =~= d);
    }
}

/// Reads the bytes of `s` from `a` up to `b` as a decimal `u32`.
fn parse_u32_range(s: &[u8], a: usize, b: usize) -> (r: Option<u32>)
    requires
        a <= b <= s@.len(),
    ensures
        r == parse_u32_spec(s@.subrange(a as int, b as int)),
{
    let ghost whole = s@.subrange(a as int, b as int);
    let mut start: usize = a;
    if a < b && s[a] == 0x2b {
        start = a + 1;
    }
    let ghost d = s@.subrange(start as int, b as int);
    assert(d =~= unsigned_digits(whole));
    if start == b {
        return None;
    }
    let mut acc: u64 = 0;
    let mut k: usize = start;
    while k < b
        invariant
            a <= start <= k <= b <= s@.len(),
            d == s@.subrange(start as int, b as int),
            d == unsigned_digits(s@.subrange(a as int, b as int)),
            acc as int == digits_value(s@.subrange(start as int, k as int)),
            acc <= u32::MAX,
            forall|i: int| start <= i < k ==> is_digit(#[trigger] s@[i]),
        decreases b - k,
    {
        let byte = s[k];
        if byte < 0x30 || byte > 0x39 {
            proof {
                assert(!is_digit(d[k - start]));
            }
            return None;
        }
        proof {
            let p = s@.subrange(start as int, k + 1);
            assert(p.drop_last() =~= s@.subrange(start as int, k as int));
            assert(p.last() == byte);
        }
        acc = acc * 10 + (byte - 0x30) as u64;
        if acc > u32::MAX as u64 {
            proof {
                if forall|i: int| 0 <= i < d.len() ==> is_digit(#[trigger] d[i]) {
                    lemma_digits_value_prefix(d, k + 1 - start);
                    assert(d.subrange(0, k + 1 - start) =~= s@.subrange(start as int, k + 1));
                }
            }
            return None;
        }
        k = k + 1;
    }
    proof {
        assert(s@.subrange(start as int, k as int) =~= d);
        assert forall|i: int| 0 <= i < d.len() implies is_digit(#[trigger] d[i]) by {
            assert(d[i] == s@[start + i]);
        }
    }
    Some(acc as u32)
}

/// Reads a decimal `u32`: an optional `+`, then at least one digit.
pub fn parse_u32(s: &[u8]) -> (r: Option<u32>)
    ensures
        r == parse_u32_spec(s@),
{
    proof {
        assert(s@.subrange(0, s@.len() as int) =~= s@);
    }
    parse_u32_range(s, 0, s.len())
}

proof fn lemma_first_comma_unique(t: Seq<u8>, i: int, j: int)
    requires
        is_first_comma(t, i),
        is_first_comma(t, j),
    ensures
        i == j,
{
    if i < j {
        assert(t[i] != 0x2c);
    } else if j < i {
        assert(t[j] != 0x2c);
    }
}

/// Reads a cell written `(x,y)`. Parentheses at either end are optional;
/// the text is split at its first comma.
pub fn parse_cell(s: &[u8]) -> (r: Result<Cell, ParseCellError>)
    ensures
        r == parse_cell_spec(s@),
{
    let n = s.len();
    let mut lo: usize = 0;
    assert(s@.subrange(0, n as int) =~= s@);
    while lo < n && (s[lo] == 0x28 || s[lo] == 0x29)
        invariant
            lo <= n == s@.len(),
            trim_front(s@) == trim_front(s@.subrange(lo as int, n as int)),
        decreases n - lo,
    {
        proof {
            assert(s@.subrange(lo as int, n as int).drop_first() =~= s@.subrange(lo + 1, n as int));
        }
        lo = lo + 1;
    }
    let ghost front = s@.subrange(lo as int, n as int);
    assert(trim_front(front) == front);
    let mut hi: usize = n;
    while hi > lo && (s[hi - 1] == 0x28 || s[hi - 1] == 0x29)
        invariant
            lo <= hi <= n == s@.len(),
            trim_front(s@) == front,
            front == s@.subrange(lo as int, n as int),
            trim_back(front) == trim_back(s@.subrange(lo as int, hi as int)),
        decreases hi - lo,
    {
        proof {
            assert(s@.subrange(lo as int, hi as int).drop_last() =~= s@.subrange(lo as int, hi - 1));
        }
        hi = hi - 1;
    }
    let ghost t = s@.subrange(lo as int, hi as int);
    assert(trim_parens(s@) == t);
    let mut i: usize = lo;
    while i < hi && s[i] != 0x2c
        invariant
            lo <= i <= hi <= n == s@.len(),
            t == s@.subrange(lo as int, hi as int),
            forall|j: int| lo <= j < i ==> #[trigger] s@[j] != 0x2c,
        decreases hi - i,
    {
        i = i + 1;
    }
    if i == hi {
        proof {
            assert forall|c: int| !is_first_comma(t, c) by {
                if 0 <= c < t.len() {
                    assert(t[c] == s@[lo + c]);
                }
            }
        }
        return Err(ParseCellError::MissingComma);
    }
    proof {
        let c = i - lo;
        assert(is_first_comma(t, c)) by {
            assert forall|j: int| 0 <= j < c implies #[trigger] t[j] != 0x2c by {
                assert(t[j] == s@[lo + j]);
            }
        }
        lemma_first_comma_unique(t, c, choose|k: int| is_first_comma(t, k));
        assert(t.subrange(0, c) =~= s@.subrange(lo as int, i as int));
        assert(t.subrange(c + 1, t.len() as int) =~= s@.subrange(i + 1, hi as int));
    }
    let x = parse_u32_range(s, lo, i);
    let y = parse_u32_range(s, i + 1, hi);
    match (x, y) {
        (Some(x), Some(y)) => Ok(Cell::new(x, y)),
        _ => Err(ParseCellError::InvalidNumber),
    }
}

impl std::str::FromStr for Cell {
    type Err = ParseCellError;

    /// Reads a cell written `(x,y)`, as `parse_cell` does on the text's bytes.
    fn from_str(s: &str) -> (r: Result<Cell, ParseCellError>)
        ensures
            r == parse_cell_spec(s.spec_bytes()),
    {
        parse_cell(s.as_bytes())
    }
}

} // verus!
