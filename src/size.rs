use vstd::prelude::*;

verus! {

/// An output size in cells: columns, then rows.
#[derive(Debug, Clone, Copy, PartialEq, Eq, Structural)]
pub struct Size(pub u32, pub u32);

/// Why a size text was refused.
#[derive(Debug, Clone, Copy, PartialEq, Eq, Structural)]
pub enum SizeError {
    /// The text is not two parts separated by one `x` or `,`.
    Shape,
    /// A part is not a decimal number that fits in `u32`.
    Number,
}

/// The text with leading and trailing white space removed.
pub uninterp spec fn trimmed(s: Seq<char>) -> Seq<char>;

/// Relies on `str::trim`: the slice without leading and trailing white space.
#[verifier::external_body]
fn trim(s: &str) -> (r: &str)
    ensures
        r@ == trimmed(s@),
{
    s.trim()
}

/// The value of a string of decimal digits.
pub open spec fn decimal_value(d: Seq<char>) -> int
    decreases d.len(),
{
    if d.len() == 0 {
        0
    } else {
        decimal_value(d.drop_last()) * 10 + (d.last() as int - '0' as int)
    }
}

/// One or more decimal digits.
pub open spec fn is_digits(d: Seq<char>) -> bool {
    d.len() > 0 && forall|i: int| 0 <= i < d.len() ==> '0' <= #[trigger] d[i] <= '9'
}

/// The `u32` that `s` spells: decimal digits after an optional `+`, of a value
/// that fits.
pub open spec fn parsed_u32(s: Seq<char>) -> Option<u32> {
    let d = if s.len() > 0 && s[0] == '+' {
        s.subrange(1, s.len() as int)
    } else {
        s
    };
    if is_digits(d) && decimal_value(d) <= u32::MAX {
        Some(decimal_value(d) as u32)
    } else {
        None
    }
}

/// Relies on `u32::from_str`: digits after an optional `+`, refused when empty,
/// when another character occurs, or when the value overflows.
#[verifier::external_body]
fn parse_u32(s: &str) -> (r: Option<u32>)
    ensures
        r == parsed_u32(s@),
{
    s.parse::<u32>().ok()
}

/// A separator between the two sides of a size.
pub open spec fn is_separator(c: char) -> bool {
    c == 'x' || c == ','
}

/// The number of separators among the first `n` characters.
pub open spec fn separators_in(s: Seq<char>, n: int) -> nat
    decreases n,
{
    if n <= 0 {
        0
    } else {
        separators_in(s, n - 1) + if is_separator(s[n - 1]) {
            1nat
        } else {
            0nat
        }
    }
}

/// The size that `s` spells: two numbers separated by one `x` or `,`, each part
/// trimmed of white space.
pub open spec fn parsed_size(s: Seq<char>) -> Result<Size, SizeError> {
    if separators_in(s, s.len() as int) != 1 {
        Err(SizeError::Shape)
    } else {
        let k = choose|k: int| 0 <= k < s.len() && is_separator(s[k]);
        let w = parsed_u32(trimmed(s.subrange(0, k)));
        let h = parsed_u32(trimmed(s.subrange(k + 1, s.len() as int)));
        if w is Some && h is Some {
            Ok(Size(w->0, h->0))
        } else {
            Err(SizeError::Number)
        }
    }
}

proof fn lemma_separators_grow(s: Seq<char>, a: int, b: int)
    requires
        0 <= a <= b,
    ensures
        separators_in(s, a) <= separators_in(s, b),
    decreases b - a,
{
    if a < b {
        lemma_separators_grow(s, a, b - 1);
    }
}

impl Size {
    /// Parses `WIDTHxHEIGHT` or `WIDTH,HEIGHT`; see `parsed_size`.
    pub fn from_str(s: &str) -> (r: Result<Size, SizeError>)
        ensures
            r == parsed_size(s@),
    {
        let n = s.unicode_len();
        let mut count: usize = 0;
        let mut at: usize = 0;
        let mut i: usize = 0;
        while i < n
            invariant
                n == s@.len(),
                i <= n,
                count == separators_in(s@, i as int),
                count <= i,
                count >= 1 ==> at < i && is_separator(s@[at as int]) && separators_in(s@, at as int) == 0,
            decreases n - i,
        {
            if is_separator_char(s.get_char(i)) {
                if count == 0 {
                    at = i;
                }
                count += 1;
            }
            i += 1;
        }
        if count != 1 {
            return Err(SizeError::Shape);
        }
        proof {
            let k = choose|k: int| 0 <= k < s@.len() && is_separator(s@[k]);
            assert(k == at) by {
                if k < at {
                    lemma_separators_grow(s@, k + 1, at as int);
                } else if k > at {
                    lemma_separators_grow(s@, at + 1, k);
                    lemma_separators_grow(s@, k + 1, n as int);
                }
            }
        }
        let left = trim(s.substring_char(0, at));
        let right = trim(s.substring_char(at + 1, n));
        match (parse_u32(left), parse_u32(right)) {
            (Some(w), Some(h)) => Ok(Size(w, h)),
            _ => Err(SizeError::Number),
        }
    }
}

fn is_separator_char(c: char) -> (r: bool)
    ensures
        r == is_separator(c),
{
    c == 'x' || c == ','
}

} // verus!
