//! The operator's textual grant specs: `name:action` tool entries,
//! `tool:max:window_secs` rate entries, and the grant version an edit gets.

use vstd::prelude::*;
use vstd::string::*;

verus! {

/// The byte of `:`.
pub const COLON: u8 = 0x3a;

/// Whether no byte of `b` is a colon.
pub open spec fn colon_free(b: Seq<u8>) -> bool {
    forall|i: int| 0 <= i < b.len() ==> b[i] != COLON
}

/// Whether `j` is the position of the first colon of `b`.
pub open spec fn is_first_colon(b: Seq<u8>, j: int) -> bool {
    0 <= j < b.len() && b[j] == COLON && colon_free(b.subrange(0, j))
}

/// The bytes before the first colon of `b`.
pub open spec fn before_colon(b: Seq<u8>) -> Seq<u8> {
    b.subrange(0, choose|j: int| is_first_colon(b, j))
}

/// The bytes after the first colon of `b`.
pub open spec fn after_colon(b: Seq<u8>) -> Seq<u8> {
    b.subrange((choose|j: int| is_first_colon(b, j)) + 1, b.len() as int)
}

/// The value of a run of decimal digits.
pub open spec fn decimal_value(d: Seq<u8>) -> int
    decreases d.len(),
{
    if d.len() == 0 {
        0
    } else {
        decimal_value(d.drop_last()) * 10 + (d.last() - 48)
    }
}

/// Whether every byte of `d` is an ASCII digit.
pub open spec fn all_digits(d: Seq<u8>) -> bool {
    forall|i: int| 0 <= i < d.len() ==> 48 <= #[trigger] d[i] <= 57
}

/// The unsigned integer a text denotes in the form integer parsing accepts —
/// an optional `+` then one or more digits — when it is at most `max`.
pub open spec fn parsed_unsigned(b: Seq<u8>, max: int) -> Option<int> {
    let body = if b.len() > 0 && b[0] == 43 { b.drop_first() } else { b };
    if body.len() > 0 && all_digits(body) && decimal_value(body) <= max {
        Some(decimal_value(body))
    } else {
        None
    }
}

/// A run of digits is worth at least its prefixes.
proof fn lemma_decimal_prefix(d: Seq<u8>, i: int)
    requires
        all_digits(d),
        0 <= i <= d.len(),
    ensures
        0 <= decimal_value(d.take(i)) <= decimal_value(d),
    decreases d.len(),
{
    if d.len() > 0 {
        if i == d.len() {
            assert(d.take(i) =~= d);
            lemma_decimal_prefix(d.drop_last(), d.len() - 1);
            assert(d.drop_last().take(d.len() - 1) =~= d.drop_last());
        } else {
            lemma_decimal_prefix(d.drop_last(), i);
            assert(d.drop_last().take(i) =~= d.take(i));
            lemma_decimal_prefix(d.drop_last(), d.len() - 1);
            assert(d.drop_last().take(d.len() - 1) =~= d.drop_last());
        }
    }
}

/// Parse `text` as a `u64` the way integer parsing does: an optional `+`
/// then one or more ASCII digits, within range.
pub fn parse_u64(text: &str) -> (r: Option<u64>)
    ensures
        match parsed_unsigned(text.spec_bytes(), u64::MAX as int) {
            Some(v) => r == Some(v as u64),
            None => r == None::<u64>,
        },
        r matches Some(x) ==> parsed_unsigned(text.spec_bytes(), u64::MAX as int) == Some(x as int),
{
    let b = text.as_bytes();
    let ghost bv = b@;
    let start: usize = if b.len() > 0 && b[0] == 43 { 1 } else { 0 };
    let ghost body = if bv.len() > 0 && bv[0] == 43 { bv.drop_first() } else { bv };
    proof {
        assert(body =~= bv.subrange(start as int, bv.len() as int));
    }
    if start == b.len() {
        return None;
    }
    let mut k: usize = start;
    while k < b.len()
        invariant
            bv == b@,
            bv == text.spec_bytes(),
            body == bv.subrange(start as int, bv.len() as int),
            body == (if bv.len() > 0 && bv[0] == 43 { bv.drop_first() } else { bv }),
            start <= k <= b@.len(),
            forall|i: int| start <= i < k ==> 48 <= #[trigger] b@[i] <= 57,
        decreases b@.len() - k,
    {
        if b[k] < 48 || b[k] > 57 {
            proof {
                assert(body[k - start] == b@[k as int]);
            }
            return None;
        }
        k = k + 1;
    }
    proof {
        assert forall|i: int| 0 <= i < body.len() implies 48 <= #[trigger] body[i] <= 57 by {
            assert(body[i] == b@[i + start]);
        }
    }
    let mut value: u64 = 0;
    let mut i: usize = start;
    while i < b.len()
        invariant
            bv == b@,
            bv == text.spec_bytes(),
            body == bv.subrange(start as int, bv.len() as int),
            body == (if bv.len() > 0 && bv[0] == 43 { bv.drop_first() } else { bv }),
            body.len() > 0,
            all_digits(body),
            start <= i <= b@.len(),
            value as int == decimal_value(body.take(i - start)),
        decreases b@.len() - i,
    {
        proof {
            assert(body.take(i + 1 - start).drop_last() =~= body.take(i - start));
            assert(body.take(i + 1 - start).last() == b@[i as int]);
            assert(body[i - start] == b@[i as int]);
        }
        let digit = (b[i] - 48) as u64;
        match value.checked_mul(10) {
            Some(tens) => match tens.checked_add(digit) {
                Some(next) => {
                    value = next;
                },
                None => {
                    proof {
                        lemma_decimal_prefix(body, i + 1 - start);
                    }
                    return None;
                },
            },
            None => {
                proof {
                    lemma_decimal_prefix(body, i + 1 - start);
                }
                return None;
            },
        }
        i = i + 1;
    }
    proof {
        assert(body.take(b@.len() - start) =~= body);
    }
    Some(value)
}

/// Parse `text` as a `u32` the way integer parsing does: an optional `+`
/// then one or more ASCII digits, within range.
pub fn parse_u32(text: &str) -> (r: Option<u32>)
    ensures
        match parsed_unsigned(text.spec_bytes(), u32::MAX as int) {
            Some(v) => r == Some(v as u32),
            None => r == None::<u32>,
        },
        r matches Some(x) ==> parsed_unsigned(text.spec_bytes(), u32::MAX as int) == Some(x as int),
{
    let ghost b = text.spec_bytes();
    let ghost body = if b.len() > 0 && b[0] == 43 { b.drop_first() } else { b };
    proof {
        if body.len() > 0 && all_digits(body) {
            lemma_decimal_prefix(body, 0);
            assert(body.take(0) =~= Seq::<u8>::empty());
        }
    }
    match parse_u64(text) {
        Some(v) => if v <= u32::MAX as u64 {
            Some(v as u32)
        } else {
            None
        },
        None => None,
    }
}

/// Split `text` around its first colon.
pub(crate) fn split_colon(text: &str) -> (r: Option<(&str, &str)>)
    ensures
        match r {
            Some((head, tail)) => {
                &&& exists|j: int| is_first_colon(text.spec_bytes(), j)
                &&& head.spec_bytes() == before_colon(text.spec_bytes())
                &&& tail.spec_bytes() == after_colon(text.spec_bytes())
            },
            None => colon_free(text.spec_bytes()),
        },
{
    let b = text.as_bytes();
    let mut j: usize = 0;
    while j < b.len() && b[j] != COLON
        invariant
            j <= b@.len(),
            forall|i: int| 0 <= i < j ==> b@[i] != COLON,
        decreases b@.len() - j,
    {
        j = j + 1;
    }
    if j == b.len() {
        return None;
    }
    proof {
        let bv = text.spec_bytes();
        assert(is_first_colon(bv, j as int));
        let c = choose|c: int| is_first_colon(bv, c);
        if c < j {
            assert(bv[c] != COLON);
        } else if c > j {
            assert(bv.subrange(0, c)[j as int] == COLON);
        }
        vstd::utf8::encode_utf8_valid_utf8(text@);
        vstd::utf8::is_char_boundary_iff_not_is_continuation_byte(bv, j as int);
    }
    let (head, rest) = text.split_at(j);
    proof {
        vstd::utf8::encode_utf8_valid_utf8(rest@);
        let rb = rest.spec_bytes();
        assert(rb[0] == COLON);
        reveal_with_fuel(vstd::utf8::is_char_boundary, 2);
        assert(vstd::utf8::is_char_boundary(rb, 1));
    }
    let (_colon, tail) = rest.split_at(1);
    Some((head, tail))
}

/// A malformed grant spec.
#[derive(Debug, PartialEq, Eq, Structural)]
pub enum GrantSpecError {
    /// A tool entry is not `name:action`.
    ToolSpec,
    /// A rate entry is not `tool:max:window_secs`.
    RateSpec,
    /// A rate entry's maximum is not a non-negative integer.
    RateMax,
    /// A rate entry's window is not a non-negative integer.
    RateWindow,
}

impl GrantSpecError {
    /// The message the error is reported with.
    pub fn message(&self) -> (r: &'static str)
        ensures
            self is ToolSpec ==> r@ == "tool must be given as name:action"@,
            self is RateSpec ==> r@ == "rate must be given as tool:max:window_secs"@,
            self is RateMax ==> r@ == "rate max must be a non-negative integer"@,
            self is RateWindow ==> r@ == "rate window_secs must be a non-negative integer"@,
    {
        match self {
            GrantSpecError::ToolSpec => "tool must be given as name:action",
            GrantSpecError::RateSpec => "rate must be given as tool:max:window_secs",
            GrantSpecError::RateMax => "rate max must be a non-negative integer",
            GrantSpecError::RateWindow => "rate window_secs must be a non-negative integer",
        }
    }
}

/// Split a tool entry `name:action` at its first colon.
pub fn parse_tool_spec(spec: &str) -> (r: Result<(String, String), GrantSpecError>)
    ensures
        match r {
            Ok((name, action)) => !colon_free(spec.spec_bytes())
                && vstd::utf8::encode_utf8(name@) == before_colon(spec.spec_bytes())
                && vstd::utf8::encode_utf8(action@) == after_colon(spec.spec_bytes()),
            Err(e) => colon_free(spec.spec_bytes()) && e == GrantSpecError::ToolSpec,
        },
{
    match split_colon(spec) {
        Some((name, action)) => {
            proof {
                let j = choose|j: int| is_first_colon(spec.spec_bytes(), j);
                assert(spec.spec_bytes()[j] == COLON);
            }
            Ok((name.to_owned(), action.to_owned()))
        },
        None => Err(GrantSpecError::ToolSpec),
    }
}

/// Whether `b` has exactly two colons.
pub open spec fn two_colons(b: Seq<u8>) -> bool {
    !colon_free(b) && !colon_free(after_colon(b)) && colon_free(after_colon(after_colon(b)))
}

/// Parse a rate entry `tool:max:window_secs`: exactly two colons, a `u32`
/// maximum and a `u64` window.
pub fn parse_rate_spec(spec: &str) -> (r: Result<(String, u32, u64), GrantSpecError>)
    ensures
        ({
            let b = spec.spec_bytes();
            let middle = before_colon(after_colon(b));
            let last = after_colon(after_colon(b));
            match r {
                Ok((tool, max, window)) => two_colons(b)
                    && vstd::utf8::encode_utf8(tool@) == before_colon(b)
                    && parsed_unsigned(middle, u32::MAX as int) == Some(max as int)
                    && parsed_unsigned(last, u64::MAX as int) == Some(window as int),
                Err(GrantSpecError::RateSpec) => !two_colons(b),
                Err(GrantSpecError::RateMax) => two_colons(b) && parsed_unsigned(middle, u32::MAX as int) == None::<int>,
                Err(GrantSpecError::RateWindow) => two_colons(b) && parsed_unsigned(middle, u32::MAX as int) is Some
                    && parsed_unsigned(last, u64::MAX as int) == None::<int>,
                Err(GrantSpecError::ToolSpec) => false,
            }
        }),
{
    let ghost b = spec.spec_bytes();
    let (tool, rest) = match split_colon(spec) {
        Some(parts) => parts,
        None => {
            return Err(GrantSpecError::RateSpec);
        },
    };
    proof {
        let j = choose|j: int| is_first_colon(b, j);
        assert(b[j] == COLON);
    }
    let (max_text, window_text) = match split_colon(rest) {
        Some(parts) => parts,
        None => {
            return Err(GrantSpecError::RateSpec);
        },
    };
    proof {
        let rb = rest.spec_bytes();
        let j = choose|j: int| is_first_colon(rb, j);
        assert(rb[j] == COLON);
    }
    match split_colon(window_text) {
        Some(_) => {
            proof {
                let wb = window_text.spec_bytes();
                let j = choose|j: int| is_first_colon(wb, j);
                assert(wb[j] == COLON);
            }
            return Err(GrantSpecError::RateSpec);
        },
        None => {},
    }
    let max = match parse_u32(max_text) {
        Some(v) => v,
        None => {
            return Err(GrantSpecError::RateMax);
        },
    };
    proof {
        assert(max_text.spec_bytes() == before_colon(after_colon(b)));
        assert(window_text.spec_bytes() == after_colon(after_colon(b)));
    }
    let window = match parse_u64(window_text) {
        Some(v) => v,
        None => {
            return Err(GrantSpecError::RateWindow);
        },
    };
    proof {
        assert(two_colons(b));
        assert(vstd::utf8::encode_utf8(tool@) == before_colon(b));
    }
    Ok((tool.to_owned(), max, window))
}

} // verus!
