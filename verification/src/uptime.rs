//! Verified parsing of the server-info text into an uptime value.
//!
//! The info text is a sequence of lines. The uptime is read from the
//! first line that contains the bytes `uptime_in_seconds`: the text
//! between the first and second colon of that line (or to the end of
//! the line) must be an unsigned decimal integer, with an optional
//! leading plus sign. Lines are split at newlines; a carriage return
//! directly before a newline belongs to the line ending, not the line.

use vstd::prelude::*;

verus! {

/// Why the uptime could not be read from the info text.
#[derive(PartialEq, Eq, Structural, Clone, Copy, Debug)]
pub enum UptimeError {
    /// No line of the info text mentions the uptime.
    NoUptimeLine,
    /// The uptime line has no colon, so it carries no value.
    NoUptimeValue,
    /// The uptime value is not an unsigned decimal integer.
    BadUptimeValue,
}

/// The bytes of `uptime_in_seconds`, the marker an info line must
/// contain to be the uptime line.
pub open spec fn uptime_pattern() -> Seq<u8> {
    seq![
        117u8,
        112u8,
        116u8,
        105u8,
        109u8,
        101u8,
        95u8,
        105u8,
        110u8,
        95u8,
        115u8,
        101u8,
        99u8,
        111u8,
        110u8,
        100u8,
        115u8,
    ]
}

/// The first position in `[i, hi)` holding byte `b`, or `hi` if none.
pub open spec fn scan_span(s: Seq<u8>, i: int, hi: int, b: u8) -> int
    decreases hi - i,
    when 0 <= i <= hi <= s.len()
{
    if i >= hi {
        hi
    } else if s[i] == b {
        i
    } else {
        scan_span(s, i + 1, hi, b)
    }
}

/// The pattern occurs at position `i` of `s`.
pub open spec fn pattern_at(s: Seq<u8>, i: int) -> bool {
    forall|k: int| 0 <= k < uptime_pattern().len() ==> s[i + k] == uptime_pattern()[k]
}

/// Some position of the span `[lo, hi)` starts the pattern.
pub open spec fn span_has_pattern(s: Seq<u8>, lo: int, hi: int) -> bool {
    exists|i: int| lo <= i && i + uptime_pattern().len() <= hi && #[trigger] pattern_at(s, i)
}

/// ASCII decimal digit.
pub open spec fn is_digit(b: u8) -> bool {
    48 <= b <= 57
}

/// Every byte of the span `[lo, hi)` is a digit.
pub open spec fn all_digits(s: Seq<u8>, lo: int, hi: int) -> bool {
    forall|k: int| lo <= k < hi ==> is_digit(#[trigger] s[k])
}

/// The value of the digit span `[lo, hi)` read in base ten.
pub open spec fn digits_value(s: Seq<u8>, lo: int, hi: int) -> int
    decreases hi - lo,
    when lo <= hi
{
    if hi <= lo {
        0
    } else {
        digits_value(s, lo, hi - 1) * 10 + (s[hi - 1] - 48)
    }
}

/// What parsing the span `[lo, hi)` as an unsigned 64-bit decimal
/// integer returns: an optional leading plus sign, then at least one
/// digit, and a value that fits.
pub open spec fn parse_u64_span(s: Seq<u8>, lo: int, hi: int) -> Option<u64> {
    let b = if lo < hi && s[lo] == 43 {
        lo + 1
    } else {
        lo
    };
    if b < hi && all_digits(s, b, hi) && digits_value(s, b, hi) <= u64::MAX {
        Some(digits_value(s, b, hi) as u64)
    } else {
        None
    }
}

/// What reading the value out of the uptime line `[lo, hi)` returns:
/// the span between the first and second colon (or the end of the
/// line), parsed as an unsigned decimal integer.
pub open spec fn line_value_spec(s: Seq<u8>, lo: int, hi: int) -> Result<u64, UptimeError> {
    let c1 = scan_span(s, lo, hi, 58);
    if c1 == hi {
        Err(UptimeError::NoUptimeValue)
    } else {
        let vlo = c1 + 1;
        let vhi = scan_span(s, vlo, hi, 58);
        match parse_u64_span(s, vlo, vhi) {
            Some(v) => Ok(v),
            None => Err(UptimeError::BadUptimeValue),
        }
    }
}

/// What parsing the info text from position `start` on returns: the
/// value of the first line at or after `start` that contains the
/// pattern, or `NoUptimeLine` if no such line exists.
pub open spec fn parse_from(s: Seq<u8>, start: int) -> Result<u64, UptimeError>
    decreases s.len() - start,
    when 0 <= start <= s.len()
    via parse_from_decreases
{
    if start >= s.len() {
        Err(UptimeError::NoUptimeLine)
    } else {
        let nl = scan_span(s, start, s.len() as int, 10);
        let ce = if nl < s.len() && nl > start && s[nl - 1] == 13 {
            nl - 1
        } else {
            nl
        };
        if span_has_pattern(s, start, ce) {
            line_value_spec(s, start, ce)
        } else if nl == s.len() {
            Err(UptimeError::NoUptimeLine)
        } else {
            parse_from(s, nl + 1)
        }
    }
}

#[via_fn]
proof fn parse_from_decreases(s: Seq<u8>, start: int) {
    if 0 <= start < s.len() {
        lemma_scan_span_bounds(s, start, s.len() as int, 10);
    }
}

proof fn lemma_scan_span_bounds(s: Seq<u8>, i: int, hi: int, b: u8)
    requires
        0 <= i <= hi <= s.len(),
    ensures
        i <= scan_span(s, i, hi, b) <= hi,
    decreases hi - i,
{
    if i < hi && s[i] != b {
        lemma_scan_span_bounds(s, i + 1, hi, b);
    }
}

/// What parsing the whole info text returns.
pub open spec fn parse_uptime_spec(s: Seq<u8>) -> Result<u64, UptimeError> {
    parse_from(s, 0)
}

fn find_byte(s: &Vec<u8>, from: usize, hi: usize, b: u8) -> (r: usize)
    requires
        from <= hi <= s@.len(),
    ensures
        from <= r <= hi,
        r == scan_span(s@, from as int, hi as int, b),
        r < hi ==> s@[r as int] == b,
        forall|j: int| from <= j < r ==> s@[j] != b,
{
    let mut i = from;
    while i < hi
        invariant
            from <= i <= hi <= s@.len(),
            scan_span(s@, from as int, hi as int, b) == scan_span(s@, i as int, hi as int, b),
            forall|j: int| from <= j < i ==> s@[j] != b,
        decreases hi - i,
    {
        if s[i] == b {
            return i;
        }
        i += 1;
    }
    hi
}

fn uptime_pattern_vec() -> (p: Vec<u8>)
    ensures
        p@ == uptime_pattern(),
{
    let mut p: Vec<u8> = Vec::new();
    p.push(117);
    p.push(112);
    p.push(116);
    p.push(105);
    p.push(109);
    p.push(101);
    p.push(95);
    p.push(105);
    p.push(110);
    p.push(95);
    p.push(115);
    p.push(101);
    p.push(99);
    p.push(111);
    p.push(110);
    p.push(100);
    p.push(115);
    proof {
        assert(p@ =~= uptime_pattern());
    }
    p
}

fn span_contains_pattern(s: &Vec<u8>, lo: usize, hi: usize) -> (r: bool)
    requires
        lo <= hi <= s@.len(),
    ensures
        r == span_has_pattern(s@, lo as int, hi as int),
{
    let pat = uptime_pattern_vec();
    let plen = pat.len();
    if hi - lo < plen {
        proof {
            assert(!span_has_pattern(s@, lo as int, hi as int));
        }
        return false;
    }
    let mut i = lo;
    while i <= hi - plen
        invariant
            lo <= i <= hi - plen + 1,
            plen == uptime_pattern().len(),
            pat@ == uptime_pattern(),
            lo + plen <= hi <= s@.len(),
            forall|p: int| lo <= p < i ==> !(#[trigger] pattern_at(s@, p)),
        decreases hi - i,
    {
        let mut k: usize = 0;
        let mut matched = true;
        while k < plen && matched
            invariant
                0 <= k <= plen,
                plen == uptime_pattern().len(),
                pat@ == uptime_pattern(),
                lo <= i <= hi - plen,
                hi <= s@.len(),
                matched ==> forall|q: int| 0 <= q < k ==> s@[i + q] == uptime_pattern()[q],
                !matched ==> !pattern_at(s@, i as int),
            decreases plen - k + (if matched { 1int } else { 0int }),
        {
            if s[i + k] != pat[k] {
                proof {
                    assert(!pattern_at(s@, i as int)) by {
                        assert(s@[i + k as int] != uptime_pattern()[k as int]);
                    }
                }
                matched = false;
            } else {
                k += 1;
            }
        }
        if matched {
            proof {
                assert(pattern_at(s@, i as int));
                assert(span_has_pattern(s@, lo as int, hi as int));
            }
            return true;
        }
        proof {
            assert(!pattern_at(s@, i as int));
        }
        i += 1;
    }
    proof {
        assert(!span_has_pattern(s@, lo as int, hi as int)) by {
            assert(forall|p: int| lo <= p < i ==> !(#[trigger] pattern_at(s@, p)));
        }
    }
    false
}

proof fn lemma_digits_nonneg(s: Seq<u8>, lo: int, hi: int)
    requires
        lo <= hi,
        all_digits(s, lo, hi),
    ensures
        digits_value(s, lo, hi) >= 0,
    decreases hi - lo,
{
    if hi > lo {
        lemma_digits_nonneg(s, lo, hi - 1);
    }
}

proof fn lemma_digits_monotone(s: Seq<u8>, lo: int, mid: int, hi: int)
    requires
        lo <= mid <= hi,
        all_digits(s, lo, hi),
    ensures
        digits_value(s, lo, hi) >= digits_value(s, lo, mid),
    decreases hi - mid,
{
    if mid < hi {
        lemma_digits_monotone(s, lo, mid, hi - 1);
        lemma_digits_nonneg(s, lo, hi - 1);
        assert(digits_value(s, lo, hi) == digits_value(s, lo, hi - 1) * 10 + (s[hi - 1] - 48));
        assert(digits_value(s, lo, hi - 1) * 10 >= digits_value(s, lo, hi - 1)) by (nonlinear_arith)
            requires
                digits_value(s, lo, hi - 1) >= 0,
        ;
    }
}

fn parse_u64_digits(s: &Vec<u8>, lo: usize, hi: usize) -> (r: Option<u64>)
    requires
        lo <= hi <= s@.len(),
    ensures
        r == parse_u64_span(s@, lo as int, hi as int),
{
    let mut b = lo;
    if b < hi && s[b] == 43 {
        b += 1;
    }
    let ghost bb = b as int;
    proof {
        assert(bb == (if (lo as int) < hi as int && s@[lo as int] == 43 {
            lo + 1
        } else {
            lo as int
        }));
    }
    if b >= hi {
        return None;
    }
    let mut i = b;
    let mut acc: u64 = 0;
    while i < hi
        invariant
            bb == b,
            lo <= b <= i <= hi <= s@.len(),
            bb == (if (lo as int) < hi as int && s@[lo as int] == 43 {
                lo + 1
            } else {
                lo as int
            }),
            all_digits(s@, b as int, i as int),
            acc == digits_value(s@, b as int, i as int),
        decreases hi - i,
    {
        let c = s[i];
        if c < 48 || c > 57 {
            proof {
                assert(!is_digit(s@[i as int]));
                assert(!all_digits(s@, b as int, hi as int));
            }
            return None;
        }
        let d = (c - 48) as u64;
        if acc > (u64::MAX - d) / 10 {
            proof {
                let sv = s@;
                let bi = b as int;
                let hii = hi as int;
                assert(digits_value(sv, bi, i + 1) == acc * 10 + d);
                assert(acc * 10 + d > u64::MAX) by (nonlinear_arith)
                    requires
                        acc > (u64::MAX - d) / 10,
                        0 <= d <= 9,
                        acc >= 0,
                ;
                if all_digits(sv, bi, hii) {
                    lemma_digits_monotone(sv, bi, i + 1, hii);
                    assert(digits_value(sv, bi, hii) > u64::MAX);
                }
            }
            return None;
        }
        proof {
            assert(acc * 10 + d <= u64::MAX) by (nonlinear_arith)
                requires
                    acc <= (u64::MAX - d) / 10,
                    0 <= d <= 9,
                    acc >= 0,
            ;
            assert(digits_value(s@, b as int, i + 1) == acc * 10 + d);
        }
        acc = acc * 10 + d;
        i += 1;
    }
    proof {
        assert(bb == (if (lo as int) < hi as int && s@[lo as int] == 43 {
            lo + 1
        } else {
            lo as int
        }));
    }
    Some(acc)
}

fn line_value(s: &Vec<u8>, lo: usize, hi: usize) -> (r: Result<u64, UptimeError>)
    requires
        lo <= hi <= s@.len(),
    ensures
        r == line_value_spec(s@, lo as int, hi as int),
{
    let c1 = find_byte(s, lo, hi, 58);
    if c1 == hi {
        return Err(UptimeError::NoUptimeValue);
    }
    let vlo = c1 + 1;
    let vhi = find_byte(s, vlo, hi, 58);
    match parse_u64_digits(s, vlo, vhi) {
        Some(v) => Ok(v),
        None => Err(UptimeError::BadUptimeValue),
    }
}

/// Read the uptime out of the info text: the first line containing
/// `uptime_in_seconds` carries it after its first colon.
pub fn parse_uptime(info: &Vec<u8>) -> (r: Result<u64, UptimeError>)
    ensures
        r == parse_uptime_spec(info@),
{
    let len = info.len();
    let mut start: usize = 0;
    while start < len
        invariant
            start <= len,
            len == info@.len(),
            parse_uptime_spec(info@) == parse_from(info@, start as int),
        decreases len - start,
    {
        let nl = find_byte(info, start, len, 10);
        let ce = if nl < len && nl > start && info[nl - 1] == 13 {
            nl - 1
        } else {
            nl
        };
        if span_contains_pattern(info, start, ce) {
            return line_value(info, start, ce);
        }
        if nl == len {
            return Err(UptimeError::NoUptimeLine);
        }
        start = nl + 1;
    }
    Err(UptimeError::NoUptimeLine)
}

} // verus!
