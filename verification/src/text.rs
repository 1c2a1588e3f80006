//! Helpers for bytes and text: UTF-8 decoding, trimming, decimal numbers
//! and scans for the end of a field.

use vstd::prelude::*;
use vstd::utf8::*;

verus! {

/// `std::string::FromUtf8Error`, carried through as an opaque value.
#[verifier::external_type_specification]
#[verifier::external_body]
pub struct ExFromUtf8Error(std::string::FromUtf8Error);

/// Calls `String::from_utf8`. The contract is trusted: the call succeeds
/// exactly on well-formed UTF-8, and the string then holds the characters
/// that the bytes encode.
#[verifier::external_body]
pub(crate) fn from_utf8(bytes: Vec<u8>) -> (r: Result<String, std::string::FromUtf8Error>)
    ensures
        r is Ok <==> valid_utf8(bytes@),
        r matches Ok(s) ==> s@ == decode_utf8(bytes@),
{
    String::from_utf8(bytes)
}

/// The characters of `s` without its leading and trailing whitespace, as
/// `str::trim` removes it.
pub uninterp spec fn trimmed(s: Seq<char>) -> Seq<char>;

/// Calls `str::trim`. The contract is trusted and only names the result.
#[verifier::external_body]
pub(crate) fn trim(s: &str) -> (t: &str)
    ensures
        t@ == trimmed(s@),
{
    s.trim()
}

/// Whether `a` and `b` hold the same bytes.
pub fn bytes_eq(a: &[u8], b: &[u8]) -> (r: bool)
    ensures
        r == (a@ == b@),
{
    if a.len() != b.len() {
        return false;
    }
    let mut i: usize = 0;
    while i < a.len()
        invariant
            a.len() == b.len(),
            i <= a.len(),
            a@.take(i as int) == b@.take(i as int),
        decreases a.len() - i,
    {
        if a[i] != b[i] {
            return false;
        }
        assert(a@.take(i + 1) == a@.take(i as int).push(a@[i as int]));
        assert(b@.take(i + 1) == b@.take(i as int).push(b@[i as int]));
        i += 1;
    }
    assert(a@ == a@.take(i as int));
    assert(b@ == b@.take(i as int));
    true
}

/// Whether `s` begins with the bytes of `prefix`.
pub fn starts_with(s: &[u8], prefix: &[u8]) -> (r: bool)
    ensures
        r == prefix@.is_prefix_of(s@),
{
    if prefix.len() > s.len() {
        return false;
    }
    let mut i: usize = 0;
    while i < prefix.len()
        invariant
            prefix.len() <= s.len(),
            i <= prefix.len(),
            prefix@.take(i as int) == s@.take(i as int),
        decreases prefix.len() - i,
    {
        if prefix[i] != s[i] {
            assert(s@.subrange(0, prefix.len() as int)[i as int] != prefix@[i as int]);
            return false;
        }
        assert(prefix@.take(i + 1) == prefix@.take(i as int).push(prefix@[i as int]));
        assert(s@.take(i + 1) == s@.take(i as int).push(s@[i as int]));
        i += 1;
    }
    assert(prefix@ == prefix@.take(i as int));
    true
}

/// An ASCII decimal digit.
pub open spec fn is_digit(b: u8) -> bool {
    0x30 <= b <= 0x39
}

/// Every byte of `s` is a decimal digit.
pub open spec fn all_digits(s: Seq<u8>) -> bool {
    forall|i: int| 0 <= i < s.len() ==> is_digit(#[trigger] s[i])
}

/// The number that a run of decimal digits denotes, most significant first.
pub open spec fn decimal_value(s: Seq<u8>) -> nat
    decreases s.len(),
{
    if s.len() == 0 {
        0
    } else {
        10 * decimal_value(s.drop_last()) + (s.last() - 0x30) as nat
    }
}

/// `s` without one leading `+`.
pub open spec fn unsigned_part(s: Seq<u8>) -> Seq<u8> {
    if s.len() > 0 && s[0] == 0x2b {
        s.skip(1)
    } else {
        s
    }
}

/// The `u32` that `s` denotes in decimal: an optional `+`, then at least one
/// digit and nothing else, with a value that fits. `None` for anything else.
pub open spec fn decimal_u32(s: Seq<u8>) -> Option<u32> {
    let d = unsigned_part(s);
    if d.len() > 0 && all_digits(d) && decimal_value(d) <= u32::MAX {
        Some(decimal_value(d) as u32)
    } else {
        None
    }
}

/// A digit string is worth at least as much as each of its prefixes.
pub proof fn lemma_decimal_value_grows(s: Seq<u8>, k: int)
    requires
        all_digits(s),
        0 <= k <= s.len(),
    ensures
        decimal_value(s.take(k)) <= decimal_value(s),
    decreases s.len(),
{
    if k == s.len() {
        assert(s.take(k) == s);
    } else {
        lemma_decimal_value_grows(s.drop_last(), k);
        assert(s.drop_last().take(k) == s.take(k));
    }
}

/// Reads a decimal `u32` the way `u32::from_str` does.
pub fn parse_u32(s: &[u8]) -> (r: Option<u32>)
    ensures
        r == decimal_u32(s@),
{
    let n = s.len();
    let start: usize = if n > 0 && s[0] == 0x2b { 1 } else { 0 };
    if start == n {
        return None;
    }
    let ghost d = unsigned_part(s@);
    let mut acc: u32 = 0;
    let mut i: usize = start;
    while i < n
        invariant
            n == s.len(),
            start <= i <= n,
            d == s@.skip(start as int),
            d == unsigned_part(s@),
            all_digits(d.take(i - start)),
            acc == decimal_value(d.take(i - start)),
        decreases n - i,
    {
        let b = s[i];
        if b < 0x30 || b > 0x39 {
            assert(!is_digit(d[i - start]));
            return None;
        }
        let digit: u32 = (b - 0x30) as u32;
        let ghost next = d.take(i - start + 1);
        assert(next.drop_last() == d.take(i - start));
        assert(next.last() == b);
        assert(all_digits(next));
        if acc > (u32::MAX - digit) / 10 {
            proof {
                if all_digits(d) {
                    lemma_decimal_value_grows(d, i - start + 1);
                }
            }
            return None;
        }
        acc = acc * 10 + digit;
        i += 1;
    }
    assert(d.take(i - start) == d);
    Some(acc)
}

/// The decimal digits of `n`, most significant first, with no leading zero.
pub open spec fn decimal_digits(n: nat) -> Seq<u8>
    decreases n,
{
    if n < 10 {
        seq![(0x30 + n) as u8]
    } else {
        decimal_digits(n / 10).push((0x30 + n % 10) as u8)
    }
}

/// `n` written in decimal.
pub open spec fn decimal_text(n: nat) -> Seq<char> {
    decode_utf8(decimal_digits(n))
}

/// The digits of a number are digits, and so well-formed UTF-8.
pub proof fn lemma_decimal_digits(n: nat)
    ensures
        all_digits(decimal_digits(n)),
        valid_utf8(decimal_digits(n)),
    decreases n,
{
    let digits = decimal_digits(n);
    if n >= 10 {
        lemma_decimal_digits(n / 10);
    }
    assert(partial_valid_utf8(digits, 0)) by {
        assert(digits.subrange(0, 0) == Seq::<u8>::empty());
    }
    partial_valid_utf8_extend_ascii_block(digits, 0, digits.len() as int);
    assert(digits.subrange(0, digits.len() as int) == digits);
}

/// Appends the decimal digits of `n` to `out`.
fn push_decimal(out: &mut Vec<u8>, n: u32)
    ensures
        final(out)@ == old(out)@ + decimal_digits(n as nat),
    decreases n,
{
    if n >= 10 {
        push_decimal(out, n / 10);
    }
    out.push(0x30 + (n % 10) as u8);
    assert(out@ =~= old(out)@ + decimal_digits(n as nat));
}

/// Writes `n` in decimal.
pub fn decimal(n: u32) -> (text: String)
    ensures
        text@ == decimal_text(n as nat),
{
    let mut digits: Vec<u8> = Vec::new();
    push_decimal(&mut digits, n);
    proof {
        lemma_decimal_digits(n as nat);
        assert(digits@ == decimal_digits(n as nat));
    }
    from_utf8(digits).unwrap()
}

/// The bytes that end a field where no pattern byte does: tab, carriage
/// return, line feed and space.
pub open spec fn is_blank(b: u8) -> bool {
    b == 0x09 || b == 0x0d || b == 0x0a || b == 0x20
}

/// What a scan over bytes stops at.
#[derive(Debug, Clone, Copy, PartialEq, Eq)]
pub enum Stop {
    /// At a zero byte.
    Zero,
    /// At a space.
    Space,
    /// At a blank byte.
    Blank,
    /// At a byte that is not blank.
    NonBlank,
}

impl Stop {
    /// Whether a scan of this kind stops at `b`.
    pub open spec fn at(self, b: u8) -> bool {
        match self {
            Stop::Zero => b == 0,
            Stop::Space => b == 0x20,
            Stop::Blank => is_blank(b),
            Stop::NonBlank => !is_blank(b),
        }
    }

    /// Whether a scan of this kind stops at `b`.
    pub fn stops_at(&self, b: u8) -> (r: bool)
        ensures
            r == self.at(b),
    {
        let blank = b == 0x09 || b == 0x0d || b == 0x0a || b == 0x20;
        match self {
            Stop::Zero => b == 0,
            Stop::Space => b == 0x20,
            Stop::Blank => blank,
            Stop::NonBlank => !blank,
        }
    }
}

/// The first index at or after `from` where a scan of kind `stop` stops, or
/// the length of `s` if it never does.
pub open spec fn find(s: Seq<u8>, from: int, stop: Stop) -> int
    decreases s.len() - from,
{
    if from < 0 || from >= s.len() || stop.at(s[from]) {
        from
    } else {
        find(s, from + 1, stop)
    }
}

/// A scan stops at `end` when it stops at nothing before `end`, and `end` is
/// a byte that it stops at or the end of the bytes.
pub proof fn lemma_find_stops(s: Seq<u8>, from: int, end: int, stop: Stop)
    requires
        0 <= from <= end <= s.len(),
        forall|j: int| from <= j < end ==> !stop.at(#[trigger] s[j]),
        end == s.len() || stop.at(s[end]),
    ensures
        find(s, from, stop) == end,
    decreases end - from,
{
    if from < end {
        lemma_find_stops(s, from + 1, end, stop);
    }
}

/// A scan stops at a byte of its kind or at the end, and at nothing before.
pub proof fn lemma_find_ends(s: Seq<u8>, from: int, stop: Stop)
    requires
        0 <= from <= s.len(),
    ensures
        from <= find(s, from, stop) <= s.len(),
        find(s, from, stop) < s.len() ==> stop.at(s[find(s, from, stop)]),
        forall|j: int| from <= j < find(s, from, stop) ==> !stop.at(#[trigger] s[j]),
    decreases s.len() - from,
{
    if from < s.len() && !stop.at(s[from]) {
        lemma_find_ends(s, from + 1, stop);
    }
}

/// Behind a run of one-byte characters, well-formed UTF-8 goes on as
/// well-formed UTF-8.
pub proof fn lemma_valid_after_ascii(s: Seq<u8>, from: int, to: int)
    requires
        0 <= from <= to <= s.len(),
        valid_utf8(s.subrange(from, s.len() as int)),
        forall|j: int| from <= j < to ==> #[trigger] s[j] <= 0x7f,
    ensures
        valid_utf8(s.subrange(to, s.len() as int)),
    decreases to - from,
{
    if from < to {
        let rest = s.subrange(from, s.len() as int);
        assert(rest[0] == s[from]);
        assert(pop_first_scalar(rest) =~= s.subrange(from + 1, s.len() as int));
        lemma_valid_after_ascii(s, from + 1, to);
    }
}

/// In well-formed UTF-8, what stands between two one-byte characters is
/// well-formed UTF-8: the bytes from `start` up to `end`, where the bytes
/// before `start` back to `anchor` are one-byte characters, the bytes from
/// `anchor` on are well-formed, and `end` is a one-byte character or the
/// end.
pub proof fn lemma_valid_between(s: Seq<u8>, anchor: int, start: int, end: int)
    requires
        0 <= anchor <= start <= end <= s.len(),
        valid_utf8(s.subrange(anchor, s.len() as int)),
        forall|j: int| anchor <= j < start ==> #[trigger] s[j] <= 0x7f,
        end < s.len() ==> s[end] <= 0x7f,
    ensures
        valid_utf8(s.subrange(start, end)),
        valid_utf8(s.subrange(end, s.len() as int)),
{
    lemma_valid_after_ascii(s, anchor, start);
    let rest = s.subrange(start, s.len() as int);
    if end < s.len() {
        assert(rest[end - start] == s[end]);
        is_char_boundary_iff_not_is_continuation_byte(rest, end - start);
    } else {
        is_char_boundary_start_end_of_seq(rest);
    }
    valid_utf8_split(rest, end - start);
    assert(rest.subrange(0, end - start) =~= s.subrange(start, end));
    assert(rest.subrange(end - start, rest.len() as int) =~= s.subrange(end, s.len() as int));
}

/// Scans `s` from `from` on; see [`find`].
pub fn scan(s: &[u8], from: usize, stop: Stop) -> (end: usize)
    requires
        from <= s.len(),
    ensures
        end == find(s@, from as int, stop),
        from <= end <= s.len(),
        end < s.len() ==> stop.at(s@[end as int]),
        forall|j: int| from <= j < end ==> !stop.at(#[trigger] s@[j]),
{
    proof {
        lemma_find_ends(s@, from as int, stop);
    }
    let mut end: usize = from;
    while end < s.len() && !stop.stops_at(s[end])
        invariant
            from <= end <= s.len(),
            find(s@, from as int, stop) == find(s@, end as int, stop),
        decreases s.len() - end,
    {
        end += 1;
    }
    end
}

} // verus!
