//! Fixed-width trace and span identifiers and the nanosecond timestamp type.
//!
//! A [`TraceId`] is a 128-bit value written canonically as 32 lowercase hex
//! characters; a [`SpanId`] is a 64-bit value written as 16. Parsing rejects
//! any text of the wrong length or with a non-hex character with
//! [`IdParseError::MalformedIdentifier`] instead of panicking.

use vstd::prelude::*;

verus! {

/// Error returned when identifier text is not well-formed hex.
#[derive(Clone, Copy, Debug, PartialEq, Eq, Structural)]
pub enum IdParseError {
    /// The text had the wrong length or held a character that is no hex digit.
    MalformedIdentifier,
}

/// Value of one hex digit, lower or upper case; 16 for any other character.
pub open spec fn hex_digit_value(c: char) -> int {
    let u = c as int;
    if 48 <= u && u <= 57 {
        u - 48
    } else if 97 <= u && u <= 102 {
        u - 87
    } else if 65 <= u && u <= 70 {
        u - 55
    } else {
        16
    }
}

/// Whether a character is a hex digit (either case).
pub open spec fn is_hex_digit(c: char) -> bool {
    hex_digit_value(c) < 16
}

/// Numeric value of a sequence of hex digits, most significant first.
pub open spec fn hex_value(s: Seq<char>) -> int
    decreases s.len(),
{
    if s.len() == 0 {
        0
    } else {
        hex_value(s.drop_last()) * 16 + hex_digit_value(s.last())
    }
}

/// The lowercase hex character for a digit value below 16.
pub open spec fn hex_char(d: int) -> char {
    if d == 0 { '0' }
    else if d == 1 { '1' }
    else if d == 2 { '2' }
    else if d == 3 { '3' }
    else if d == 4 { '4' }
    else if d == 5 { '5' }
    else if d == 6 { '6' }
    else if d == 7 { '7' }
    else if d == 8 { '8' }
    else if d == 9 { '9' }
    else if d == 10 { 'a' }
    else if d == 11 { 'b' }
    else if d == 12 { 'c' }
    else if d == 13 { 'd' }
    else if d == 14 { 'e' }
    else { 'f' }
}

/// The last `n` lowercase hex digits of `v`, most significant first.
pub open spec fn hex_render(v: int, n: nat) -> Seq<char>
    decreases n,
{
    if n == 0 {
        Seq::empty()
    } else {
        hex_render(v / 16, (n - 1) as nat).push(hex_char(v % 16))
    }
}

/// 16 to the power `n`.
pub open spec fn pow16(n: nat) -> int
    decreases n,
{
    if n == 0 {
        1
    } else {
        16 * pow16((n - 1) as nat)
    }
}

pub proof fn lemma_pow16_positive(n: nat)
    ensures
        pow16(n) >= 1,
    decreases n,
{
    if n > 0 {
        lemma_pow16_positive((n - 1) as nat);
    }
}

pub proof fn lemma_pow16_increases(m: nat, n: nat)
    requires
        m <= n,
    ensures
        pow16(m) <= pow16(n),
    decreases n,
{
    if m < n {
        lemma_pow16_increases(m, (n - 1) as nat);
        lemma_pow16_positive((n - 1) as nat);
    }
}

/// A sequence of hex digits denotes a value in `[0, 16^len)`.
pub proof fn lemma_hex_value_bound(s: Seq<char>)
    requires
        forall|i: int| 0 <= i < s.len() ==> is_hex_digit(s[i]),
    ensures
        0 <= hex_value(s) < pow16(s.len()),
    decreases s.len(),
{
    if s.len() > 0 {
        lemma_hex_value_bound(s.drop_last());
    }
}

/// Rendering a value below `16^n` gives `n` lowercase hex digits that parse
/// back to the same value.
pub proof fn lemma_hex_render_props(v: int, n: nat)
    requires
        0 <= v,
    ensures
        hex_render(v, n).len() == n,
        forall|i: int| 0 <= i < n ==> is_hex_digit(#[trigger] hex_render(v, n)[i]),
        v < pow16(n) ==> hex_value(hex_render(v, n)) == v,
    decreases n,
{
    if n > 0 {
        lemma_hex_render_props(v / 16, (n - 1) as nat);
        let r = hex_render(v, n);
        assert(r.drop_last() =~= hex_render(v / 16, (n - 1) as nat));
        assert(is_hex_digit(hex_char(v % 16)));
    }
}

/// Digit value of a character, or `None` where it is no hex digit.
fn hex_digit_of(c: char) -> (r: Option<u8>)
    ensures
        r == if is_hex_digit(c) { Some(hex_digit_value(c) as u8) } else { Option::<u8>::None },
{
    let u = c as u32;
    if 48 <= u && u <= 57 {
        Some((u - 48) as u8)
    } else if 97 <= u && u <= 102 {
        Some((u - 87) as u8)
    } else if 65 <= u && u <= 70 {
        Some((u - 55) as u8)
    } else {
        None
    }
}

/// One-character string for a digit value below 16.
fn digit_str(d: u8) -> (r: &'static str)
    requires
        d < 16,
    ensures
        r@.len() == 1,
        r@[0] == hex_char(d as int),
{
    proof {
        reveal_strlit("0");
        reveal_strlit("1");
        reveal_strlit("2");
        reveal_strlit("3");
        reveal_strlit("4");
        reveal_strlit("5");
        reveal_strlit("6");
        reveal_strlit("7");
        reveal_strlit("8");
        reveal_strlit("9");
        reveal_strlit("a");
        reveal_strlit("b");
        reveal_strlit("c");
        reveal_strlit("d");
        reveal_strlit("e");
        reveal_strlit("f");
    }
    match d {
        0 => "0",
        1 => "1",
        2 => "2",
        3 => "3",
        4 => "4",
        5 => "5",
        6 => "6",
        7 => "7",
        8 => "8",
        9 => "9",
        10 => "a",
        11 => "b",
        12 => "c",
        13 => "d",
        14 => "e",
        _ => "f",
    }
}

/// Parse exactly `n` hex digits into a value, or `None` on any malformation.
fn parse_hex(s: &str, n: usize) -> (r: Option<u128>)
    requires
        n <= 32,
    ensures
        match r {
            Some(v) => s@.len() == n && (forall|i: int| 0 <= i < n ==> is_hex_digit(s@[i]))
                && v as int == hex_value(s@),
            None => !(s@.len() == n && (forall|i: int| 0 <= i < n ==> is_hex_digit(s@[i]))),
        },
{
    let len = s.unicode_len();
    if len != n {
        return None;
    }
    let mut acc: u128 = 0;
    let mut i: usize = 0;
    while i < n
        invariant
            i <= n,
            n <= 32,
            s@.len() == n,
            forall|j: int| 0 <= j < i ==> is_hex_digit(s@[j]),
            acc as int == hex_value(s@.take(i as int)),
            acc < pow16(i as nat),
        decreases n - i,
    {
        let c = s.get_char(i);
        match hex_digit_of(c) {
            Some(d) => {
                proof {
                    lemma_pow16_increases((i + 1) as nat, 32);
                    assert(pow16(32) == 0x1_0000_0000_0000_0000_0000_0000_0000_0000) by {
                        reveal_with_fuel(pow16, 33);
                    }
                    assert(s@.take(i + 1).drop_last() =~= s@.take(i as int));
                    assert(s@.take(i + 1).last() == s@[i as int]);
                }
                acc = acc * 16 + (d as u128);
            },
            None => {
                return None;
            },
        }
        i = i + 1;
    }
    proof {
        assert(s@.take(n as int) =~= s@);
    }
    Some(acc)
}

/// Render the last `n` hex digits of `v`, most significant first, lowercase.
fn render_hex(v: u128, n: usize) -> (s: String)
    ensures
        s@ == hex_render(v as int, n as nat),
    decreases n,
{
    if n == 0 {
        let s = String::new();
        proof {
            assert(s@ =~= hex_render(v as int, 0));
        }
        s
    } else {
        let mut s = render_hex(v / 16, n - 1);
        let ds = digit_str((v % 16) as u8);
        s.append(ds);
        proof {
            assert(s@ =~= hex_render(v as int, n as nat));
        }
        s
    }
}

/// 128-bit trace identifier; canonical text form is 32 lowercase hex characters.
#[derive(Clone, Copy, Debug, PartialEq, Eq, Structural)]
pub struct TraceId(pub u128);

/// 64-bit span identifier; canonical text form is 16 lowercase hex characters.
#[derive(Clone, Copy, Debug, PartialEq, Eq, Structural)]
pub struct SpanId(pub u64);

impl TraceId {
    /// Parse the canonical 32-character hex form; either letter case is
    /// accepted. Any other text is a malformed identifier.
    pub fn from_hex(s: &str) -> (r: Result<TraceId, IdParseError>)
        ensures
            match r {
                Ok(id) => s@.len() == 32 && (forall|i: int| 0 <= i < 32 ==> is_hex_digit(s@[i]))
                    && id.0 as int == hex_value(s@),
                Err(e) => e == IdParseError::MalformedIdentifier
                    && !(s@.len() == 32 && (forall|i: int| 0 <= i < 32 ==> is_hex_digit(s@[i]))),
            },
    {
        match parse_hex(s, 32) {
            Some(v) => Ok(TraceId(v)),
            None => Err(IdParseError::MalformedIdentifier),
        }
    }

    /// Render the canonical 32-character lowercase hex form.
    pub fn to_hex(&self) -> (r: String)
        ensures
            r@ == hex_render(self.0 as int, 32),
            r@.len() == 32,
            forall|i: int| 0 <= i < 32 ==> is_hex_digit(#[trigger] r@[i]),
            hex_value(r@) == self.0 as int,
    {
        proof {
            assert(pow16(32) == 0x1_0000_0000_0000_0000_0000_0000_0000_0000) by {
                reveal_with_fuel(pow16, 33);
            }
            lemma_hex_render_props(self.0 as int, 32);
        }
        render_hex(self.0, 32)
    }
}

impl SpanId {
    /// Parse the canonical 16-character hex form; either letter case is
    /// accepted. Any other text is a malformed identifier.
    pub fn from_hex(s: &str) -> (r: Result<SpanId, IdParseError>)
        ensures
            match r {
                Ok(id) => s@.len() == 16 && (forall|i: int| 0 <= i < 16 ==> is_hex_digit(s@[i]))
                    && id.0 as int == hex_value(s@),
                Err(e) => e == IdParseError::MalformedIdentifier
                    && !(s@.len() == 16 && (forall|i: int| 0 <= i < 16 ==> is_hex_digit(s@[i]))),
            },
    {
        match parse_hex(s, 16) {
            Some(v) => {
                proof {
                    lemma_hex_value_bound(s@);
                    assert(pow16(16) == 0x1_0000_0000_0000_0000) by {
                        reveal_with_fuel(pow16, 17);
                    }
                }
                Ok(SpanId(v as u64))
            },
            None => Err(IdParseError::MalformedIdentifier),
        }
    }

    /// Render the canonical 16-character lowercase hex form.
    pub fn to_hex(&self) -> (r: String)
        ensures
            r@ == hex_render(self.0 as int, 16),
            r@.len() == 16,
            forall|i: int| 0 <= i < 16 ==> is_hex_digit(#[trigger] r@[i]),
            hex_value(r@) == self.0 as int,
    {
        proof {
            assert(pow16(16) == 0x1_0000_0000_0000_0000) by {
                reveal_with_fuel(pow16, 17);
            }
            lemma_hex_render_props(self.0 as int, 16);
        }
        render_hex(self.0 as u128, 16)
    }
}

/// Rendering an identifier and parsing the text back gives the identifier
/// again: `hex_render` is a right inverse of `hex_value` for values that fit.
pub proof fn lemma_hex_round_trip(v: int, n: nat)
    requires
        0 <= v < pow16(n),
    ensures
        hex_value(hex_render(v, n)) == v,
        hex_render(v, n).len() == n,
{
    lemma_hex_render_props(v, n);
}

/// Nanoseconds since the Unix epoch. Only comparison and saturating
/// subtraction are meaningful; the value is as monotonic as the wall clock.
#[derive(Clone, Copy, Debug, PartialEq, Eq, Structural)]
pub struct Timestamp(pub u64);

/// Relies on `std::time::SystemTime::now` and `duration_since`: the wall
/// clock as nanoseconds since the Unix epoch, truncated to 64 bits, or
/// `None` when the clock reads earlier than the epoch.
#[verifier::external_body]
fn wall_clock_unix_nanos() -> Option<u64> {
    std::time::SystemTime::now()
        .duration_since(std::time::UNIX_EPOCH)
        .ok()
        .map(|d| d.as_nanos() as u64)
}

impl Timestamp {
    /// Sample the wall clock. A clock that reads earlier than the Unix epoch
    /// yields the epoch itself rather than a panic.
    pub fn now() -> Timestamp {
        match wall_clock_unix_nanos() {
            Some(n) => Timestamp(n),
            None => Timestamp(0),
        }
    }

    /// Nanoseconds from `earlier` to `self`, saturating to zero when the
    /// clock ran backwards.
    pub fn saturating_nanos_since(&self, earlier: Timestamp) -> (r: u64)
        ensures
            r == if self.0 >= earlier.0 { self.0 - earlier.0 } else { 0 },
    {
        if self.0 >= earlier.0 {
            self.0 - earlier.0
        } else {
            0
        }
    }
}

} // verus!
