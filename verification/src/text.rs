use vstd::prelude::*;

verus! {

/// The character of a decimal digit `d < 10`.
pub open spec fn digit_char(d: nat) -> char {
    ((d + 48) as u32) as char
}

/// The decimal representation of `n`, without leading zeros ("0" for zero).
pub open spec fn decimal(n: nat) -> Seq<char>
    decreases n,
{
    if n < 10 {
        seq![digit_char(n)]
    } else {
        decimal(n / 10).push(digit_char(n % 10))
    }
}

/// The decimal representation of `n`, padded with a leading zero to at least two digits.
pub open spec fn two_digits(n: nat) -> Seq<char> {
    if n < 10 {
        seq!['0'] + decimal(n)
    } else {
        decimal(n)
    }
}

/// A time of day in seconds written as `HH:MM`.
pub open spec fn clock(seconds: u32) -> Seq<char> {
    two_digits((seconds / 3600) as nat) + seq![':'] + two_digits(((seconds % 3600) / 60) as nat)
}

/// The one-character string of a decimal digit.
fn digit_str(d: u64) -> (s: &'static str)
    requires
        d < 10,
    ensures
        s@ == seq![digit_char(d as nat)],
{
    proof {
        reveal_strlit("0");
        reveal_strlit("1");
        reveal_strlit("2");
        reveal_strlit("3");
        reveal_strlit("4");
        reveal_strlit("5");
        reveal_strlit("6");
        reveal_strlit("7");
        reveal_strlit("8");
        reveal_strlit("9");
    }
    if d == 0 {
        "0"
    } else if d == 1 {
        "1"
    } else if d == 2 {
        "2"
    } else if d == 3 {
        "3"
    } else if d == 4 {
        "4"
    } else if d == 5 {
        "5"
    } else if d == 6 {
        "6"
    } else if d == 7 {
        "7"
    } else if d == 8 {
        "8"
    } else {
        "9"
    }
}

/// Appends the decimal representation of `n` to `out`.
pub fn push_decimal(out: &mut String, n: u64)
    ensures
        final(out)@ == old(out)@ + decimal(n as nat),
    decreases n,
{
    if n < 10 {
        out.append(digit_str(n));
    } else {
        push_decimal(out, n / 10);
        out.append(digit_str(n % 10));
        proof {
            assert(old(out)@ + decimal((n / 10) as nat) + seq![digit_char((n % 10) as nat)]
                =~= old(out)@ + decimal(n as nat));
        }
    }
}

/// Appends `n` in decimal, padded with a leading zero to at least two digits.
pub fn push_two_digits(out: &mut String, n: u64)
    ensures
        final(out)@ == old(out)@ + two_digits(n as nat),
{
    if n < 10 {
        out.append("0");
        proof {
            reveal_strlit("0");
        }
    }
    push_decimal(out, n);
    proof {
        if n < 10 {
            assert(old(out)@ + seq!['0'] + decimal(n as nat) =~= old(out)@ + two_digits(n as nat));
        }
    }
}

/// Appends a time of day as `HH:MM`.
pub fn push_clock(out: &mut String, seconds: u32)
    ensures
        final(out)@ == old(out)@ + clock(seconds),
{
    let hours: u32 = seconds / 3600;
    let minutes: u32 = (seconds % 3600) / 60;
    push_two_digits(out, hours as u64);
    out.append(":");
    push_two_digits(out, minutes as u64);
    proof {
        reveal_strlit(":");
        assert(old(out)@ + two_digits(hours as nat) + seq![':'] + two_digits(minutes as nat)
            =~= old(out)@ + clock(seconds));
    }
}

/// The characters of a string slice, in order.
pub fn chars_of(s: &str) -> (r: Vec<char>)
    ensures
        r@ == s@,
{
    broadcast use vstd::string::group_string_axioms;

    let mut out: Vec<char> = Vec::new();
    for c in it: s.chars()
        invariant
            out@ == it.seq().take(it.index() as int),
    {
        out.push(c);
        proof {
            assert(it.seq().take(it.index() + 1) =~= it.seq().take(it.index() as int).push(c));
        }
    }
    proof {
        assert(out@ =~= s@);
    }
    out
}

/// A character with the Unicode `White_Space` property, which is what std's
/// `char::is_whitespace` tests.
pub open spec fn white_space(c: char) -> bool {
    let u = c as u32;
    ||| (0x9 <= u && u <= 0xD)
    ||| u == 0x20
    ||| u == 0x85
    ||| u == 0xA0
    ||| u == 0x1680
    ||| (0x2000 <= u && u <= 0x200A)
    ||| u == 0x2028
    ||| u == 0x2029
    ||| u == 0x202F
    ||| u == 0x205F
    ||| u == 0x3000
}

/// Whether a character has the Unicode `White_Space` property, as std's
/// `char::is_whitespace` tests it.
pub(crate) fn is_whitespace(c: char) -> (r: bool)
    ensures
        r == white_space(c),
{
    let u = c as u32;
    (0x9 <= u && u <= 0xD) || u == 0x20 || u == 0x85 || u == 0xA0 || u == 0x1680
        || (0x2000 <= u && u <= 0x200A) || u == 0x2028 || u == 0x2029 || u == 0x202F
        || u == 0x205F || u == 0x3000
}

/// A string without its leading white space.
pub open spec fn trim_start(s: Seq<char>) -> Seq<char>
    decreases s.len(),
{
    if s.len() > 0 && white_space(s[0]) {
        trim_start(s.drop_first())
    } else {
        s
    }
}

/// A string without its trailing white space.
pub open spec fn trim_end(s: Seq<char>) -> Seq<char>
    decreases s.len(),
{
    if s.len() > 0 && white_space(s.last()) {
        trim_end(s.drop_last())
    } else {
        s
    }
}

/// A string without its leading and trailing white space, as std's `str::trim` gives it.
pub open spec fn trimmed(s: Seq<char>) -> Seq<char> {
    trim_end(trim_start(s))
}

/// The bounds of `cs[lo..hi]` without its leading and trailing white space.
pub fn trim_bounds(cs: &Vec<char>, lo: usize, hi: usize) -> (r: (usize, usize))
    requires
        lo <= hi <= cs@.len(),
    ensures
        lo <= r.0 <= r.1 <= hi,
        cs@.subrange(r.0 as int, r.1 as int) == trimmed(cs@.subrange(lo as int, hi as int)),
{
    let mut a: usize = lo;
    while a < hi && is_whitespace(cs[a])
        invariant
            lo <= a <= hi <= cs@.len(),
            trim_start(cs@.subrange(lo as int, hi as int)) == trim_start(cs@.subrange(a as int, hi as int)),
        decreases hi - a,
    {
        assert(cs@.subrange(a as int, hi as int).drop_first() =~= cs@.subrange(a + 1, hi as int));
        a = a + 1;
    }
    assert(trim_start(cs@.subrange(a as int, hi as int)) == cs@.subrange(a as int, hi as int));
    let mut b: usize = hi;
    while b > a && is_whitespace(cs[b - 1])
        invariant
            lo <= a <= b <= hi <= cs@.len(),
            trim_end(cs@.subrange(a as int, hi as int)) == trim_end(cs@.subrange(a as int, b as int)),
        decreases b - a,
    {
        assert(cs@.subrange(a as int, b as int).drop_last() =~= cs@.subrange(a as int, b - 1));
        b = b - 1;
    }
    assert(trim_end(cs@.subrange(a as int, b as int)) == cs@.subrange(a as int, b as int));
    (a, b)
}

/// The code of a character with ASCII upper case letters mapped to lower case, as
/// std's `to_ascii_lowercase` maps them; other characters keep their code.
pub open spec fn ascii_lower_code(c: char) -> u32 {
    if 'A' <= c && c <= 'Z' {
        ((c as u32) + 32) as u32
    } else {
        c as u32
    }
}

/// Two strings are equal once ASCII letters are compared without case, as std's
/// `eq_ignore_ascii_case` compares them.
pub open spec fn same_ignoring_ascii_case(a: Seq<char>, b: Seq<char>) -> bool {
    &&& a.len() == b.len()
    &&& forall|i: int| 0 <= i < a.len() ==> ascii_lower_code(#[trigger] a[i]) == ascii_lower_code(b[i])
}

fn lower_code(c: char) -> (r: u32)
    ensures
        r == ascii_lower_code(c),
{
    if 'A' <= c && c <= 'Z' {
        (c as u32) + 32
    } else {
        c as u32
    }
}

/// Compares `a[a0..a1]` with `b[b0..b1]`, ASCII letters without case.
pub fn ranges_eq_ignore_ascii_case(a: &Vec<char>, a0: usize, a1: usize, b: &Vec<char>, b0: usize, b1: usize) -> (r: bool)
    requires
        a0 <= a1 <= a@.len(),
        b0 <= b1 <= b@.len(),
    ensures
        r == same_ignoring_ascii_case(a@.subrange(a0 as int, a1 as int), b@.subrange(b0 as int, b1 as int)),
{
    let ghost x = a@.subrange(a0 as int, a1 as int);
    let ghost y = b@.subrange(b0 as int, b1 as int);
    if a1 - a0 != b1 - b0 {
        return false;
    }
    let len = a1 - a0;
    let mut i: usize = 0;
    while i < len
        invariant
            a0 <= a1 <= a@.len(),
            b0 <= b1 <= b@.len(),
            len == a1 - a0,
            len == b1 - b0,
            x == a@.subrange(a0 as int, a1 as int),
            y == b@.subrange(b0 as int, b1 as int),
            i <= len,
            forall|k: int| 0 <= k < i ==> ascii_lower_code(#[trigger] x[k]) == ascii_lower_code(y[k]),
        decreases len - i,
    {
        if lower_code(a[a0 + i]) != lower_code(b[b0 + i]) {
            assert(x[i as int] == a@[a0 + i]);
            assert(y[i as int] == b@[b0 + i]);
            return false;
        }
        assert(x[i as int] == a@[a0 + i]);
        assert(y[i as int] == b@[b0 + i]);
        i = i + 1;
    }
    true
}

/// An ASCII decimal digit.
pub open spec fn is_digit(c: char) -> bool {
    '0' <= c && c <= '9'
}

/// The value of a decimal digit character.
pub open spec fn digit_value(c: char) -> int {
    (c as u32) - 48
}

/// Why a string is not a `u32`, as std's `ParseIntError` tells it.
#[derive(Debug, Clone, Copy, PartialEq, Eq)]
pub enum IntParseFailure {
    Empty,
    InvalidDigit,
    PosOverflow,
}

/// Reads digits `d[i..]` onto `acc` from left to right: the first character that is
/// not a digit, or the first digit that takes the value past `u32::MAX`, decides
/// the failure.
pub open spec fn scan_digits(d: Seq<char>, i: int, acc: int) -> Result<u32, IntParseFailure>
    decreases d.len() - i,
{
    if i >= d.len() {
        Ok(acc as u32)
    } else if !is_digit(d[i]) {
        Err(IntParseFailure::InvalidDigit)
    } else if acc * 10 + digit_value(d[i]) > u32::MAX {
        Err(IntParseFailure::PosOverflow)
    } else {
        scan_digits(d, i + 1, acc * 10 + digit_value(d[i]))
    }
}

/// What std's `u32::from_str` gives for a string: empty is `Empty`; a lone sign is
/// `InvalidDigit`; otherwise one leading `+` is skipped and the digits are read.
pub open spec fn u32_outcome(s: Seq<char>) -> Result<u32, IntParseFailure> {
    if s.len() == 0 {
        Err(IntParseFailure::Empty)
    } else if s.len() == 1 && (s[0] == '+' || s[0] == '-') {
        Err(IntParseFailure::InvalidDigit)
    } else if s[0] == '+' {
        scan_digits(s, 1, 0)
    } else {
        scan_digits(s, 0, 0)
    }
}

/// Parses `cs[lo..hi]` as std's `u32::from_str` does.
pub fn parse_u32_range(cs: &Vec<char>, lo: usize, hi: usize) -> (r: Result<u32, IntParseFailure>)
    requires
        lo <= hi <= cs@.len(),
    ensures
        r == u32_outcome(cs@.subrange(lo as int, hi as int)),
{
    let ghost s = cs@.subrange(lo as int, hi as int);
    if lo == hi {
        return Err(IntParseFailure::Empty);
    }
    if hi - lo == 1 && (cs[lo] == '+' || cs[lo] == '-') {
        return Err(IntParseFailure::InvalidDigit);
    }
    let mut i: usize = if cs[lo] == '+' { lo + 1 } else { lo };
    let mut value: u32 = 0;
    while i < hi
        invariant
            lo <= i <= hi <= cs@.len(),
            s == cs@.subrange(lo as int, hi as int),
            s.len() > 0,
            u32_outcome(s) == scan_digits(s, i - lo, value as int),
        decreases hi - i,
    {
        let c = cs[i];
        assert(s[i - lo] == c);
        if !('0' <= c && c <= '9') {
            return Err(IntParseFailure::InvalidDigit);
        }
        let d: u32 = (c as u32) - 48;
        if value > 429496729 || (value == 429496729 && d > 5) {
            return Err(IntParseFailure::PosOverflow);
        }
        value = value * 10 + d;
        i = i + 1;
    }
    Ok(value)
}

/// The text std's `ParseIntError` shows for each failure.
pub open spec fn failure_text(f: IntParseFailure) -> Seq<char> {
    match f {
        IntParseFailure::Empty => "cannot parse integer from empty string"@,
        IntParseFailure::InvalidDigit => "invalid digit found in string"@,
        IntParseFailure::PosOverflow => "number too large to fit in target type"@,
    }
}

impl IntParseFailure {
    /// The failure as text.
    pub fn describe(&self) -> (s: String)
        ensures
            s@ == failure_text(*self),
    {
        match self {
            IntParseFailure::Empty => String::from_str("cannot parse integer from empty string"),
            IntParseFailure::InvalidDigit => String::from_str("invalid digit found in string"),
            IntParseFailure::PosOverflow => String::from_str("number too large to fit in target type"),
        }
    }
}

} // verus!
