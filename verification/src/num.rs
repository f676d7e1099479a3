//! Unsigned integer parsing (`from_str_radix` rules) and formatting in
//! decimal and lowercase hexadecimal.

use vstd::prelude::*;

verus! {

/// Why a string is not an unsigned integer (the kinds of `ParseIntError`
/// that an unsigned parse can report).
#[derive(Clone, Copy, Debug, PartialEq, Eq, Structural)]
pub enum IntErrorKind {
    /// The string is empty.
    Empty,
    /// The string holds a character that is not a digit of the radix.
    InvalidDigit,
    /// The value does not fit in a `u64`.
    PosOverflow,
}

impl IntErrorKind {
    /// The message that the standard library displays for this kind.
    pub open spec fn spec_message(self) -> Seq<char> {
        match self {
            IntErrorKind::Empty => "cannot parse integer from empty string"@,
            IntErrorKind::InvalidDigit => "invalid digit found in string"@,
            IntErrorKind::PosOverflow => "number too large to fit in target type"@,
        }
    }

    /// The message that the standard library displays for this kind.
    pub fn message(&self) -> (m: &'static str)
        ensures
            m@ == self.spec_message(),
    {
        match self {
            IntErrorKind::Empty => "cannot parse integer from empty string",
            IntErrorKind::InvalidDigit => "invalid digit found in string",
            IntErrorKind::PosOverflow => "number too large to fit in target type",
        }
    }
}

/// The value of `c` as a digit in radix 36 (`0-9`, `a-z`, `A-Z`); 36 when
/// `c` is no such digit.
pub open spec fn digit_value(c: char) -> nat {
    let u = c as u32;
    if 0x30 <= u <= 0x39 {
        (u - 0x30) as nat
    } else if 0x61 <= u <= 0x7a {
        (u - 0x61 + 10) as nat
    } else if 0x41 <= u <= 0x5a {
        (u - 0x41 + 10) as nat
    } else {
        36
    }
}

/// Reads the digits `d` from the left onto the accumulated value `acc`,
/// failing at the first non-digit or at the first digit whose value no
/// longer fits in a `u64`.
pub open spec fn scan_digits(d: Seq<char>, radix: nat, acc: nat) -> Result<u64, IntErrorKind>
    decreases d.len(),
{
    if d.len() == 0 {
        Ok(acc as u64)
    } else if digit_value(d[0]) >= radix {
        Err(IntErrorKind::InvalidDigit)
    } else {
        let v = acc * radix + digit_value(d[0]);
        if v > u64::MAX {
            Err(IntErrorKind::PosOverflow)
        } else {
            scan_digits(d.drop_first(), radix, v as nat)
        }
    }
}

/// `u64::from_str_radix(s, radix)`: an optional leading `+` followed by at
/// least one digit of the radix, with a value that fits in a `u64`.
pub open spec fn parse_unsigned(s: Seq<char>, radix: nat) -> Result<u64, IntErrorKind> {
    if s.len() == 0 {
        Err(IntErrorKind::Empty)
    } else if s.len() > 1 && s[0] == '+' {
        scan_digits(s.drop_first(), radix, 0)
    } else {
        scan_digits(s, radix, 0)
    }
}

/// The value of `c` as a digit in radix 36, or 36.
pub fn digit_of(c: char) -> (d: u64)
    ensures
        d == digit_value(c),
{
    let u = c as u32;
    if 0x30 <= u && u <= 0x39 {
        (u - 0x30) as u64
    } else if 0x61 <= u && u <= 0x7a {
        (u - 0x61 + 10) as u64
    } else if 0x41 <= u && u <= 0x5a {
        (u - 0x41 + 10) as u64
    } else {
        36
    }
}

/// Parses `s` as an unsigned integer in the given radix, with the rules and
/// the error kinds of `u64::from_str_radix`.
pub fn parse_u64(s: &[char], radix: u64) -> (r: Result<u64, IntErrorKind>)
    requires
        2 <= radix <= 36,
    ensures
        r == parse_unsigned(s@, radix as nat),
{
    if s.len() == 0 {
        return Err(IntErrorKind::Empty);
    }
    let mut i: usize = if s.len() > 1 && s[0] == '+' {
        1
    } else {
        0
    };
    assert(s@.skip(0) =~= s@);
    assert(s@.skip(1) =~= s@.drop_first());
    let mut acc: u64 = 0;
    while i < s.len()
        invariant
            2 <= radix <= 36,
            i <= s@.len(),
            parse_unsigned(s@, radix as nat) == scan_digits(s@.skip(i as int), radix as nat, acc as nat),
        decreases s@.len() - i,
    {
        let d = digit_of(s[i]);
        assert(s@.skip(i as int)[0] == s@[i as int]);
        assert(s@.skip(i as int).drop_first() =~= s@.skip(i + 1));
        if d >= radix {
            return Err(IntErrorKind::InvalidDigit);
        }
        match acc.checked_mul(radix) {
            None => {
                return Err(IntErrorKind::PosOverflow);
            },
            Some(m) => match m.checked_add(d) {
                None => {
                    return Err(IntErrorKind::PosOverflow);
                },
                Some(v) => {
                    acc = v;
                },
            },
        }
        i = i + 1;
    }
    Ok(acc)
}

/// The character for digit `d` (below 16): `0-9` then `a-f`.
pub open spec fn digit_char(d: nat) -> char {
    if d < 10 {
        (0x30 + d) as char
    } else {
        (0x61 + d - 10) as char
    }
}

/// The decimal digits of `n`, most significant first, without leading zeros.
pub open spec fn decimal(n: nat) -> Seq<char>
    decreases n,
{
    if n < 10 {
        seq![digit_char(n)]
    } else {
        decimal(n / 10).push(digit_char(n % 10))
    }
}

/// The lowercase hexadecimal digits of `n`, most significant first, without
/// leading zeros (`format!("{:x}", n)`).
pub open spec fn hex(n: nat) -> Seq<char>
    decreases n,
{
    if n < 16 {
        seq![digit_char(n)]
    } else {
        hex(n / 16).push(digit_char(n % 16))
    }
}

/// The character for digit `d`.
pub fn digit_to_char(d: u64) -> (c: char)
    requires
        d < 16,
    ensures
        c == digit_char(d as nat),
{
    if d < 10 {
        ((0x30 + d) as u8) as char
    } else {
        ((0x61 + d - 10) as u8) as char
    }
}

/// Appends the decimal digits of `n` to `out`.
pub fn push_decimal(n: u64, out: &mut Vec<char>)
    ensures
        final(out)@ == old(out)@ + decimal(n as nat),
    decreases n,
{
    if n >= 10 {
        push_decimal(n / 10, out);
    }
    out.push(digit_to_char(n % 10));
}

/// Appends the lowercase hexadecimal digits of `n` to `out`.
pub fn push_hex(n: u64, out: &mut Vec<char>)
    ensures
        final(out)@ == old(out)@ + hex(n as nat),
    decreases n,
{
    if n >= 16 {
        push_hex(n / 16, out);
    }
    out.push(digit_to_char(n % 16));
}

/// Reading one more digit after the digits `d`.
proof fn lemma_scan_push(d: Seq<char>, radix: nat, acc: nat, v: u64, x: char)
    requires
        scan_digits(d, radix, acc) == Ok::<u64, IntErrorKind>(v),
        acc <= u64::MAX,
        digit_value(x) < radix,
        v * radix + digit_value(x) <= u64::MAX,
    ensures
        scan_digits(d.push(x), radix, acc) == Ok::<u64, IntErrorKind>((v * radix + digit_value(x)) as u64),
    decreases d.len(),
{
    let p = d.push(x);
    if d.len() == 0 {
        assert(p[0] == x);
        assert(p.drop_first() =~= Seq::<char>::empty());
        assert(acc == v);
        let w = acc * radix + digit_value(x);
        assert(w == v * radix + digit_value(x));
        assert(scan_digits(p.drop_first(), radix, w) == Ok::<u64, IntErrorKind>(w as u64));
    } else {
        assert(digit_value(d[0]) < radix);
        let next = acc * radix + digit_value(d[0]);
        assert(next <= u64::MAX);
        assert(scan_digits(d.drop_first(), radix, next as nat) == Ok::<u64, IntErrorKind>(v));
        assert(p[0] == d[0]);
        assert(p.drop_first() =~= d.drop_first().push(x));
        lemma_scan_push(d.drop_first(), radix, next as nat, v, x);
    }
}

/// The digit characters stand for their values.
proof fn lemma_digit_char(d: nat)
    requires
        d < 16,
    ensures
        digit_value(digit_char(d)) == d,
        digit_char(d) != '+',
        d != 0 ==> digit_char(d) != '0',
{
}

/// The decimal text of a `u64` reads back as that number, and has no
/// leading zero.
pub proof fn law_decimal_reads_back(n: u64)
    ensures
        parse_unsigned(decimal(n as nat), 10) == Ok::<u64, IntErrorKind>(n),
        decimal(n as nat).len() == 1 || decimal(n as nat)[0] != '0',
    decreases n,
{
    let t = decimal(n as nat);
    if n < 10 {
        lemma_digit_char(n as nat);
        assert(t.len() == 1 && t[0] == digit_char(n as nat));
        assert(t.drop_first() =~= Seq::<char>::empty());
        assert(scan_digits(t.drop_first(), 10, n as nat) == Ok::<u64, IntErrorKind>(n));
        assert(scan_digits(t, 10, 0) == Ok::<u64, IntErrorKind>(n));
        assert(t[0] != '+');
    } else {
        let q = (n / 10) as u64;
        law_decimal_reads_back(q);
        let h = decimal(q as nat);
        let x = digit_char((n % 10) as nat);
        lemma_digit_char((n % 10) as nat);
        lemma_decimal_first(q as nat);
        assert(scan_digits(h, 10, 0) == Ok::<u64, IntErrorKind>(q));
        assert(q * 10 + (n % 10) == n);
        lemma_scan_push(h, 10, 0, q, x);
        assert(t == h.push(x));
        assert(t[0] == h[0]);
        assert(scan_digits(t, 10, 0) == Ok::<u64, IntErrorKind>(n));
    }
}

/// The first character of a decimal text is a digit.
proof fn lemma_decimal_first(n: nat)
    ensures
        decimal(n).len() > 0,
        decimal(n)[0] != '+',
        n > 0 ==> decimal(n)[0] != '0',
    decreases n,
{
    if n < 10 {
        lemma_digit_char(n);
    } else {
        lemma_decimal_first(n / 10);
        assert(decimal(n)[0] == decimal(n / 10)[0]);
    }
}

/// The first character of a hexadecimal text is a digit.
proof fn lemma_hex_first(n: nat)
    ensures
        hex(n).len() > 0,
        hex(n)[0] != '+',
        n > 0 ==> hex(n)[0] != '0',
    decreases n,
{
    if n < 16 {
        lemma_digit_char(n);
    } else {
        lemma_hex_first(n / 16);
        assert(hex(n)[0] == hex(n / 16)[0]);
    }
}

/// The lowercase hexadecimal text of a `u64` reads back as that number, and
/// has no leading zero.
pub proof fn law_hex_reads_back(n: u64)
    ensures
        parse_unsigned(hex(n as nat), 16) == Ok::<u64, IntErrorKind>(n),
        hex(n as nat).len() == 1 || hex(n as nat)[0] != '0',
    decreases n,
{
    let t = hex(n as nat);
    if n < 16 {
        lemma_digit_char(n as nat);
        assert(t.len() == 1 && t[0] == digit_char(n as nat));
        assert(t.drop_first() =~= Seq::<char>::empty());
        assert(scan_digits(t.drop_first(), 16, n as nat) == Ok::<u64, IntErrorKind>(n));
        assert(scan_digits(t, 16, 0) == Ok::<u64, IntErrorKind>(n));
        assert(t[0] != '+');
    } else {
        let q = (n / 16) as u64;
        law_hex_reads_back(q);
        let h = hex(q as nat);
        let x = digit_char((n % 16) as nat);
        lemma_digit_char((n % 16) as nat);
        lemma_hex_first(q as nat);
        assert(scan_digits(h, 16, 0) == Ok::<u64, IntErrorKind>(q));
        assert(q * 16 + (n % 16) == n);
        lemma_scan_push(h, 16, 0, q, x);
        assert(t == h.push(x));
        assert(t[0] == h[0]);
        assert(scan_digits(t, 16, 0) == Ok::<u64, IntErrorKind>(n));
    }
}

} // verus!
