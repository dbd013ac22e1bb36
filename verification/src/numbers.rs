//! Whole numbers as text and as bytes.

use vstd::prelude::*;

use crate::text;

verus! {

/// The value of a run of decimal digits.
pub open spec fn decimal_value(s: Seq<char>) -> nat
    decreases s.len(),
{
    if s.len() == 0 {
        0
    } else {
        decimal_value(s.drop_last()) * 10 + digit_value(s.last())
    }
}

/// The value of a decimal digit.
pub open spec fn digit_value(c: char) -> nat {
    if '0' <= c <= '9' {
        ((c as int) - ('0' as int)) as nat
    } else {
        0
    }
}

/// The number that a text of digits, with or without a `+` before them, is the decimal
/// notation of.
pub open spec fn natural(s: Seq<char>) -> Option<nat> {
    let digits = if s.len() > 0 && s[0] == '+' {
        s.skip(1)
    } else {
        s
    };
    if digits.len() > 0 && text::all_digits(digits) {
        Some(decimal_value(digits))
    } else {
        None
    }
}

/// The number that a text of digits, with or without a sign before them, is the decimal
/// notation of.
pub open spec fn integer(s: Seq<char>) -> Option<int> {
    if s.len() > 0 && s[0] == '-' {
        let digits = s.skip(1);
        if digits.len() > 0 && text::all_digits(digits) {
            Some(-(decimal_value(digits) as int))
        } else {
            None
        }
    } else {
        match natural(s) {
            Some(n) => Some(n as int),
            None => None,
        }
    }
}

/// A longer run of digits has no smaller value.
proof fn lemma_decimal_monotone(s: Seq<char>, i: int)
    requires
        0 <= i <= s.len(),
    ensures
        decimal_value(s.take(i)) <= decimal_value(s),
    decreases s.len() - i,
{
    if i < s.len() {
        lemma_decimal_monotone(s, i + 1);
        assert(s.take(i + 1).drop_last() == s.take(i));
    } else {
        assert(s.take(i) == s);
    }
}

/// The value of a run of digits, where it fits into 64 bits.
fn digits_value(s: &[char]) -> (r: Option<u64>)
    requires
        text::all_digits(s@),
    ensures
        match r {
            Some(n) => n == decimal_value(s@),
            None => decimal_value(s@) > u64::MAX,
        },
{
    let mut n: u64 = 0;
    let mut i: usize = 0;
    while i < s.len()
        invariant
            i <= s@.len(),
            text::all_digits(s@),
            n == decimal_value(s@.take(i as int)),
        decreases s@.len() - i,
    {
        proof {
            assert(s@.take(i + 1).drop_last() == s@.take(i as int));
            assert('0' <= s@[i as int] <= '9');
            lemma_decimal_monotone(s@, i + 1);
        }
        let d: u64 = (s[i] as u64) - ('0' as u64);
        match n.checked_mul(10) {
            Some(m) => match m.checked_add(d) {
                Some(k) => {
                    n = k;
                },
                None => {
                    return None;
                },
            },
            None => {
                return None;
            },
        }
        i = i + 1;
    }
    assert(s@.take(i as int) == s@);
    Some(n)
}

/// Reads a natural number that fits into 64 bits.
pub fn parse_u64(s: &[char]) -> (r: Option<u64>)
    ensures
        match r {
            Some(n) => natural(s@) == Some(n as nat),
            None => natural(s@) is None || natural(s@)->0 > u64::MAX,
        },
{
    let digits: &[char] = if s.len() > 0 && s[0] == '+' {
        text::slice_from(s, 1)
    } else {
        s
    };
    if digits.len() > 0 && text::only_digits(digits) {
        digits_value(digits)
    } else {
        None
    }
}

/// Reads a natural number that fits into 32 bits.
pub fn parse_u32(s: &[char]) -> (r: Option<u32>)
    ensures
        match r {
            Some(n) => natural(s@) == Some(n as nat),
            None => natural(s@) is None || natural(s@)->0 > u32::MAX,
        },
{
    match parse_u64(s) {
        Some(n) => if n <= 0xffff_ffff {
            Some(n as u32)
        } else {
            None
        },
        None => None,
    }
}

/// Reads a natural number that fits into 16 bits.
pub fn parse_u16(s: &[char]) -> (r: Option<u16>)
    ensures
        match r {
            Some(n) => natural(s@) == Some(n as nat),
            None => natural(s@) is None || natural(s@)->0 > u16::MAX,
        },
{
    match parse_u64(s) {
        Some(n) => if n <= 0xffff {
            Some(n as u16)
        } else {
            None
        },
        None => None,
    }
}

/// Reads a whole number that fits into 64 bits with its sign.
pub fn parse_i64(s: &[char]) -> (r: Option<i64>)
    ensures
        match r {
            Some(n) => integer(s@) == Some(n as int),
            None => integer(s@) is None || integer(s@)->0 > i64::MAX || integer(s@)->0
                < i64::MIN,
        },
{
    if s.len() > 0 && s[0] == '-' {
        let digits = text::slice_from(s, 1);
        if digits.len() == 0 || !text::only_digits(digits) {
            return None;
        }
        match digits_value(digits) {
            Some(n) => if n <= 0x7fff_ffff_ffff_ffff {
                Some(-(n as i64))
            } else if n == 0x8000_0000_0000_0000 {
                Some(i64::MIN)
            } else {
                None
            },
            None => None,
        }
    } else {
        match parse_u64(s) {
            Some(n) => if n <= 0x7fff_ffff_ffff_ffff {
                Some(n as i64)
            } else {
                None
            },
            None => None,
        }
    }
}

/// The digit of a value below sixteen.
pub open spec fn digit_char(d: nat) -> char {
    if d < 10 {
        (('0' as int) + d) as u8 as char
    } else {
        (('a' as int) + (d - 10)) as u8 as char
    }
}

/// The notation of a number in a base, without leading zeros.
pub open spec fn notation(n: nat, base: nat) -> Seq<char>
    decreases n,
{
    if base < 2 || n < base {
        seq![digit_char(n)]
    } else {
        proof {
            assert(n / base < n) by (nonlinear_arith)
                requires
                    n >= base,
                    base >= 2,
            ;
        }
        notation(n / base, base).push(digit_char(n % base))
    }
}

/// The decimal notation of a number.
pub open spec fn decimal(n: int) -> Seq<char> {
    if n < 0 {
        seq!['-'] + notation((-n) as nat, 10)
    } else {
        notation(n as nat, 10)
    }
}

fn digit(d: u64) -> (c: char)
    requires
        d < 16,
    ensures
        c == digit_char(d as nat),
{
    if d < 10 {
        ('0' as u8 + d as u8) as char
    } else {
        ('a' as u8 + (d as u8 - 10)) as char
    }
}

/// Writes a number in a base.
fn write_notation(n: u64, base: u64) -> (r: Vec<char>)
    requires
        2 <= base <= 16,
    ensures
        r@ == notation(n as nat, base as nat),
    decreases n,
{
    if n < base {
        let mut out: Vec<char> = Vec::new();
        out.push(digit(n));
        assert(out@ == seq![digit_char(n as nat)]);
        out
    } else {
        assert(n / base < n) by (nonlinear_arith)
            requires
                n >= base,
                base >= 2,
        ;
        assert(0 <= n % base < base) by (nonlinear_arith)
            requires
                base >= 2,
        ;
        let mut out = write_notation(n / base, base);
        out.push(digit(n % base));
        out
    }
}

/// The decimal notation of a natural number.
pub fn decimal_of_u64(n: u64) -> (r: String)
    ensures
        r@ == decimal(n as int),
{
    text::string_of(write_notation(n, 10).as_slice())
}

/// The decimal notation of a whole number.
pub fn decimal_of_i64(n: i64) -> (r: String)
    ensures
        r@ == decimal(n as int),
{
    if n < 0 {
        let m: u64 = if n == i64::MIN {
            0x8000_0000_0000_0000
        } else {
            (-n) as u64
        };
        let digits = write_notation(m, 10);
        let mut out: Vec<char> = Vec::new();
        out.push('-');
        text::append_chars(&mut out, digits.as_slice());
        text::string_of(out.as_slice())
    } else {
        decimal_of_u64(n as u64)
    }
}

/// The hexadecimal notation of a natural number.
pub fn hex_of_u64(n: u64) -> (r: String)
    ensures
        r@ == notation(n as nat, 16),
{
    text::string_of(write_notation(n, 16).as_slice())
}

/// The number that four bytes make, the least significant byte first.
pub open spec fn le_value(b: Seq<u8>) -> nat
    recommends
        b.len() == 4,
{
    b[0] as nat + 256 * (b[1] as nat) + 65536 * (b[2] as nat) + 16777216 * (b[3] as nat)
}

/// The four bytes of a number, the least significant byte first.
pub open spec fn le_bytes(x: u32) -> Seq<u8> {
    seq![
        (x % 256) as u8,
        (x / 256 % 256) as u8,
        (x / 65536 % 256) as u8,
        (x / 16777216) as u8,
    ]
}

/// Four bytes give back the number that they were made of.
pub proof fn lemma_le_round_trip(x: u32)
    ensures
        le_bytes(x).len() == 4,
        le_value(le_bytes(x)) == x,
{
}

/// Reads the number at position `i`, the least significant byte first.
pub fn read_le(data: &[u8], i: usize) -> (r: u32)
    requires
        i + 4 <= data@.len(),
    ensures
        r == le_value(data@.subrange(i as int, i + 4)),
{
    data[i] as u32 + 256 * (data[i + 1] as u32) + 65536 * (data[i + 2] as u32) + 16777216 * (data[i
        + 3] as u32)
}

/// Appends the four bytes of a number, the least significant byte first.
pub fn push_le(out: &mut Vec<u8>, x: u32)
    ensures
        final(out)@ == old(out)@ + le_bytes(x),
{
    out.push((x % 256) as u8);
    out.push((x / 256 % 256) as u8);
    out.push((x / 65536 % 256) as u8);
    out.push((x / 16777216) as u8);
}

/// The digit of a value below ten has that value.
proof fn lemma_digit(d: nat)
    requires
        d < 10,
    ensures
        '0' <= digit_char(d) <= '9',
        digit_value(digit_char(d)) == d,
{
}

/// The notation of a number in base ten is made of digits, and has its value.
proof fn lemma_notation(n: nat)
    ensures
        notation(n, 10).len() > 0,
        text::all_digits(notation(n, 10)),
        decimal_value(notation(n, 10)) == n,
    decreases n,
{
    let s = notation(n, 10);
    if n < 10 {
        lemma_digit(n);
        assert(s == seq![digit_char(n)]);
        assert(s.drop_last() == Seq::<char>::empty());
        assert(decimal_value(Seq::empty()) == 0);
    } else {
        lemma_notation(n / 10);
        lemma_digit(n % 10);
        assert(s.drop_last() == notation(n / 10, 10));
        assert(s.last() == digit_char(n % 10));
    }
}

/// A whole number that is written is read back.
pub proof fn decimal_reads_back(n: int)
    ensures
        integer(decimal(n)) == Some(n),
        n >= 0 ==> natural(decimal(n)) == Some(n as nat),
{
    if n < 0 {
        let digits = notation((-n) as nat, 10);
        lemma_notation((-n) as nat);
        assert(decimal(n).skip(1) == digits);
    } else {
        lemma_notation(n as nat);
        let s = decimal(n);
        assert('0' <= s[0] <= '9');
    }
}

/// Four bytes are the digits of a number in base 256, the lowest first.
pub proof fn le_value_of_four(b: Seq<u8>)
    requires
        b.len() == 4,
    ensures
        le_value(b) == b[0] + 0x100 * b[1] + 0x1_0000 * b[2] + 0x100_0000 * b[3],
        le_value(b) <= u32::MAX,
{
}

/// A text is a natural number exactly if it is a run of digits, with or without a `+` before it.
pub proof fn digits_make_a_number(digits: Seq<char>)
    requires
        digits.len() > 0,
    ensures
        text::all_digits(digits) ==> natural(digits) == Some(decimal_value(digits)) && natural(
            seq!['+'] + digits,
        ) == Some(decimal_value(digits)) && integer(seq!['-'] + digits) == Some(
            -(decimal_value(digits) as int),
        ),
        !text::all_digits(digits) && digits[0] != '+' ==> natural(digits) is None && natural(
            seq!['+'] + digits,
        ) is None && integer(seq!['-'] + digits) is None,
{
    assert((seq!['+'] + digits).skip(1) =~= digits);
    assert((seq!['-'] + digits).skip(1) =~= digits);
    if text::all_digits(digits) {
        assert('0' <= digits[0] <= '9');
    }
}

/// A digit more makes a number ten times as large, and adds its value.
pub proof fn one_more_digit(s: Seq<char>, d: nat)
    requires
        d < 10,
    ensures
        decimal_value(s.push(digit_char(d))) == 10 * decimal_value(s) + d,
{
    lemma_digit(d);
    assert(s.push(digit_char(d)).drop_last() =~= s);
}

/// Different numbers have different hexadecimal notations.
pub proof fn hex_notations_differ(m: nat, n: nat)
    requires
        notation(m, 16) == notation(n, 16),
    ensures
        m == n,
    decreases m,
{
    let s = notation(m, 16);
    let t = notation(n, 16);
    lemma_notation_length(m / 16);
    lemma_notation_length(n / 16);
    if m < 16 && n < 16 {
        assert(s[0] == digit_char(m) && t[0] == digit_char(n));
    } else if m < 16 {
        assert(t.len() >= 2);
    } else if n < 16 {
        assert(s.len() >= 2);
    } else {
        assert(s.drop_last() =~= notation(m / 16, 16));
        assert(t.drop_last() =~= notation(n / 16, 16));
        assert(s.last() == digit_char(m % 16) && t.last() == digit_char(n % 16));
        hex_notations_differ(m / 16, n / 16);
        assert(m % 16 == n % 16);
    }
}

proof fn lemma_notation_length(n: nat)
    ensures
        notation(n, 16).len() >= 1,
    decreases n,
{
    if n >= 16 {
        lemma_notation_length(n / 16);
    }
}

/// The digits up to nine are those of decimal numbers, and those behind are the first small
/// letters.
pub proof fn digits_stand_in_order(d: nat)
    requires
        d < 16,
    ensures
        d < 10 ==> digit_char(d) as nat == '0' as nat + d,
        d >= 10 ==> digit_char(d) as nat == 'a' as nat + d - 10,
{
}

/// A number without a sign is written in digits alone.
pub proof fn decimal_is_digits(n: nat)
    ensures
        decimal(n as int).len() > 0,
        text::all_digits(decimal(n as int)),
{
    lemma_notation(n);
}

} // verus!
