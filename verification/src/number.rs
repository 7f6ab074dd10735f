//! Numbers written down and read back.
use vstd::prelude::*;

use crate::text::{chars_of, join};

verus! {

/// The numeral of `d`: `0` to `9`, then `A` to `F`.
pub open spec fn digit_char(d: nat) -> char {
    if d < 10 {
        (d + 0x30) as char
    } else {
        (d + 0x37) as char
    }
}

/// The numeral of `n` in base `base`, without leading zeros.
pub open spec fn numeral(n: nat, base: nat) -> Seq<char>
    decreases n,
{
    if base < 2 || n < base {
        seq![digit_char(n)]
    } else {
        proof {
            assert(n / base < n) by (nonlinear_arith)
                requires
                    n >= base,
                    base >= 2,
            ;
        }
        numeral(n / base, base).push(digit_char(n % base))
    }
}

/// The decimal numeral of `n`.
pub open spec fn decimal(n: nat) -> Seq<char> {
    numeral(n, 10)
}

/// The hexadecimal numeral of `n`, in capital letters.
pub open spec fn hex(n: nat) -> Seq<char> {
    numeral(n, 16)
}

/// The decimal numeral of `n`, with a minus sign before a negative one.
pub open spec fn signed_decimal(n: int) -> Seq<char> {
    if n < 0 {
        seq!['-'] + decimal((-n) as nat)
    } else {
        decimal(n as nat)
    }
}

/// The value of a decimal or hexadecimal digit; 16 for any other character.
pub open spec fn digit_value(c: char) -> nat {
    if '0' <= c <= '9' {
        (c as nat - 0x30) as nat
    } else if 'A' <= c <= 'F' {
        (c as nat - 0x37) as nat
    } else {
        16
    }
}

/// Every character of `s` is a digit in base `base`.
pub open spec fn all_digits(s: Seq<char>, base: nat) -> bool {
    forall|i: int| 0 <= i < s.len() ==> digit_value(#[trigger] s[i]) < base
}

/// The number that the digits of `s` write down.
pub open spec fn value(s: Seq<char>, base: nat) -> nat
    decreases s.len(),
{
    if s.len() == 0 {
        0
    } else {
        value(s.drop_last(), base) * base + digit_value(s.last())
    }
}

proof fn lemma_digit_char(d: nat)
    requires
        d < 16,
    ensures
        digit_value(digit_char(d)) == d,
{
}

/// A numeral has at least one character, all of them digits, and its value is
/// the number that it was written for.
pub proof fn numeral_reads_back(n: nat, base: nat)
    requires
        2 <= base <= 16,
    ensures
        numeral(n, base).len() > 0,
        all_digits(numeral(n, base), base),
        value(numeral(n, base), base) == n,
    decreases n,
{
    let s = numeral(n, base);
    if n < base {
        lemma_digit_char(n);
        assert(s.drop_last() =~= Seq::<char>::empty());
        assert(value(s.drop_last(), base) == 0);
        assert(0 * base == 0) by (nonlinear_arith);
    } else {
        assert(n / base < n) by (nonlinear_arith)
            requires
                n >= base,
                base >= 2,
        ;
        assert(n % base < base && n == (n / base) * base + n % base) by (nonlinear_arith)
            requires
                base >= 2,
        ;
        numeral_reads_back(n / base, base);
        lemma_digit_char(n % base);
        assert(s.drop_last() =~= numeral(n / base, base));
    }
}

/// Different numbers have different numerals.
pub proof fn numeral_injective(a: nat, b: nat, base: nat)
    requires
        2 <= base <= 16,
        numeral(a, base) == numeral(b, base),
    ensures
        a == b,
{
    numeral_reads_back(a, base);
    numeral_reads_back(b, base);
}

fn digit(d: u64) -> (c: char)
    requires
        d < 16,
    ensures
        c == digit_char(d as nat),
{
    match d {
        0 => '0',
        1 => '1',
        2 => '2',
        3 => '3',
        4 => '4',
        5 => '5',
        6 => '6',
        7 => '7',
        8 => '8',
        9 => '9',
        10 => 'A',
        11 => 'B',
        12 => 'C',
        13 => 'D',
        14 => 'E',
        _ => 'F',
    }
}

fn write_numeral(n: u64, base: u64) -> (s: String)
    requires
        2 <= base <= 16,
    ensures
        s@ == numeral(n as nat, base as nat),
    decreases n,
{
    if n < base {
        let mut s = String::new();
        s.push(digit(n));
        assert(s@ =~= seq![digit_char(n as nat)]);
        s
    } else {
        assert(n / base < n) by (nonlinear_arith)
            requires
                n >= base,
                base >= 2,
        ;
        let mut s = write_numeral(n / base, base);
        s.push(digit(n % base));
        s
    }
}

/// The decimal numeral of `n`.
pub fn to_decimal(n: u64) -> (s: String)
    ensures
        s@ == decimal(n as nat),
{
    write_numeral(n, 10)
}

/// The hexadecimal numeral of `n`, in capital letters.
pub fn to_hex(n: u64) -> (s: String)
    ensures
        s@ == hex(n as nat),
{
    write_numeral(n, 16)
}

/// The decimal numeral of `n`, with a minus sign before a negative one.
pub fn to_signed_decimal(n: i64) -> (s: String)
    requires
        n > i64::MIN,
    ensures
        s@ == signed_decimal(n as int),
{
    if n < 0 {
        let s = join("-", to_decimal((-n) as u64).as_str());
        proof {
            reveal_strlit("-");
            assert("-"@ =~= seq!['-']);
        }
        s
    } else {
        to_decimal(n as u64)
    }
}

// ── Reading ─────────────────────────────────────────────────────────────────

/// What follows a plus sign, or the whole of `s` where it has none.
pub open spec fn after_plus(s: Seq<char>) -> Seq<char> {
    if s.len() > 0 && s[0] == '+' {
        s.skip(1)
    } else {
        s
    }
}

/// The number that `s` writes in digits, where it is at most `max`.
pub open spec fn bounded(s: Seq<char>, max: nat) -> Option<nat> {
    if s.len() > 0 && all_digits(s, 10) && value(s, 10) <= max {
        Some(value(s, 10))
    } else {
        None
    }
}

/// The number up to `max` that `s` writes: an optional plus sign, then one or
/// more digits, and nothing else.
pub open spec fn parsed(s: Seq<char>, max: nat) -> Option<nat> {
    bounded(after_plus(s), max)
}

/// The number from `-max - 1` to `max` that `s` writes: an optional sign, then
/// one or more digits, and nothing else.
pub open spec fn parsed_signed(s: Seq<char>, max: nat) -> Option<int> {
    if s.len() > 0 && s[0] == '-' {
        match bounded(s.skip(1), max + 1) {
            Some(v) => Some(-(v as int)),
            None => None,
        }
    } else {
        match parsed(s, max) {
            Some(v) => Some(v as int),
            None => None,
        }
    }
}

proof fn lemma_value_grows(s: Seq<char>, i: int)
    requires
        0 <= i <= s.len(),
    ensures
        value(s.take(i), 10) <= value(s, 10),
    decreases s.len() - i,
{
    if i < s.len() {
        lemma_value_grows(s, i + 1);
        assert(s.take(i + 1).drop_last() =~= s.take(i));
    } else {
        assert(s.take(i) =~= s);
    }
}

fn read_digits(cs: &Vec<char>, from: usize, max: u64) -> (r: Option<u64>)
    requires
        from <= cs@.len(),
        max <= 0xffff_ffff,
    ensures
        match r {
            Some(v) => bounded(cs@.skip(from as int), max as nat) == Some(v as nat),
            None => bounded(cs@.skip(from as int), max as nat) is None,
        },
{
    let ghost s = cs@.skip(from as int);
    let n = cs.len();
    if from == n {
        return None;
    }
    let mut v: u64 = 0;
    let mut i: usize = from;
    assert(s.take(0) =~= Seq::<char>::empty());
    while i < n
        invariant
            from <= i <= n,
            n == cs@.len(),
            s == cs@.skip(from as int),
            max <= 0xffff_ffff,
            v <= max,
            v == value(s.take(i - from), 10),
            forall|j: int| 0 <= j < i - from ==> digit_value(#[trigger] s[j]) < 10,
        decreases n - i,
    {
        let c = cs[i];
        assert(s[i - from] == c);
        if c < '0' || c > '9' {
            assert(digit_value(s[i - from]) >= 10);
            return None;
        }
        let d = (c as u64) - 0x30;
        assert(s.take(i + 1 - from).drop_last() =~= s.take(i - from));
        assert(s.take(i + 1 - from).last() == c);
        v = v * 10 + d;
        if v > max {
            proof {
                lemma_value_grows(s, i + 1 - from);
            }
            return None;
        }
        i = i + 1;
    }
    assert(s.take(n - from) =~= s);
    Some(v)
}

fn read_unsigned(s: &str, max: u64) -> (r: Option<u64>)
    requires
        max <= 0xffff_ffff,
    ensures
        match r {
            Some(v) => parsed(s@, max as nat) == Some(v as nat),
            None => parsed(s@, max as nat) is None,
        },
{
    let cs = chars_of(s);
    assert(s@.skip(0) =~= s@);
    if cs.len() > 0 && cs[0] == '+' {
        read_digits(&cs, 1, max)
    } else {
        read_digits(&cs, 0, max)
    }
}

/// Reads a `u8`, as `str::parse` does.
pub fn parse_u8(s: &str) -> (r: Option<u8>)
    ensures
        match r {
            Some(v) => parsed(s@, u8::MAX as nat) == Some(v as nat),
            None => parsed(s@, u8::MAX as nat) is None,
        },
{
    match read_unsigned(s, 0xff) {
        Some(v) => Some(v as u8),
        None => None,
    }
}

/// Reads a `u16`, as `str::parse` does.
pub fn parse_u16(s: &str) -> (r: Option<u16>)
    ensures
        match r {
            Some(v) => parsed(s@, u16::MAX as nat) == Some(v as nat),
            None => parsed(s@, u16::MAX as nat) is None,
        },
{
    match read_unsigned(s, 0xffff) {
        Some(v) => Some(v as u16),
        None => None,
    }
}

/// Reads a `u32`, as `str::parse` does.
pub fn parse_u32(s: &str) -> (r: Option<u32>)
    ensures
        match r {
            Some(v) => parsed(s@, u32::MAX as nat) == Some(v as nat),
            None => parsed(s@, u32::MAX as nat) is None,
        },
{
    match read_unsigned(s, 0xffff_ffff) {
        Some(v) => Some(v as u32),
        None => None,
    }
}

/// Reads an `i32`, as `str::parse` does.
pub fn parse_i32(s: &str) -> (r: Option<i32>)
    ensures
        match r {
            Some(v) => parsed_signed(s@, i32::MAX as nat) == Some(v as int),
            None => parsed_signed(s@, i32::MAX as nat) is None,
        },
{
    let cs = chars_of(s);
    if cs.len() > 0 && cs[0] == '-' {
        match read_digits(&cs, 1, 0x8000_0000) {
            Some(v) => Some((-(v as i64)) as i32),
            None => None,
        }
    } else {
        match read_unsigned(s, 0x7fff_ffff) {
            Some(v) => Some(v as i32),
            None => None,
        }
    }
}

/// A decimal numeral is read back as the number that it was written for,
/// wherever the number is within the bound.
pub proof fn decimal_parses_back(n: nat, max: nat)
    requires
        n <= max,
    ensures
        parsed(decimal(n), max) == Some(n),
{
    numeral_reads_back(n, 10);
    let s = decimal(n);
    assert(digit_value(s[0]) < 10);
    assert(after_plus(s) == s);
}

// ── Laws ────────────────────────────────────────────────────────────────────

/// A numeral, digit by digit: the last one is that of the remainder, `0` to `9` and
/// then `A` to `F`, and before it stands the numeral of the quotient, if that is not 0.
pub proof fn a_numeral_ends_with_the_remainder(n: nat, base: nat)
    requires
        2 <= base <= 16,
    ensures
        n < base ==> numeral(n, base) == seq!["0123456789ABCDEF"@[n as int]],
        n >= base ==> numeral(n, base) == numeral(n / base, base).push(
            "0123456789ABCDEF"@[(n % base) as int],
        ),
{
    reveal_strlit("0123456789ABCDEF");
    let d = if n < base { n } else { n % base };
    assert(d < base) by (nonlinear_arith)
        requires
            base >= 2,
            n < base ==> d == n,
            n >= base ==> d == n % base,
    ;
    let all = "0123456789ABCDEF"@;
    assert(all[0] == '0' && all[1] == '1' && all[2] == '2' && all[3] == '3' && all[4] == '4'
        && all[5] == '5' && all[6] == '6' && all[7] == '7' && all[8] == '8' && all[9] == '9'
        && all[10] == 'A' && all[11] == 'B' && all[12] == 'C' && all[13] == 'D' && all[14] == 'E'
        && all[15] == 'F');
    assert(digit_char(d) == all[d as int]);
}

/// A negative number has a minus sign before its numeral, and no other has.
pub proof fn only_negative_numbers_have_a_sign(n: nat)
    ensures
        signed_decimal(n as int) == decimal(n),
        n > 0 ==> signed_decimal(-(n as int)) == seq!['-'] + decimal(n),
{
}

proof fn lemma_more_digits(s: Seq<char>, c: char)
    ensures
        value(s.push(c), 10) == value(s, 10) * 10 + digit_value(c),
        all_digits(s.push(c), 10) <==> all_digits(s, 10) && '0' <= c <= '9',
{
    let t = s.push(c);
    assert(t.drop_last() =~= s);
    if all_digits(t, 10) {
        assert(digit_value(t[s.len() as int]) < 10);
        assert forall|i: int| 0 <= i < s.len() implies digit_value(#[trigger] s[i]) < 10 by {
            assert(t[i] == s[i]);
        }
    }
}

/// A number is read digit by digit. One digit is its value; one more digit makes ten
/// times as much and the digit, which is read as long as it is within the bound; any
/// other character behind spoils it. A plus sign may stand before the digits.
pub proof fn a_number_is_read_by_its_digits(s: Seq<char>, c: char, max: nat)
    requires
        s.len() > 0,
        s[0] != '+',
    ensures
        parsed(s, max) matches Some(v) ==> parsed(s.push(c), max) == (if '0' <= c <= '9' && v * 10
            + (c as nat - 0x30) <= max {
            Some((v * 10 + (c as nat - 0x30)) as nat)
        } else {
            None
        }),
        parsed(s, max) is None ==> parsed(s.push(c), max) is None,
        parsed(seq!['+'] + s, max) == parsed(s, max),
        parsed(seq!['+', '+'] + s, max) is None,
        '0' <= c <= '9' && c as nat - 0x30 <= max ==> parsed(seq![c], max) == Some(
            (c as nat - 0x30) as nat,
        ),
        c < '0' || c > '9' ==> parsed(seq![c], max) is None,
        parsed(Seq::empty(), max) is None,
{
    let t = s.push(c);
    lemma_more_digits(s, c);
    assert(t[0] == s[0]);
    assert(after_plus(t) == t && after_plus(s) == s);
    assert((seq!['+'] + s).skip(1) =~= s);
    let two = seq!['+', '+'] + s;
    assert(two.skip(1)[0] == '+');
    assert(!all_digits(two.skip(1), 10));
    let one = Seq::<char>::empty().push(c);
    assert(seq![c] =~= one);
    lemma_more_digits(Seq::empty(), c);
    assert(value(Seq::empty(), 10) == 0);
    if c == '+' {
        assert(seq![c].skip(1).len() == 0);
    }
}

/// A minus sign before a number up to one more than the bound makes it negative;
/// without it the number is read as it is.
pub proof fn a_minus_sign_makes_negative(s: Seq<char>, max: nat)
    ensures
        s.len() > 0 && s[0] != '+' && s[0] != '-' ==> parsed_signed(seq!['-'] + s, max) == match parsed(
            s,
            max + 1,
        ) {
            Some(v) => Some(-(v as int)),
            None => None,
        },
        !(s.len() > 0 && s[0] == '-') ==> parsed_signed(s, max) == match parsed(s, max) {
            Some(v) => Some(v as int),
            None => None,
        },
        s.len() > 0 && (s[0] == '+' || s[0] == '-') ==> parsed_signed(seq!['-'] + s, max) is None,
        parsed_signed(seq!['-'], max) is None,
{
    let t = seq!['-'] + s;
    assert(t[0] == '-');
    assert(t.skip(1) =~= s);
    if s.len() > 0 && (s[0] == '+' || s[0] == '-') {
        assert(digit_value(s[0]) == 16);
        assert(!all_digits(s, 10));
    }
    assert(seq!['-'].skip(1).len() == 0);
}

} // verus!
