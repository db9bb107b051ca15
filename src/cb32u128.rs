//! A `u128` written in Crockford's Base32, without check digit.
use vstd::prelude::*;
use crate::text::{chars_of, string_of_chars};
use crate::prefixed::IdBody;

verus! {

/// A `u128` whose textual form is Crockford's Base32 without check digit.
#[derive(Clone, Copy, PartialEq, Eq, Structural, Hash, Debug)]
pub struct Cb32u128(pub u128);

/// Why a string is not a Crockford Base32 number.
#[derive(Clone, Copy, PartialEq, Eq, Structural, Debug)]
pub enum Cb32u128ParseError {
    InvalidDigit(char),
    UnsupportedCheckDigit(char),
}

/// What a single input character stands for.
#[derive(Clone, Copy, PartialEq, Eq, Structural, Debug)]
pub enum DigitClass {
    Digit(u8),
    CheckDigit,
    Invalid,
}

/// 2^128: arithmetic on the accumulator wraps modulo this.
pub open spec fn modulus() -> int {
    0x1_0000_0000_0000_0000int * 0x1_0000_0000_0000_0000int
}

/// The symbol written for the digit value `d` (0 to 31).
pub open spec fn crockford_digit(d: nat) -> char {
    if d == 0 { '0' } else if d == 1 { '1' } else if d == 2 { '2' } else if d == 3 { '3' }
    else if d == 4 { '4' } else if d == 5 { '5' } else if d == 6 { '6' } else if d == 7 { '7' }
    else if d == 8 { '8' } else if d == 9 { '9' } else if d == 10 { 'A' } else if d == 11 { 'B' }
    else if d == 12 { 'C' } else if d == 13 { 'D' } else if d == 14 { 'E' } else if d == 15 { 'F' }
    else if d == 16 { 'G' } else if d == 17 { 'H' } else if d == 18 { 'J' } else if d == 19 { 'K' }
    else if d == 20 { 'M' } else if d == 21 { 'N' } else if d == 22 { 'P' } else if d == 23 { 'Q' }
    else if d == 24 { 'R' } else if d == 25 { 'S' } else if d == 26 { 'T' } else if d == 27 { 'V' }
    else if d == 28 { 'W' } else if d == 29 { 'X' } else if d == 30 { 'Y' } else { 'Z' }
}

/// How an input character is read: case-insensitive, with `O` for 0 and `I`, `L` for 1;
/// `*`, `~`, `$`, `=` and `U` are check digits; everything else is invalid.
pub open spec fn classify(c: char) -> DigitClass {
    match c {
        '0' | 'O' | 'o' => DigitClass::Digit(0),
        '1' | 'I' | 'i' | 'L' | 'l' => DigitClass::Digit(1),
        '2' => DigitClass::Digit(2),
        '3' => DigitClass::Digit(3),
        '4' => DigitClass::Digit(4),
        '5' => DigitClass::Digit(5),
        '6' => DigitClass::Digit(6),
        '7' => DigitClass::Digit(7),
        '8' => DigitClass::Digit(8),
        '9' => DigitClass::Digit(9),
        'A' | 'a' => DigitClass::Digit(10),
        'B' | 'b' => DigitClass::Digit(11),
        'C' | 'c' => DigitClass::Digit(12),
        'D' | 'd' => DigitClass::Digit(13),
        'E' | 'e' => DigitClass::Digit(14),
        'F' | 'f' => DigitClass::Digit(15),
        'G' | 'g' => DigitClass::Digit(16),
        'H' | 'h' => DigitClass::Digit(17),
        'J' | 'j' => DigitClass::Digit(18),
        'K' | 'k' => DigitClass::Digit(19),
        'M' | 'm' => DigitClass::Digit(20),
        'N' | 'n' => DigitClass::Digit(21),
        'P' | 'p' => DigitClass::Digit(22),
        'Q' | 'q' => DigitClass::Digit(23),
        'R' | 'r' => DigitClass::Digit(24),
        'S' | 's' => DigitClass::Digit(25),
        'T' | 't' => DigitClass::Digit(26),
        'V' | 'v' => DigitClass::Digit(27),
        'W' | 'w' => DigitClass::Digit(28),
        'X' | 'x' => DigitClass::Digit(29),
        'Y' | 'y' => DigitClass::Digit(30),
        'Z' | 'z' => DigitClass::Digit(31),
        '*' | '~' | '$' | '=' | 'U' | 'u' => DigitClass::CheckDigit,
        _ => DigitClass::Invalid,
    }
}

/// The canonical form of `v`: its shortest base-32 numeral, high digit first, and `"0"` for 0.
pub open spec fn crockford_render(v: nat) -> Seq<char>
    decreases v,
{
    if v < 32 {
        seq![crockford_digit(v)]
    } else {
        crockford_render(v / 32).push(crockford_digit(v % 32))
    }
}

/// Reading `s` left to right, `acc = acc * 32 + digit` modulo 2^128; the first character
/// that is not a digit decides the error.
pub open spec fn crockford_parse(s: Seq<char>) -> Result<Cb32u128, Cb32u128ParseError>
    decreases s.len(),
{
    if s.len() == 0 {
        Ok(Cb32u128(0))
    } else {
        match crockford_parse(s.drop_last()) {
            Err(e) => Err(e),
            Ok(acc) => match classify(s.last()) {
                DigitClass::Digit(d) => Ok(Cb32u128(((acc.0 as int * 32 + d as int) % modulus()) as u128)),
                DigitClass::CheckDigit => Err(Cb32u128ParseError::UnsupportedCheckDigit(s.last())),
                DigitClass::Invalid => Err(Cb32u128ParseError::InvalidDigit(s.last())),
            },
        }
    }
}

/// The symbol for digit value `d`.
pub fn crockford_symbol(d: u8) -> (c: char)
    requires
        d < 32,
    ensures
        c == crockford_digit(d as nat),
{
    match d {
        0 => '0', 1 => '1', 2 => '2', 3 => '3', 4 => '4', 5 => '5', 6 => '6', 7 => '7',
        8 => '8', 9 => '9', 10 => 'A', 11 => 'B', 12 => 'C', 13 => 'D', 14 => 'E', 15 => 'F',
        16 => 'G', 17 => 'H', 18 => 'J', 19 => 'K', 20 => 'M', 21 => 'N', 22 => 'P', 23 => 'Q',
        24 => 'R', 25 => 'S', 26 => 'T', 27 => 'V', 28 => 'W', 29 => 'X', 30 => 'Y', _ => 'Z',
    }
}

/// How the character `c` is read by the parser.
pub fn classify_char(c: char) -> (r: DigitClass)
    ensures
        r == classify(c),
{
    match c {
        '0' | 'O' | 'o' => DigitClass::Digit(0),
        '1' | 'I' | 'i' | 'L' | 'l' => DigitClass::Digit(1),
        '2' => DigitClass::Digit(2),
        '3' => DigitClass::Digit(3),
        '4' => DigitClass::Digit(4),
        '5' => DigitClass::Digit(5),
        '6' => DigitClass::Digit(6),
        '7' => DigitClass::Digit(7),
        '8' => DigitClass::Digit(8),
        '9' => DigitClass::Digit(9),
        'A' | 'a' => DigitClass::Digit(10),
        'B' | 'b' => DigitClass::Digit(11),
        'C' | 'c' => DigitClass::Digit(12),
        'D' | 'd' => DigitClass::Digit(13),
        'E' | 'e' => DigitClass::Digit(14),
        'F' | 'f' => DigitClass::Digit(15),
        'G' | 'g' => DigitClass::Digit(16),
        'H' | 'h' => DigitClass::Digit(17),
        'J' | 'j' => DigitClass::Digit(18),
        'K' | 'k' => DigitClass::Digit(19),
        'M' | 'm' => DigitClass::Digit(20),
        'N' | 'n' => DigitClass::Digit(21),
        'P' | 'p' => DigitClass::Digit(22),
        'Q' | 'q' => DigitClass::Digit(23),
        'R' | 'r' => DigitClass::Digit(24),
        'S' | 's' => DigitClass::Digit(25),
        'T' | 't' => DigitClass::Digit(26),
        'V' | 'v' => DigitClass::Digit(27),
        'W' | 'w' => DigitClass::Digit(28),
        'X' | 'x' => DigitClass::Digit(29),
        'Y' | 'y' => DigitClass::Digit(30),
        'Z' | 'z' => DigitClass::Digit(31),
        '*' | '~' | '$' | '=' | 'U' | 'u' => DigitClass::CheckDigit,
        _ => DigitClass::Invalid,
    }
}

impl Cb32u128 {
    /// The canonical Crockford Base32 form of the value.
    pub fn to_string(&self) -> (r: String)
        ensures
            r@ == crockford_render(self.0 as nat),
            1 <= r@.len() <= 26,
            r@[0] == '0' <==> self.0 == 0,
            self.0 > 0 ==> pow32((r@.len() - 1) as nat) <= self.0 < pow32(r@.len()),
    {
        let mut x: u128 = self.0;
        let mut tail: Vec<char> = Vec::new();
        while x >= 32
            invariant
                crockford_render(self.0 as nat) == crockford_render(x as nat) + tail@,
            decreases x,
        {
            let c = crockford_symbol((x % 32) as u8);
            let ghost old_tail = tail@;
            tail.insert(0, c);
            assert(crockford_render(x as nat) == crockford_render((x / 32) as nat).push(c));
            assert(crockford_render(x as nat) + old_tail =~= crockford_render((x / 32) as nat)
                + tail@);
            x = x / 32;
        }
        let c = crockford_symbol(x as u8);
        tail.insert(0, c);
        assert(crockford_render(self.0 as nat) =~= tail@);
        proof {
            lemma_render_len(self.0 as nat);
            lemma_render_leading(self.0 as nat);
            if self.0 > 0 {
                lemma_render_len_exact(self.0 as nat);
            }
        }
        string_of_chars(&tail)
    }

    /// Reads a Crockford Base32 numeral; the empty string is 0 and overlong input wraps.
    pub fn parse(s: &str) -> (r: Result<Cb32u128, Cb32u128ParseError>)
        ensures
            r == crockford_parse(s@),
    {
        let chars = chars_of(s);
        let mut acc: u128 = 0;
        let mut i: usize = 0;
        while i < chars.len()
            invariant
                i <= chars.len(),
                chars@ == s@,
                crockford_parse(chars@.subrange(0, i as int)) == Ok::<Cb32u128, Cb32u128ParseError>(Cb32u128(acc)),
            decreases chars.len() - i,
        {
            let c = chars[i];
            let ghost prefix = chars@.subrange(0, i as int + 1);
            assert(prefix.drop_last() =~= chars@.subrange(0, i as int));
            assert(prefix.last() == c);
            match classify_char(c) {
                DigitClass::Digit(d) => {
                    let shifted = acc.wrapping_mul(32);
                    proof { lemma_shift_in(acc, d); }
                    acc = shifted + d as u128;
                },
                DigitClass::CheckDigit => {
                    proof { lemma_parse_stops(s@, i as int); }
                    return Err(Cb32u128ParseError::UnsupportedCheckDigit(c));
                },
                DigitClass::Invalid => {
                    proof { lemma_parse_stops(s@, i as int); }
                    return Err(Cb32u128ParseError::InvalidDigit(c));
                },
            }
            i = i + 1;
        }
        assert(chars@.subrange(0, i as int) =~= s@);
        Ok(Cb32u128(acc))
    }
}

impl View for Cb32u128 {
    type V = u128;

    open spec fn view(&self) -> u128 {
        self.0
    }
}

impl IdBody for Cb32u128 {
    type Err = Cb32u128ParseError;

    open spec fn spec_valid(v: u128) -> bool {
        true
    }

    open spec fn spec_render(v: u128) -> Seq<char> {
        crockford_render(v as nat)
    }

    open spec fn spec_parse(s: Seq<char>) -> Result<u128, Cb32u128ParseError> {
        match crockford_parse(s) {
            Ok(c) => Ok(c.0),
            Err(e) => Err(e),
        }
    }

    fn render(&self) -> (r: String) {
        self.to_string()
    }

    fn parse(s: &str) -> (r: Result<Cb32u128, Cb32u128ParseError>) {
        Cb32u128::parse(s)
    }

    proof fn lemma_parse_render(v: u128) {
        lemma_crockford_round_trip(v);
    }
}

impl core::str::FromStr for Cb32u128 {
    type Err = Cb32u128ParseError;

    fn from_str(s: &str) -> Result<Cb32u128, Cb32u128ParseError> {
        Cb32u128::parse(s)
    }
}

/// A character outside ASCII is never a digit.
pub proof fn lemma_non_ascii_invalid(c: char)
    requires
        c > '\u{7f}',
    ensures
        classify(c) == DigitClass::Invalid,
{
}

/// Multiplying by 32 modulo 2^128 leaves room for one more digit.
proof fn lemma_shift_in(acc: u128, d: u8)
    requires
        d < 32,
    ensures
        (acc as int * 32) % modulus() + d < modulus(),
        (acc as int * 32) % modulus() + d == (acc as int * 32 + d) % modulus(),
{
    let m = modulus() as int;
    let p = acc as int * 32;
    let q = p % m;
    assert(m == 32 * 0x800_0000_0000_0000_0000_0000_0000_0000);
    assert(q % 32 == 0) by (nonlinear_arith)
        requires q == p % m, p == acc as int * 32, m == 32 * 0x800_0000_0000_0000_0000_0000_0000_0000;
    assert(q + d < m) by (nonlinear_arith)
        requires q % 32 == 0, 0 <= q < m, d < 32, m == 32 * 0x800_0000_0000_0000_0000_0000_0000_0000;
    assert((p + d) % m == q + d) by (nonlinear_arith)
        requires q == p % m, q + d < m, 0 <= d, m > 0;
}

/// Once a prefix of `s` ends in a non-digit, parsing `s` fails with that prefix's error.
proof fn lemma_parse_stops(s: Seq<char>, i: int)
    requires
        0 <= i < s.len(),
        crockford_parse(s.subrange(0, i + 1)) is Err,
    ensures
        crockford_parse(s) == crockford_parse(s.subrange(0, i + 1)),
    decreases s.len(),
{
    if s.len() == i + 1 {
        assert(s.subrange(0, i + 1) =~= s);
    } else {
        assert(s.drop_last().subrange(0, i + 1) =~= s.subrange(0, i + 1));
        lemma_parse_stops(s.drop_last(), i);
    }
}

/// 32 to the power `k`.
pub open spec fn pow32(k: nat) -> nat
    decreases k,
{
    if k == 0 { 1 } else { 32 * pow32((k - 1) as nat) }
}

/// A value below 32^k has at most k digits.
proof fn lemma_render_len_below(v: nat, k: nat)
    requires
        k >= 1,
        v < pow32(k),
    ensures
        1 <= crockford_render(v).len() <= k,
    decreases v,
{
    if v >= 32 {
        assert(k >= 2) by {
            if k == 1 {
                assert(pow32(1) == 32 * pow32(0));
            }
        }
        let p = pow32((k - 1) as nat);
        assert(v / 32 < p) by (nonlinear_arith)
            requires v < 32 * p, v >= 32;
        lemma_render_len_below(v / 32, (k - 1) as nat);
    }
}

/// Every 128-bit value renders to between 1 and 26 characters.
pub proof fn lemma_render_len(v: nat)
    requires
        v < modulus(),
    ensures
        1 <= crockford_render(v).len() <= 26,
{
    reveal_with_fuel(pow32, 27);
    assert(pow32(26) == 4 * modulus());
    lemma_render_len_below(v, 26);
}

/// A value `v > 0` renders to exactly `k` digits, where `32^(k-1) <= v < 32^k`: one digit
/// for every five bits of `v`, rounded up.
pub proof fn lemma_render_len_exact(v: nat)
    requires
        v > 0,
    ensures
        pow32((crockford_render(v).len() - 1) as nat) <= v < pow32(crockford_render(v).len()),
    decreases v,
{
    let n = crockford_render(v).len();
    if v < 32 {
        assert(n == 1);
        assert(pow32(1) == 32 * pow32(0));
    } else {
        lemma_render_len_exact(v / 32);
        let m = crockford_render(v / 32).len();
        assert(n == m + 1);
        let lo = pow32((m - 1) as nat);
        let hi = pow32(m);
        assert(pow32(n) == 32 * hi);
        assert(pow32((n - 1) as nat) == hi);
        assert(m >= 1);
        assert(pow32(m) == 32 * lo);
        assert(32 * lo <= v < 32 * hi) by (nonlinear_arith)
            requires
                lo <= v / 32 < hi,
                v >= 32,
        ;
    }
}

/// The canonical form starts with `'0'` exactly when the value is 0, and then it is `"0"`.
pub proof fn lemma_render_leading(v: nat)
    ensures
        crockford_render(v)[0] == '0' <==> v == 0,
        v == 0 ==> crockford_render(v) == seq!['0'],
    decreases v,
{
    if v >= 32 {
        lemma_render_leading(v / 32);
        assert(crockford_render(v)[0] == crockford_render(v / 32)[0]);
    }
}

/// Each symbol reads back as its own digit value.
proof fn lemma_symbol_reads_back(d: nat)
    requires
        d < 32,
    ensures
        classify(crockford_digit(d)) == DigitClass::Digit(d as u8),
{
}

/// Parsing the canonical form of any 128-bit value gives that value back.
pub proof fn lemma_crockford_round_trip(v: u128)
    ensures
        crockford_parse(crockford_render(v as nat)) == Ok::<Cb32u128, Cb32u128ParseError>(Cb32u128(v)),
    decreases v,
{
    let s = crockford_render(v as nat);
    if v < 32 {
        assert(s.drop_last() =~= Seq::<char>::empty());
        assert(crockford_parse(s.drop_last()) == Ok::<Cb32u128, Cb32u128ParseError>(Cb32u128(0)));
        assert(s.last() == crockford_digit(v as nat));
        lemma_symbol_reads_back(v as nat);
        assert((0int * 32 + v as int) % modulus() == v as int);
    } else {
        let q = v / 32;
        lemma_crockford_round_trip(q);
        assert(s.drop_last() =~= crockford_render(q as nat));
        lemma_symbol_reads_back((v % 32) as nat);
        assert(s.last() == crockford_digit((v % 32) as nat));
        assert((q as int * 32 + (v % 32) as int) % modulus() == v as int);
    }
}

} // verus!
