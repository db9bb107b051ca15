//! A 24-character base-36 identifier backed by a `u128`.
use vstd::prelude::*;
use crate::text::{chars_of, string_of_chars};
use crate::prefixed::IdBody;
use vstd::utf8::{encode_utf8, is_ascii_chars, is_ascii_chars_encode_utf8};
use vstd::string::StringSliceAdditionalSpecFns;

verus! {

/// A 24-character base-36 identifier; the value always has at most 24 base-36 digits.
#[derive(Clone, Copy, PartialEq, Eq, Structural, Hash, Debug)]
pub struct Cuid2(u128);

/// Why a string is not a Cuid2.
#[derive(Clone, Copy, PartialEq, Eq, Structural, Debug)]
pub enum Cuid2ParseError {
    WrongLength,
    IllegalCharacter,
}

/// 36 to the power `k`.
pub open spec fn pow36(k: nat) -> nat
    decreases k,
{
    if k == 0 { 1 } else { 36 * pow36((k - 1) as nat) }
}

/// The lowercase symbol for the base-36 digit `d` (0 to 35).
pub open spec fn base36_symbol(d: nat) -> char {
    if d == 0 { '0' }
    else if d == 1 { '1' }
    else if d == 2 { '2' }
    else if d == 3 { '3' }
    else if d == 4 { '4' }
    else if d == 5 { '5' }
    else if d == 6 { '6' }
    else if d == 7 { '7' }
    else if d == 8 { '8' }
    else if d == 9 { '9' }
    else if d == 10 { 'a' }
    else if d == 11 { 'b' }
    else if d == 12 { 'c' }
    else if d == 13 { 'd' }
    else if d == 14 { 'e' }
    else if d == 15 { 'f' }
    else if d == 16 { 'g' }
    else if d == 17 { 'h' }
    else if d == 18 { 'i' }
    else if d == 19 { 'j' }
    else if d == 20 { 'k' }
    else if d == 21 { 'l' }
    else if d == 22 { 'm' }
    else if d == 23 { 'n' }
    else if d == 24 { 'o' }
    else if d == 25 { 'p' }
    else if d == 26 { 'q' }
    else if d == 27 { 'r' }
    else if d == 28 { 's' }
    else if d == 29 { 't' }
    else if d == 30 { 'u' }
    else if d == 31 { 'v' }
    else if d == 32 { 'w' }
    else if d == 33 { 'x' }
    else if d == 34 { 'y' }
    else { 'z' }
}

/// The value of a base-36 digit, in either case.
pub open spec fn base36_value(c: char) -> Option<nat> {
    match c {
        '0' => Some(0),
        '1' => Some(1),
        '2' => Some(2),
        '3' => Some(3),
        '4' => Some(4),
        '5' => Some(5),
        '6' => Some(6),
        '7' => Some(7),
        '8' => Some(8),
        '9' => Some(9),
        'a' | 'A' => Some(10),
        'b' | 'B' => Some(11),
        'c' | 'C' => Some(12),
        'd' | 'D' => Some(13),
        'e' | 'E' => Some(14),
        'f' | 'F' => Some(15),
        'g' | 'G' => Some(16),
        'h' | 'H' => Some(17),
        'i' | 'I' => Some(18),
        'j' | 'J' => Some(19),
        'k' | 'K' => Some(20),
        'l' | 'L' => Some(21),
        'm' | 'M' => Some(22),
        'n' | 'N' => Some(23),
        'o' | 'O' => Some(24),
        'p' | 'P' => Some(25),
        'q' | 'Q' => Some(26),
        'r' | 'R' => Some(27),
        's' | 'S' => Some(28),
        't' | 'T' => Some(29),
        'u' | 'U' => Some(30),
        'v' | 'V' => Some(31),
        'w' | 'W' => Some(32),
        'x' | 'X' => Some(33),
        'y' | 'Y' => Some(34),
        'z' | 'Z' => Some(35),
        _ => None,
    }
}

/// `c` is the lowercase symbol of some base-36 digit.
pub open spec fn is_symbol36(c: char) -> bool {
    exists|d: nat| d < 36 && base36_symbol(d) == c
}

/// Every character of `s` is a base-36 digit, in either case.
pub open spec fn all_base36(s: Seq<char>) -> bool {
    forall|i: int| 0 <= i < s.len() ==> (#[trigger] base36_value(s[i])) is Some
}

/// The number that the base-36 digits `s` stand for, high digit first.
pub open spec fn base36_number(s: Seq<char>) -> nat
    decreases s.len(),
{
    if s.len() == 0 {
        0
    } else {
        base36_number(s.drop_last()) * 36 + match base36_value(s.last()) {
            Some(d) => d,
            None => 0,
        }
    }
}

/// The shortest base-36 numeral of `v` in lowercase, `"0"` for 0.
pub open spec fn base36_render(v: nat) -> Seq<char>
    decreases v,
{
    if v < 36 {
        seq![base36_symbol(v)]
    } else {
        base36_render(v / 36).push(base36_symbol(v % 36))
    }
}

/// `s` with `'0'` put in front until it is `k` characters long.
pub open spec fn pad_zeros(s: Seq<char>, k: nat) -> Seq<char> {
    if s.len() >= k {
        s
    } else {
        Seq::new((k - s.len()) as nat, |i: int| '0') + s
    }
}

/// The textual form of a Cuid2 holding `v`.
pub open spec fn cuid2_render(v: nat) -> Seq<char> {
    pad_zeros(base36_render(v), 24)
}

/// The little-endian reading of the two halves: `hi` is the low half, `lo` the high half.
pub open spec fn combine_halves(hi: u64, lo: u64) -> nat {
    lo as nat * 0x1_0000_0000_0000_0000 + hi as nat
}

/// The text of a generated identifier: the letter with index `letter`, then the base-36
/// numeral of `x` padded to 23 digits, cut to 24 characters.
pub open spec fn generated_text(letter: nat, x: nat) -> Seq<char> {
    (seq![base36_symbol(10 + letter)] + pad_zeros(base36_render(x), 23)).subrange(0, 24)
}

/// Relies on `radix_fmt::radix_36` displayed with `to_string`: the lowercase base-36
/// numeral of `x`, most significant digit first, `"0"` for 0.
#[verifier::external_body]
fn radix36(x: u128) -> (r: String)
    ensures
        r@ == base36_render(x as nat),
{
    radix_fmt::radix_36(x).to_string()
}

/// The symbol for base-36 digit `d`.
fn symbol36(d: u8) -> (c: char)
    requires
        d < 36,
    ensures
        c == base36_symbol(d as nat),
{
    match d {
        0 => '0',
        1 => '1',
        2 => '2',
        3 => '3',
        4 => '4',
        5 => '5',
        6 => '6',
        7 => '7',
        8 => '8',
        9 => '9',
        10 => 'a',
        11 => 'b',
        12 => 'c',
        13 => 'd',
        14 => 'e',
        15 => 'f',
        16 => 'g',
        17 => 'h',
        18 => 'i',
        19 => 'j',
        20 => 'k',
        21 => 'l',
        22 => 'm',
        23 => 'n',
        24 => 'o',
        25 => 'p',
        26 => 'q',
        27 => 'r',
        28 => 's',
        29 => 't',
        30 => 'u',
        31 => 'v',
        32 => 'w',
        33 => 'x',
        34 => 'y',
        _ => 'z',
    }
}

/// The value of a base-36 digit, in either case.
fn digit36(c: char) -> (r: Option<u8>)
    ensures
        r is Some <==> base36_value(c) is Some,
        r is Some ==> r->0 as nat == base36_value(c)->0,
{
    match c {
        '0' => Some(0),
        '1' => Some(1),
        '2' => Some(2),
        '3' => Some(3),
        '4' => Some(4),
        '5' => Some(5),
        '6' => Some(6),
        '7' => Some(7),
        '8' => Some(8),
        '9' => Some(9),
        'a' | 'A' => Some(10),
        'b' | 'B' => Some(11),
        'c' | 'C' => Some(12),
        'd' | 'D' => Some(13),
        'e' | 'E' => Some(14),
        'f' | 'F' => Some(15),
        'g' | 'G' => Some(16),
        'h' | 'H' => Some(17),
        'i' | 'I' => Some(18),
        'j' | 'J' => Some(19),
        'k' | 'K' => Some(20),
        'l' | 'L' => Some(21),
        'm' | 'M' => Some(22),
        'n' | 'N' => Some(23),
        'o' | 'O' => Some(24),
        'p' | 'P' => Some(25),
        'q' | 'Q' => Some(26),
        'r' | 'R' => Some(27),
        's' | 'S' => Some(28),
        't' | 'T' => Some(29),
        'u' | 'U' => Some(30),
        'v' | 'V' => Some(31),
        'w' | 'W' => Some(32),
        'x' | 'X' => Some(33),
        'y' | 'Y' => Some(34),
        'z' | 'Z' => Some(35),
        _ => None,
    }
}

/// `k` base-36 digits of `v`, high digit first, with leading zeros.
pub open spec fn fixed36(v: nat, k: nat) -> Seq<char>
    decreases k,
{
    if k == 0 {
        Seq::empty()
    } else {
        fixed36(v / 36, (k - 1) as nat).push(base36_symbol(v % 36))
    }
}

/// Each lowercase symbol reads back as its own digit value.
proof fn lemma_symbol36_reads_back(d: nat)
    requires
        d < 36,
    ensures
        base36_value(base36_symbol(d)) == Some(d),
{
}

/// A digit value is below 36.
proof fn lemma_value_below(c: char)
    ensures
        base36_value(c) is Some ==> base36_value(c)->0 < 36,
        base36_value(c) is Some ==> '\0' <= c <= '\u{7f}',
{
}

proof fn lemma_pow36_24()
    ensures
        pow36(24) == 22452257707354557240087211123792674816,
{
    reveal_with_fuel(pow36, 25);
}

/// The number of `k` digits is below 36^k.
proof fn lemma_number_bound(s: Seq<char>)
    requires
        all_base36(s),
    ensures
        base36_number(s) < pow36(s.len()),
    decreases s.len(),
{
    if s.len() > 0 {
        let t = s.drop_last();
        assert(all_base36(t)) by {
            assert forall|i: int| 0 <= i < t.len() implies (#[trigger] base36_value(t[i])) is Some by {
                assert(t[i] == s[i]);
            }
        }
        lemma_number_bound(t);
        assert(base36_value(s[s.len() - 1]) is Some);
        lemma_value_below(s.last());
        let d = base36_value(s.last())->0;
        let n = base36_number(t);
        let p = pow36(t.len());
        assert(n * 36 + d < 36 * p) by (nonlinear_arith)
            requires
                n < p,
                d < 36,
        ;
    }
}

/// A value below 36^k has at most k digits.
proof fn lemma_render36_len(v: nat, k: nat)
    requires
        k >= 1,
        v < pow36(k),
    ensures
        1 <= base36_render(v).len() <= k,
    decreases v,
{
    if v >= 36 {
        assert(k >= 2) by {
            if k == 1 {
                assert(pow36(1) == 36 * pow36(0));
            }
        }
        let p = pow36((k - 1) as nat);
        assert(v / 36 < p) by (nonlinear_arith)
            requires
                v < 36 * p,
                v >= 36,
        ;
        lemma_render36_len(v / 36, (k - 1) as nat);
    }
}

/// Every character of a base-36 numeral is a lowercase symbol.
proof fn lemma_render36_symbols(v: nat)
    ensures
        forall|i: int| 0 <= i < base36_render(v).len() ==> is_symbol36(#[trigger] base36_render(v)[i]),
    decreases v,
{
    if v < 36 {
        assert(is_symbol36(base36_symbol(v)));
    } else {
        lemma_render36_symbols(v / 36);
        assert(is_symbol36(base36_symbol(v % 36)));
        let s = base36_render(v);
        assert forall|i: int| 0 <= i < s.len() implies is_symbol36(#[trigger] s[i]) by {
            if i < s.len() - 1 {
                assert(s[i] == base36_render(v / 36)[i]);
            }
        }
    }
}

/// `k` zero digits are `k` zeros.
proof fn lemma_fixed36_zero(k: nat)
    ensures
        fixed36(0, k) == Seq::new(k, |i: int| '0'),
    decreases k,
{
    if k > 0 {
        lemma_fixed36_zero((k - 1) as nat);
        assert(fixed36(0, k) =~= Seq::new(k, |i: int| '0'));
    }
}

/// Padding the shortest numeral to `k` digits gives the `k`-digit form.
proof fn lemma_pad_is_fixed(v: nat, k: nat)
    requires
        k >= 1,
        v < pow36(k),
    ensures
        pad_zeros(base36_render(v), k) == fixed36(v, k),
    decreases k,
{
    if v < 36 {
        lemma_fixed36_zero((k - 1) as nat);
        assert(v / 36 == 0);
        assert(pad_zeros(base36_render(v), k) =~= fixed36(v, k));
    } else {
        assert(k >= 2) by {
            if k == 1 {
                assert(pow36(1) == 36 * pow36(0));
            }
        }
        let p = pow36((k - 1) as nat);
        assert(v / 36 < p) by (nonlinear_arith)
            requires
                v < 36 * p,
                v >= 36,
        ;
        lemma_pad_is_fixed(v / 36, (k - 1) as nat);
        lemma_render36_len(v / 36, (k - 1) as nat);
        let t = base36_render(v / 36);
        assert(pad_zeros(base36_render(v), k) =~= pad_zeros(t, (k - 1) as nat).push(base36_symbol(v % 36)));
    }
}

/// Lowercase digits are the fixed-width form of their own number.
proof fn lemma_fixed_of_number(t: Seq<char>)
    requires
        forall|i: int| 0 <= i < t.len() ==> is_symbol36(#[trigger] t[i]),
    ensures
        fixed36(base36_number(t), t.len()) == t,
    decreases t.len(),
{
    if t.len() > 0 {
        let u = t.drop_last();
        assert forall|i: int| 0 <= i < u.len() implies is_symbol36(#[trigger] u[i]) by {
            assert(u[i] == t[i]);
        }
        lemma_fixed_of_number(u);
        let c = t.last();
        assert(is_symbol36(t[t.len() - 1]));
        let d = choose|d: nat| d < 36 && base36_symbol(d) == c;
        lemma_symbol36_reads_back(d);
        let n = base36_number(u);
        assert((n * 36 + d) / 36 == n && (n * 36 + d) % 36 == d) by (nonlinear_arith)
            requires
                d < 36,
        ;
        assert(t =~= u.push(c));
    }
}

/// Twenty-four lowercase digits are the textual form of their own number.
pub proof fn lemma_render_number(t: Seq<char>)
    requires
        t.len() == 24,
        forall|i: int| 0 <= i < t.len() ==> is_symbol36(#[trigger] t[i]),
    ensures
        base36_number(t) < pow36(24),
        cuid2_render(base36_number(t)) == t,
{
    assert(all_base36(t)) by {
        assert forall|i: int| 0 <= i < t.len() implies (#[trigger] base36_value(t[i])) is Some by {
            assert(is_symbol36(t[i]));
            let d = choose|d: nat| d < 36 && base36_symbol(d) == t[i];
            lemma_symbol36_reads_back(d);
        }
    }
    lemma_number_bound(t);
    lemma_pad_is_fixed(base36_number(t), 24);
    lemma_fixed_of_number(t);
}

/// The number that at most 24 base-36 digits stand for.
fn number_of(chars: &Vec<char>) -> (r: u128)
    requires
        chars.len() <= 24,
        all_base36(chars@),
    ensures
        r as nat == base36_number(chars@),
{
    proof { lemma_pow36_24(); }
    let mut acc: u128 = 0;
    let mut i: usize = 0;
    while i < chars.len()
        invariant
            i <= chars.len() <= 24,
            all_base36(chars@),
            pow36(24) == 22452257707354557240087211123792674816,
            acc as nat == base36_number(chars@.subrange(0, i as int)),
            acc < pow36(i as nat),
        decreases chars.len() - i,
    {
        let c = chars[i];
        assert(base36_value(chars@[i as int]) is Some);
        let d = digit36(c);
        let dv = d.unwrap();
        proof { lemma_value_below(c); }
        let ghost prefix = chars@.subrange(0, i as int + 1);
        assert(prefix.drop_last() =~= chars@.subrange(0, i as int));
        assert(prefix.last() == c);
        proof {
            lemma_pow_mono(i as nat);
            let p = pow36(i as nat);
            assert(acc * 36 + dv < 36 * p) by (nonlinear_arith)
                requires
                    acc < p,
                    dv < 36,
            ;
        }
        acc = acc * 36 + dv as u128;
        i = i + 1;
    }
    assert(chars@.subrange(0, i as int) =~= chars@);
    acc
}

/// 36^i grows with i up to 36^24.
proof fn lemma_pow_mono(i: nat)
    requires
        i < 24,
    ensures
        36 * pow36(i) <= pow36(24),
    decreases 24 - i,
{
    if i < 23 {
        lemma_pow_mono(i + 1);
        assert(pow36(i + 1) == 36 * pow36(i));
        assert(pow36(i) <= pow36(i + 1));
    }
}

impl View for Cuid2 {
    type V = nat;

    closed spec fn view(&self) -> nat {
        self.0 as nat
    }
}

impl Cuid2 {
    #[verifier::type_invariant]
    closed spec fn fits(self) -> bool {
        (self.0 as nat) < pow36(24)
    }

    /// The stored value; it never has more than 24 base-36 digits.
    pub fn value(&self) -> (r: u128)
        ensures
            r as nat == self@,
            self@ < pow36(24),
    {
        proof { use_type_invariant(self); }
        self.0
    }

    /// The 24-character base-36 form, left-padded with `'0'`.
    pub fn to_string(&self) -> (r: String)
        ensures
            r@ == cuid2_render(self@),
            r@.len() == 24,
            self@ < pow36(24),
    {
        proof {
            use_type_invariant(self);
            lemma_pad_is_fixed(self@, 24);
            lemma_render36_len(self@, 24);
        }
        let digits = chars_of(radix36(self.0).as_str());
        let n = digits.len();
        let mut out: Vec<char> = Vec::new();
        let ghost full = cuid2_render(self@);
        while out.len() < 24
            invariant
                n == digits@.len() <= 24,
                digits@ == base36_render(self@),
                full == pad_zeros(digits@, 24),
                out.len() <= 24,
                out@ == full.subrange(0, out.len() as int),
            decreases 24 - out.len(),
        {
            let j = out.len();
            if j < 24 - n {
                out.push('0');
            } else {
                out.push(digits[j - (24 - n)]);
            }
            assert(out@ =~= full.subrange(0, out.len() as int));
        }
        assert(out@ =~= full);
        string_of_chars(&out)
    }

    /// Reads exactly 24 base-36 digits (a length in bytes), in either case.
    pub fn parse(s: &str) -> (r: Result<Cuid2, Cuid2ParseError>)
        ensures
            s.spec_bytes().len() != 24 ==> r == Err::<Cuid2, Cuid2ParseError>(Cuid2ParseError::WrongLength),
            s.spec_bytes().len() == 24 && !all_base36(s@) ==> r == Err::<Cuid2, Cuid2ParseError>(Cuid2ParseError::IllegalCharacter),
            s.spec_bytes().len() == 24 && all_base36(s@) ==> r is Ok && r->Ok_0@ == base36_number(s@),
            r is Ok ==> r->Ok_0@ < pow36(24),
            match cuid2_parse(s@) {
                Ok(v) => r is Ok && r->Ok_0@ == v,
                Err(e) => r == Err::<Cuid2, Cuid2ParseError>(e),
            },
    {
        if s.as_bytes().len() != 24 {
            return Err(Cuid2ParseError::WrongLength);
        }
        let chars = chars_of(s);
        let mut i: usize = 0;
        while i < chars.len()
            invariant
                i <= chars.len(),
                chars@ == s@,
                s.spec_bytes().len() == 24,
                forall|k: int| 0 <= k < i ==> (#[trigger] base36_value(chars@[k])) is Some,
            decreases chars.len() - i,
        {
            if digit36(chars[i]).is_none() {
                return Err(Cuid2ParseError::IllegalCharacter);
            }
            i = i + 1;
        }
        proof {
            assert(all_base36(s@));
            assert(is_ascii_chars(s@)) by {
                assert forall|k: int| 0 <= k < s@.len() implies '\0' <= #[trigger] s@[k] <= '\u{7f}' by {
                    lemma_value_below(s@[k]);
                }
            }
            is_ascii_chars_encode_utf8(s@);
            lemma_number_bound(s@);
        }
        let v = number_of(&chars);
        Ok(Cuid2(v))
    }

    /// A new identifier from its random parts: `letter` (below 26) picks the first
    /// character, and `hi`, `lo` are the two halves of the value whose base-36 digits follow.
    pub fn from_entropy(letter: u8, hi: u64, lo: u64) -> (r: Cuid2)
        requires
            letter < 26,
        ensures
            cuid2_render(r@) == generated_text(letter as nat, combine_halves(hi, lo)),
            cuid2_render(r@).len() == 24,
            'a' <= cuid2_render(r@)[0] <= 'z',
            forall|i: int| 0 <= i < 24 ==> is_symbol36(#[trigger] cuid2_render(r@)[i]),
    {
        let x: u128 = (lo as u128) * 0x1_0000_0000_0000_0000u128 + hi as u128;
        proof {
            assert((lo as nat) * 0x1_0000_0000_0000_0000 + hi as nat <= 0xffff_ffff_ffff_ffff_ffff_ffff_ffff_ffff) by (nonlinear_arith)
                requires
                    lo <= 0xffff_ffff_ffff_ffff,
                    hi <= 0xffff_ffff_ffff_ffff,
            ;
        }
        let digits = chars_of(radix36(x).as_str());
        let n = digits.len();
        let first = symbol36(10 + letter);
        let ghost full = seq![first] + pad_zeros(digits@, 23);
        proof {
            lemma_render36_symbols(x as nat);
            assert(is_symbol36(first));
        }
        let mut out: Vec<char> = Vec::new();
        out.push(first);
        assert(out@ =~= full.subrange(0, 1));
        while out.len() < 24
            invariant
                n == digits@.len(),
                digits@ == base36_render(x as nat),
                full == seq![first] + pad_zeros(digits@, 23),
                full.len() >= 24,
                1 <= out.len() <= 24,
                out@ == full.subrange(0, out.len() as int),
                forall|i: int| 0 <= i < out@.len() ==> is_symbol36(#[trigger] out@[i]),
                forall|i: int| 0 <= i < digits@.len() ==> is_symbol36(#[trigger] digits@[i]),
            decreases 24 - out.len(),
        {
            let j = out.len();
            if n < 23 && j - 1 < 23 - n {
                out.push('0');
                assert(is_symbol36(base36_symbol(0)));
            } else {
                let k = if n < 23 { j - 1 - (23 - n) } else { j - 1 };
                out.push(digits[k]);
            }
            assert(out@ =~= full.subrange(0, out.len() as int));
        }
        proof {
            lemma_render_number(out@);
            assert(all_base36(out@)) by {
                assert forall|i: int| 0 <= i < out@.len() implies (#[trigger] base36_value(out@[i])) is Some by {
                    let d = choose|d: nat| d < 36 && base36_symbol(d) == out@[i];
                    lemma_symbol36_reads_back(d);
                }
            }
        }
        let v = number_of(&out);
        Cuid2(v)
    }
}

impl IdBody for Cuid2 {
    type Err = Cuid2ParseError;

    open spec fn spec_valid(v: nat) -> bool {
        v < pow36(24)
    }

    open spec fn spec_render(v: nat) -> Seq<char> {
        cuid2_render(v)
    }

    open spec fn spec_parse(s: Seq<char>) -> Result<nat, Cuid2ParseError> {
        cuid2_parse(s)
    }

    fn render(&self) -> (r: String) {
        self.to_string()
    }

    fn parse(s: &str) -> (r: Result<Cuid2, Cuid2ParseError>) {
        Cuid2::parse(s)
    }

    proof fn lemma_parse_render(v: nat) {
        lemma_cuid2_parse_render(v);
    }
}

impl core::str::FromStr for Cuid2 {
    type Err = Cuid2ParseError;

    fn from_str(s: &str) -> Result<Cuid2, Cuid2ParseError> {
        Cuid2::parse(s)
    }
}

/// The `k`-digit form of a value below 36^k reads back as that value.
proof fn lemma_number_of_fixed(v: nat, k: nat)
    requires
        v < pow36(k),
    ensures
        base36_number(fixed36(v, k)) == v,
        forall|i: int| 0 <= i < fixed36(v, k).len() ==> is_symbol36(#[trigger] fixed36(v, k)[i]),
        fixed36(v, k).len() == k,
    decreases k,
{
    if k > 0 {
        let p = pow36((k - 1) as nat);
        assert(v / 36 < p) by (nonlinear_arith)
            requires
                v < 36 * p,
        ;
        lemma_number_of_fixed(v / 36, (k - 1) as nat);
        let f = fixed36(v, k);
        assert(f.drop_last() =~= fixed36(v / 36, (k - 1) as nat));
        lemma_symbol36_reads_back(v % 36);
        assert(is_symbol36(base36_symbol(v % 36)));
        assert forall|i: int| 0 <= i < f.len() implies is_symbol36(#[trigger] f[i]) by {
            if i < f.len() - 1 {
                assert(f[i] == fixed36(v / 36, (k - 1) as nat)[i]);
            }
        }
    }
}

/// Reading text as a Cuid2: the number, or why the text is not one. The length counts bytes.
pub open spec fn cuid2_parse(s: Seq<char>) -> Result<nat, Cuid2ParseError> {
    if encode_utf8(s).len() != 24 {
        Err(Cuid2ParseError::WrongLength)
    } else if !all_base36(s) {
        Err(Cuid2ParseError::IllegalCharacter)
    } else {
        Ok(base36_number(s))
    }
}

/// Parsing the textual form of any Cuid2 value gives that value back.
pub proof fn lemma_cuid2_parse_render(v: nat)
    requires
        v < pow36(24),
    ensures
        cuid2_parse(cuid2_render(v)) == Ok::<nat, Cuid2ParseError>(v),
{
    lemma_pad_is_fixed(v, 24);
    lemma_number_of_fixed(v, 24);
    let t = cuid2_render(v);
    assert(all_base36(t)) by {
        assert forall|i: int| 0 <= i < t.len() implies (#[trigger] base36_value(t[i])) is Some by {
            assert(is_symbol36(t[i]));
            let d = choose|d: nat| d < 36 && base36_symbol(d) == t[i];
            lemma_symbol36_reads_back(d);
        }
    }
    assert(is_ascii_chars(t)) by {
        assert forall|k: int| 0 <= k < t.len() implies '\0' <= #[trigger] t[k] <= '\u{7f}' by {
            assert(base36_value(t[k]) is Some);
            lemma_value_below(t[k]);
        }
    }
    is_ascii_chars_encode_utf8(t);
}

} // verus!
