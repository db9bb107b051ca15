//! Short prefix tags packed into a `u128`: one length byte, then up to 15 bytes of UTF-8.
use vstd::prelude::*;
use vstd::utf8::{decode_utf8, encode_utf8, encode_utf8_decode_utf8, encode_utf8_valid_utf8, valid_utf8};
use vstd::string::StringSliceAdditionalSpecFns;
use vstd::arithmetic::div_mod::lemma_div_denominator;

verus! {

/// A tag that names a class of identifiers.
pub trait Prefix {
    /// The tag can be read.
    spec fn spec_valid() -> bool;

    /// The tag's text.
    spec fn spec_value() -> Seq<char>;

    /// The tag's text.
    fn value() -> (r: String)
        requires
            Self::spec_valid(),
        ensures
            r@ == Self::spec_value(),
    ;

    /// The tag's text, or `None` where the tag cannot be read.
    fn try_value() -> (r: Option<String>)
        ensures
            Self::spec_valid() ==> r is Some && r->0@ == Self::spec_value(),
            r is Some ==> Self::spec_valid(),
    ;
}

/// A prefix of at most 15 bytes, carried in the type as the packed integer `BYTES`
/// (see [`encode_bytes`]).
#[derive(Clone, Copy, PartialEq, Eq, Debug)]
pub struct ShortPrefix<const BYTES: u128>;

/// 256 to the power `k`.
pub open spec fn pow256(k: nat) -> nat
    decreases k,
{
    if k == 0 { 1 } else { 256 * pow256((k - 1) as nat) }
}

/// The length byte of a packed tag.
pub open spec fn packed_len(b: u128) -> nat {
    (b % 256) as nat
}

/// The bytes that a packed tag holds: those after the length byte, low byte first.
pub open spec fn packed_bytes(b: u128) -> Seq<u8> {
    Seq::new(packed_len(b), |i: int| ((b as nat / pow256((i + 1) as nat)) % 256) as u8)
}

/// The packed form of `bytes`: the length in the low byte, then each byte in turn.
pub open spec fn packed_value(bytes: Seq<u8>) -> nat {
    bytes.len() + 256 * packed_tail(bytes)
}

/// `bytes` read as a little-endian number.
pub open spec fn packed_tail(bytes: Seq<u8>) -> nat
    decreases bytes.len(),
{
    if bytes.len() == 0 {
        0
    } else {
        bytes[0] as nat + 256 * packed_tail(bytes.drop_first())
    }
}

/// Relies on `String::from_utf8`: the decoded text exactly when the bytes are UTF-8.
#[verifier::external_body]
fn string_from_utf8(bytes: Vec<u8>) -> (r: Option<String>)
    ensures
        r is Some <==> valid_utf8(bytes@),
        r is Some ==> r->0@ == decode_utf8(bytes@),
{
    String::from_utf8(bytes).ok()
}

/// Packs `s` (at most 15 bytes) into a `u128`: the length, then the UTF-8 bytes.
pub fn encode_bytes(s: &str) -> (r: u128)
    requires
        s.spec_bytes().len() <= 15,
    ensures
        r as nat == packed_value(s.spec_bytes()),
        packed_bytes(r) == s.spec_bytes(),
        valid_utf8(packed_bytes(r)),
        decode_utf8(packed_bytes(r)) == s@,
{
    let bytes = s.as_bytes();
    let len = bytes.len();
    let mut acc: u128 = 0;
    let mut i: usize = len;
    proof {
        reveal_with_fuel(pow256, 16);
    }
    while i > 0
        invariant
            len == bytes@.len() <= 15,
            i <= len,
            acc as nat == packed_tail(bytes@.subrange(i as int, len as int)),
            acc < pow256((len - i) as nat),
            pow256(15) == 0x1_0000_0000_0000_0000_0000_0000_0000_00,
        decreases i,
    {
        i = i - 1;
        let ghost rest = bytes@.subrange(i as int, len as int);
        assert(rest.drop_first() =~= bytes@.subrange(i as int + 1, len as int));
        proof {
            lemma_pow256_mono((len - i - 1) as nat);
            let p = pow256((len - i - 1) as nat);
            assert(acc * 256 + bytes@[i as int] < 256 * p) by (nonlinear_arith)
                requires
                    acc < p,
                    bytes@[i as int] < 256,
            ;
        }
        acc = acc * 256 + bytes[i] as u128;
    }
    proof {
        assert(bytes@.subrange(0, len as int) =~= bytes@);
        lemma_pow256_mono(len as nat);
        lemma_tag_round_trip(s@);
        lemma_packed_round_trip(bytes@);
        assert(acc * 256 + len < 0x1_0000_0000_0000_0000_0000_0000_0000_0000int) by (nonlinear_arith)
            requires
                acc < 0x1_0000_0000_0000_0000_0000_0000_0000_00int,
                len <= 15,
        ;
    }
    let r = acc * 256 + len as u128;
    assert(r == packed_value(s.spec_bytes()) as u128);
    r
}

/// Powers of 256 are positive.
proof fn lemma_pow256_pos(k: nat)
    ensures
        pow256(k) > 0,
    decreases k,
{
    if k > 0 {
        lemma_pow256_pos((k - 1) as nat);
    }
}

/// 256^k grows with k up to 256^15.
proof fn lemma_pow256_mono(k: nat)
    requires
        k <= 15,
    ensures
        pow256(k) <= pow256(15),
        pow256(k + 1) == 256 * pow256(k),
    decreases 15 - k,
{
    if k < 15 {
        lemma_pow256_mono(k + 1);
    }
}

/// The text that the packed tag `b` holds, or `None` where its bytes are not UTF-8.
pub fn try_decode_bytes(b: u128) -> (r: Option<String>)
    requires
        packed_len(b) <= 15,
    ensures
        r is Some <==> valid_utf8(packed_bytes(b)),
        r is Some ==> r->0@ == decode_utf8(packed_bytes(b)),
{
    let len = (b % 256) as usize;
    let mut bytes: Vec<u8> = Vec::new();
    let mut y: u128 = b / 256;
    let mut i: usize = 0;
    assert(pow256(1) == 256 * pow256(0));
    while i < len
        invariant
            len == packed_len(b) <= 15,
            i <= len,
            bytes@ == packed_bytes(b).subrange(0, i as int),
            y as nat == b as nat / pow256((i + 1) as nat),
        decreases len - i,
    {
        bytes.push((y % 256) as u8);
        proof {
            lemma_pow256_pos((i + 1) as nat);
            lemma_div_denominator(b as int, pow256((i + 1) as nat) as int, 256);
            assert(pow256((i + 2) as nat) == 256 * pow256((i + 1) as nat));
        }
        y = y / 256;
        i = i + 1;
        assert(bytes@ =~= packed_bytes(b).subrange(0, i as int));
    }
    assert(bytes@ =~= packed_bytes(b));
    string_from_utf8(bytes)
}

/// The text that the packed tag `b` holds.
pub fn decode_bytes(b: u128) -> (r: String)
    requires
        packed_len(b) <= 15,
        valid_utf8(packed_bytes(b)),
    ensures
        r@ == decode_utf8(packed_bytes(b)),
{
    try_decode_bytes(b).unwrap()
}

/// Relies on `Hash` for `String`: feeds the text to `state`.
#[verifier::external_body]
pub(crate) fn hash_text<H: core::hash::Hasher>(p: &String, state: &mut H) {
    core::hash::Hash::hash(p, state)
}

/// `bytes` read as a little-endian number is below 256^len.
proof fn lemma_tail_bound(bytes: Seq<u8>)
    ensures
        packed_tail(bytes) < pow256(bytes.len()),
    decreases bytes.len(),
{
    if bytes.len() > 0 {
        let rest = bytes.drop_first();
        lemma_tail_bound(rest);
        let t = packed_tail(rest);
        let p = pow256(rest.len());
        assert(bytes[0] + 256 * t < 256 * p) by (nonlinear_arith)
            requires
                t < p,
                bytes[0] < 256,
        ;
    }
}

/// Byte `i` of a little-endian number is `bytes[i]`.
proof fn lemma_tail_byte(bytes: Seq<u8>, i: nat)
    requires
        i < bytes.len(),
    ensures
        (packed_tail(bytes) / pow256(i)) % 256 == bytes[i as int],
    decreases i,
{
    let rest = bytes.drop_first();
    let t = packed_tail(rest);
    assert(packed_tail(bytes) == bytes[0] + 256 * t);
    assert((bytes[0] + 256 * t) / 256 == t && (bytes[0] + 256 * t) % 256 == bytes[0]) by (nonlinear_arith)
        requires
            bytes[0] < 256,
            t >= 0,
    ;
    if i > 0 {
        lemma_tail_byte(rest, (i - 1) as nat);
        lemma_pow256_pos((i - 1) as nat);
        lemma_div_denominator(packed_tail(bytes) as int, 256, pow256((i - 1) as nat) as int);
        assert(rest[i - 1] == bytes[i as int]);
        assert(pow256(i) == 256 * pow256((i - 1) as nat));
        let x = packed_tail(bytes) as int;
        assert(x / 256 == t);
        assert(x / pow256(i) as int == t as int / pow256((i - 1) as nat) as int);
    } else {
        assert(pow256(0) == 1);
        let x = packed_tail(bytes) as int;
        assert(x / 1 == x) by (nonlinear_arith);
    }
}

/// Packing at most 15 bytes and reading the packed tag back gives the same bytes.
pub proof fn lemma_packed_round_trip(bytes: Seq<u8>)
    requires
        bytes.len() <= 15,
    ensures
        packed_value(bytes) < 0x1_0000_0000_0000_0000int * 0x1_0000_0000_0000_0000int,
        packed_len(packed_value(bytes) as u128) == bytes.len(),
        packed_bytes(packed_value(bytes) as u128) == bytes,
{
    let t = packed_tail(bytes);
    let n = bytes.len();
    lemma_tail_bound(bytes);
    lemma_pow256_mono(n);
    reveal_with_fuel(pow256, 16);
    assert(pow256(15) == 0x1_0000_0000_0000_0000_0000_0000_0000_00);
    assert((n + 256 * t) / 256 == t && (n + 256 * t) % 256 == n
        && n + 256 * t < 0x1_0000_0000_0000_0000int * 0x1_0000_0000_0000_0000int) by (nonlinear_arith)
        requires
            n <= 15,
            0 <= t < 0x1_0000_0000_0000_0000_0000_0000_0000_00int,
    ;
    let b = packed_value(bytes) as u128;
    assert forall|i: int| 0 <= i < n implies #[trigger] packed_bytes(b)[i] == bytes[i] by {
        lemma_tail_byte(bytes, i as nat);
        lemma_pow256_pos(i as nat);
        lemma_div_denominator(packed_value(bytes) as int, 256, pow256(i as nat) as int);
        assert(pow256((i + 1) as nat) == 256 * pow256(i as nat));
    }
    assert(packed_bytes(b) =~= bytes);
}

/// A tag packed from the text `s` is well formed and reads back as `s`.
pub proof fn lemma_tag_round_trip(s: Seq<char>)
    requires
        encode_utf8(s).len() <= 15,
    ensures
        packed_len(packed_value(encode_utf8(s)) as u128) <= 15,
        valid_utf8(packed_bytes(packed_value(encode_utf8(s)) as u128)),
        decode_utf8(packed_bytes(packed_value(encode_utf8(s)) as u128)) == s,
{
    lemma_packed_round_trip(encode_utf8(s));
    encode_utf8_valid_utf8(s);
    encode_utf8_decode_utf8(s);
}

impl<const BYTES: u128> Prefix for ShortPrefix<BYTES> {
    open spec fn spec_valid() -> bool {
        packed_len(BYTES) <= 15 && valid_utf8(packed_bytes(BYTES))
    }

    open spec fn spec_value() -> Seq<char> {
        decode_utf8(packed_bytes(BYTES))
    }

    fn value() -> (r: String) {
        decode_bytes(BYTES)
    }

    fn try_value() -> (r: Option<String>) {
        if BYTES % 256 <= 15 {
            try_decode_bytes(BYTES)
        } else {
            None
        }
    }
}

impl<const BYTES: u128> core::hash::Hash for ShortPrefix<BYTES> {
    /// Hashes the tag's text; a tag that cannot be read hashes as the empty text.
    fn hash<H: core::hash::Hasher>(&self, state: &mut H) {
        let p = match Self::try_value() {
            Some(p) => p,
            None => String::new(),
        };
        hash_text(&p, state);
    }
}

} // verus!
