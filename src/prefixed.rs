//! Identifiers written `<prefix>_<body>`, whose prefix is fixed by their type.
use vstd::prelude::*;
use core::marker::PhantomData;
use crate::prefix::Prefix;
use crate::text::{append_str, chars_of, push_char, starts_with_chars, string_from};

verus! {

/// The body of a prefixed identifier: it has a textual form and is read back from it.
pub trait IdBody: View + Sized {
    type Err;

    /// What every value of the type satisfies.
    spec fn spec_valid(v: Self::V) -> bool;

    /// The textual form of a body.
    spec fn spec_render(v: Self::V) -> Seq<char>;

    /// What reading a text gives: a body, or an error.
    spec fn spec_parse(s: Seq<char>) -> Result<Self::V, Self::Err>;

    /// The textual form.
    fn render(&self) -> (r: String)
        ensures
            r@ == Self::spec_render(self@),
            Self::spec_valid(self@),
    ;

    /// Reads a body from its textual form.
    fn parse(s: &str) -> (r: Result<Self, Self::Err>)
        ensures
            match Self::spec_parse(s@) {
                Ok(v) => r is Ok && r->Ok_0@ == v && Self::spec_valid(v),
                Err(e) => r == Err::<Self, Self::Err>(e),
            },
    ;

    /// The textual form of a body reads back as that body.
    proof fn lemma_parse_render(v: Self::V)
        requires
            Self::spec_valid(v),
        ensures
            Self::spec_parse(Self::spec_render(v)) == Ok::<Self::V, Self::Err>(v),
    ;
}

impl IdBody for String {
    type Err = core::convert::Infallible;

    open spec fn spec_valid(v: Seq<char>) -> bool {
        true
    }

    open spec fn spec_render(v: Seq<char>) -> Seq<char> {
        v
    }

    open spec fn spec_parse(s: Seq<char>) -> Result<Seq<char>, core::convert::Infallible> {
        Ok(s)
    }

    fn render(&self) -> (r: String) {
        self.clone()
    }

    fn parse(s: &str) -> (r: Result<String, core::convert::Infallible>) {
        Ok(s.to_owned())
    }

    proof fn lemma_parse_render(v: Seq<char>) {
    }
}

/// An identifier of the class named by `P`, with a body of type `T`.
#[derive(PartialEq, Eq, Debug)]
pub struct PrefixedId<P: Prefix, T>(pub T, pub PhantomData<P>);

/// Why a string is not a prefixed identifier.
#[derive(Clone, PartialEq, Eq, Debug)]
pub enum PrefixedIdParseError<E> {
    /// The string does not start with the prefix, which is given.
    NoPrefix(String),
    /// The prefix is not followed by `'_'`.
    NoUnderscore,
    /// The body could not be read.
    Other(E),
}

/// `s` continues with `'_'` right after its first `p.len()` characters.
pub open spec fn underscore_after(p: Seq<char>, s: Seq<char>) -> bool {
    s.len() > p.len() && s[p.len() as int] == '_'
}

/// What remains of `s` once a leading `p`, then a leading `'_'`, are taken off where present.
pub open spec fn optional_rest(p: Seq<char>, s: Seq<char>) -> Seq<char> {
    let a = if p.is_prefix_of(s) { s.subrange(p.len() as int, s.len() as int) } else { s };
    if a.len() > 0 && a[0] == '_' { a.subrange(1, a.len() as int) } else { a }
}

/// `r` is what reading `s` with the prefix required gives.
pub open spec fn required_outcome<P: Prefix, T: IdBody>(
    s: Seq<char>,
    r: Result<PrefixedId<P, T>, PrefixedIdParseError<T::Err>>,
) -> bool {
    let p = P::spec_value();
    if !p.is_prefix_of(s) {
        &&& r is Err
        &&& r->Err_0 is NoPrefix
        &&& r->Err_0->NoPrefix_0@ == p
    } else if !underscore_after(p, s) {
        r == Err::<PrefixedId<P, T>, PrefixedIdParseError<T::Err>>(PrefixedIdParseError::NoUnderscore)
    } else {
        match T::spec_parse(s.subrange(p.len() as int + 1, s.len() as int)) {
            Ok(v) => r is Ok && r->Ok_0.0@ == v,
            Err(e) => r == Err::<PrefixedId<P, T>, PrefixedIdParseError<T::Err>>(PrefixedIdParseError::Other(e)),
        }
    }
}

/// `r` is what reading `s` with the prefix optional gives.
pub open spec fn optional_outcome<P: Prefix, T: IdBody>(
    s: Seq<char>,
    r: Result<PrefixedId<P, T>, T::Err>,
) -> bool {
    match T::spec_parse(optional_rest(P::spec_value(), s)) {
        Ok(v) => r is Ok && r->Ok_0.0@ == v,
        Err(e) => r == Err::<PrefixedId<P, T>, T::Err>(e),
    }
}

impl<P: Prefix, T: Clone> Clone for PrefixedId<P, T> {
    fn clone(&self) -> (r: Self) {
        PrefixedId(self.0.clone(), PhantomData)
    }
}

/// Relies on `Hash` for a pair: the prefix's text, then the body, are fed to `state`.
#[verifier::external_body]
fn hash_tag_and_body<T: core::hash::Hash, H: core::hash::Hasher>(p: &String, t: &T, state: &mut H) {
    core::hash::Hash::hash(&(p, t), state)
}

impl<P: Prefix, T: core::hash::Hash> core::hash::Hash for PrefixedId<P, T> {
    /// Hashes the prefix's text and the body, so that equal bodies under different
    /// prefixes hash apart; a prefix that cannot be read hashes as the empty text.
    fn hash<H: core::hash::Hasher>(&self, state: &mut H) {
        let p = match P::try_value() {
            Some(p) => p,
            None => String::new(),
        };
        hash_tag_and_body(&p, &self.0, state);
    }
}

impl<P: Prefix, T: IdBody> PrefixedId<P, T> {
    /// Reads `<prefix>_<body>`; the prefix and the underscore must both be there.
    pub fn from_str_required_prefix(s: &str) -> (r: Result<PrefixedId<P, T>, PrefixedIdParseError<T::Err>>)
        requires
            P::spec_valid(),
        ensures
            required_outcome::<P, T>(s@, r),
    {
        let p = P::value();
        let pc = chars_of(p.as_str());
        let sc = chars_of(s);
        if !starts_with_chars(&sc, &pc) {
            return Err(PrefixedIdParseError::NoPrefix(p));
        }
        let n = pc.len();
        if n >= sc.len() || sc[n] != '_' {
            return Err(PrefixedIdParseError::NoUnderscore);
        }
        let rest = string_from(&sc, n + 1);
        match T::parse(rest.as_str()) {
            Ok(t) => Ok(PrefixedId(t, PhantomData)),
            Err(e) => Err(PrefixedIdParseError::Other(e)),
        }
    }

    /// Same as [`PrefixedId::from_str_required_prefix`].
    pub fn from_str(s: &str) -> (r: Result<PrefixedId<P, T>, PrefixedIdParseError<T::Err>>)
        requires
            P::spec_valid(),
        ensures
            required_outcome::<P, T>(s@, r),
    {
        Self::from_str_required_prefix(s)
    }

    /// Reads a body, taking off a leading prefix and then a leading `'_'` where present.
    pub fn from_str_optional_prefix(s: &str) -> (r: Result<PrefixedId<P, T>, T::Err>)
        requires
            P::spec_valid(),
        ensures
            optional_outcome::<P, T>(s@, r),
    {
        let p = P::value();
        let pc = chars_of(p.as_str());
        let sc = chars_of(s);
        let mut k: usize = 0;
        if starts_with_chars(&sc, &pc) {
            k = pc.len();
        }
        if k < sc.len() && sc[k] == '_' {
            k = k + 1;
        }
        let rest = string_from(&sc, k);
        assert(rest@ =~= optional_rest(P::spec_value(), s@));
        match T::parse(rest.as_str()) {
            Ok(t) => Ok(PrefixedId(t, PhantomData)),
            Err(e) => Err(e),
        }
    }

    /// Wraps a body.
    pub fn from_id(id: T) -> (r: PrefixedId<P, T>)
        ensures
            r.0 == id,
    {
        PrefixedId(id, PhantomData)
    }

    /// The textual form `<prefix>_<body>`.
    pub fn to_string(&self) -> (r: String)
        requires
            P::spec_valid(),
        ensures
            r@ == P::spec_value() + seq!['_'] + T::spec_render(self.0@),
    {
        let mut out = P::value();
        push_char(&mut out, '_');
        let body = self.0.render();
        append_str(&mut out, body.as_str());
        out
    }
}

/// Reading `<prefix>_<body text>` with the prefix required gives back the body.
pub proof fn lemma_required_parse_render<P: Prefix, T: IdBody>(
    b: T::V,
    r: Result<PrefixedId<P, T>, PrefixedIdParseError<T::Err>>,
)
    requires
        T::spec_valid(b),
        required_outcome::<P, T>(P::spec_value() + seq!['_'] + T::spec_render(b), r),
    ensures
        r is Ok,
        r->Ok_0.0@ == b,
{
    let p = P::spec_value();
    let s = p + seq!['_'] + T::spec_render(b);
    assert(s.subrange(0, p.len() as int) =~= p);
    assert(s[p.len() as int] == '_');
    assert(s.subrange(p.len() as int + 1, s.len() as int) =~= T::spec_render(b));
    T::lemma_parse_render(b);
}

/// With the prefix optional, `<prefix>_x` and `x` give the same result, where `x` neither
/// starts with the (non-empty) prefix nor with `'_'`.
pub proof fn lemma_optional_prefix_same<P: Prefix, T: IdBody>(
    x: Seq<char>,
    r1: Result<PrefixedId<P, T>, T::Err>,
    r2: Result<PrefixedId<P, T>, T::Err>,
)
    requires
        !(P::spec_value().len() > 0 && P::spec_value().is_prefix_of(x)),
        !(x.len() > 0 && x[0] == '_'),
        optional_outcome::<P, T>(P::spec_value() + seq!['_'] + x, r1),
        optional_outcome::<P, T>(x, r2),
    ensures
        r1 is Ok <==> r2 is Ok,
        r1 is Ok ==> r1->Ok_0.0@ == r2->Ok_0.0@,
        r1 is Err ==> r1 == r2,
{
    let p = P::spec_value();
    let s = p + seq!['_'] + x;
    assert(s.subrange(0, p.len() as int) =~= p);
    let a = s.subrange(p.len() as int, s.len() as int);
    assert(a[0] == '_');
    assert(a.subrange(1, a.len() as int) =~= x);
    assert(optional_rest(p, s) == x);
    if p.len() == 0 {
        assert(x.subrange(0, 0) =~= p);
        assert(x.subrange(0, x.len() as int) =~= x);
    }
    assert(optional_rest(p, x) == x);
}

} // verus!
