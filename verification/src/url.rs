//! Relay URLs, and the order in which they are listed.

use vstd::prelude::*;
use vstd::utf8::encode_utf8;
use vstd::utf8::encode_utf8_decode_utf8;
use crate::error::Error;
use crate::order::bytes_precede;
use crate::order::lemma_lex_lt_asymmetric;
use crate::order::lemma_lex_lt_irreflexive;
use crate::order::lemma_lex_lt_total;
use crate::order::lemma_lex_lt_transitive;
use crate::order::lex_lt;

verus! {

/// `a` comes strictly before `b`: the order of the strings' UTF-8 bytes, which
/// is the order of `str`.
pub open spec fn url_lt(a: Seq<char>, b: Seq<char>) -> bool {
    lex_lt(encode_utf8(a), encode_utf8(b))
}

/// No URL comes before itself.
pub proof fn lemma_url_lt_irreflexive(a: Seq<char>)
    ensures
        !url_lt(a, a),
{
    lemma_lex_lt_irreflexive(encode_utf8(a));
}

/// Of two URLs at most one comes before the other.
pub proof fn lemma_url_lt_asymmetric(a: Seq<char>, b: Seq<char>)
    requires
        url_lt(a, b),
    ensures
        !url_lt(b, a),
{
    lemma_lex_lt_asymmetric(encode_utf8(a), encode_utf8(b));
}

/// The order of URLs is transitive.
pub proof fn lemma_url_lt_transitive(a: Seq<char>, b: Seq<char>, c: Seq<char>)
    requires
        url_lt(a, b),
        url_lt(b, c),
    ensures
        url_lt(a, c),
{
    lemma_lex_lt_transitive(encode_utf8(a), encode_utf8(b), encode_utf8(c));
}

/// Any two distinct URLs are ordered one way or the other.
pub proof fn lemma_url_lt_total(a: Seq<char>, b: Seq<char>)
    ensures
        a == b || url_lt(a, b) || url_lt(b, a),
{
    encode_utf8_decode_utf8(a);
    encode_utf8_decode_utf8(b);
    lemma_lex_lt_total(encode_utf8(a), encode_utf8(b));
}

/// A string that is supposed to be a URL, and may be none.
#[derive(Debug)]
pub struct UncheckedUrl(pub String);

impl View for UncheckedUrl {
    type V = Seq<char>;

    open spec fn view(&self) -> Seq<char> {
        self.0@
    }
}

impl Clone for UncheckedUrl {
    fn clone(&self) -> (r: Self)
        ensures
            r == *self,
    {
        UncheckedUrl(self.0.clone())
    }
}

impl PartialEq for UncheckedUrl {
    fn eq(&self, other: &Self) -> (r: bool) {
        self.0 == other.0
    }
}

impl Eq for UncheckedUrl {}

impl vstd::std_specs::cmp::PartialEqSpecImpl for UncheckedUrl {
    open spec fn obeys_eq_spec() -> bool {
        true
    }

    open spec fn eq_spec(&self, other: &Self) -> bool {
        self@ == other@
    }
}

impl UncheckedUrl {
    /// The URL that `s` holds, unchecked.
    pub fn from_str(s: &str) -> (r: UncheckedUrl)
        ensures
            r@ == s@,
    {
        UncheckedUrl(s.to_owned())
    }

    /// The URL as a string.
    pub fn as_str(&self) -> (r: &str)
        ensures
            r@ == self@,
    {
        self.0.as_str()
    }
}

/// The canonical form that `nostr_types` gives the relay URL written in `s`,
/// or `None` where it takes `s` for no relay URL.
pub uninterp spec fn canonical_relay_url(s: Seq<char>) -> Option<Seq<char>>;

/// Calls `nostr_types::RelayUrl::try_from_str`, which parses `s` with the
/// `url` crate, refuses what has no authority, a local or non-global host, or
/// a scheme other than `ws` and `wss`, and hands back the URL as the `url`
/// crate writes it. The result depends on `s` alone, so it is given the name
/// `canonical_relay_url`; nothing more is claimed of it.
#[verifier::external_body]
fn canonical_form(s: &str) -> (r: Option<String>)
    ensures
        r matches Some(u) ==> canonical_relay_url(s@) == Some(u@),
        r is None ==> canonical_relay_url(s@) is None,
{
    nostr_types::RelayUrl::try_from_str(s).ok().map(|u| u.0)
}

/// `url` is a relay URL in canonical form: what some string was brought to.
pub open spec fn is_canonical(url: Seq<char>) -> bool {
    exists|s: Seq<char>| canonical_relay_url(s) == Some(url)
}

/// The URL of a relay, in canonical form. Two relay URLs that differ as
/// strings are two relays.
#[derive(Debug)]
pub struct RelayUrl(String);

impl View for RelayUrl {
    type V = Seq<char>;

    closed spec fn view(&self) -> Seq<char> {
        self.0@
    }
}

impl Clone for RelayUrl {
    fn clone(&self) -> (r: Self)
        ensures
            r == *self,
    {
        proof {
            use_type_invariant(self);
        }
        RelayUrl(self.0.clone())
    }
}

impl PartialEq for RelayUrl {
    fn eq(&self, other: &Self) -> (r: bool) {
        self.0 == other.0
    }
}

impl Eq for RelayUrl {}

impl vstd::std_specs::cmp::PartialEqSpecImpl for RelayUrl {
    open spec fn obeys_eq_spec() -> bool {
        true
    }

    open spec fn eq_spec(&self, other: &Self) -> bool {
        self@ == other@
    }
}

impl RelayUrl {
    /// The URL is in canonical form.
    #[verifier::type_invariant]
    pub closed spec fn wf(&self) -> bool {
        is_canonical(self.0@)
    }

    /// Reads a relay URL from `s` and brings it into canonical form.
    pub fn try_from_str(s: &str) -> (r: Result<RelayUrl, Error>)
        ensures
            match canonical_relay_url(s@) {
                Some(u) => r matches Ok(url) && url@ == u,
                None => r == Err::<RelayUrl, Error>(Error::InvalidUrl),
            },
    {
        match canonical_form(s) {
            Some(u) => {
                assert(canonical_relay_url(s@) == Some(u@));
                Ok(RelayUrl(u))
            },
            None => Err(Error::InvalidUrl),
        }
    }

    /// Reads a relay URL from an unchecked one.
    pub fn try_from_unchecked_url(u: &UncheckedUrl) -> (r: Result<RelayUrl, Error>)
        ensures
            match canonical_relay_url(u@) {
                Some(c) => r matches Ok(url) && url@ == c,
                None => r == Err::<RelayUrl, Error>(Error::InvalidUrl),
            },
    {
        RelayUrl::try_from_str(u.as_str())
    }

    /// The URL as a string.
    pub fn as_str(&self) -> (r: &str)
        ensures
            r@ == self@,
            is_canonical(r@),
    {
        proof {
            use_type_invariant(self);
        }
        self.0.as_str()
    }

    /// The same URL, as a string that nothing is known of.
    pub fn to_unchecked_url(&self) -> (r: UncheckedUrl)
        ensures
            r@ == self@,
    {
        UncheckedUrl(self.0.clone())
    }

    /// Whether this URL comes strictly before `other`.
    pub fn precedes(&self, other: &RelayUrl) -> (r: bool)
        ensures
            r == url_lt(self@, other@),
    {
        bytes_precede(self.0.as_str().as_bytes(), other.0.as_str().as_bytes())
    }
}

} // verus!
