//! Events, their tags, and the public keys that the tags refer to.

use vstd::prelude::*;
use crate::error::Error;
use crate::url::UncheckedUrl;

verus! {

/// Whether two arrays of 32 bytes hold the same bytes.
fn same_bytes(a: &[u8; 32], b: &[u8; 32]) -> (r: bool)
    ensures
        r == (a@ == b@),
{
    let mut i: usize = 0;
    while i < 32
        invariant
            0 <= i <= 32,
            a@.take(i as int) == b@.take(i as int),
        decreases 32 - i,
    {
        if a[i] != b[i] {
            return false;
        }
        proof {
            a@.lemma_take_succ_push(i as int);
            b@.lemma_take_succ_push(i as int);
        }
        i = i + 1;
    }
    proof {
        a@.lemma_take_len();
        b@.lemma_take_len();
    }
    true
}

/// The identifier of an event.
#[derive(Clone, Copy, Debug)]
pub struct Id(pub [u8; 32]);

impl View for Id {
    type V = Seq<u8>;

    open spec fn view(&self) -> Seq<u8> {
        self.0@
    }
}

impl PartialEq for Id {
    fn eq(&self, other: &Self) -> (r: bool) {
        same_bytes(&self.0, &other.0)
    }
}

impl Eq for Id {}

impl vstd::std_specs::cmp::PartialEqSpecImpl for Id {
    open spec fn obeys_eq_spec() -> bool {
        true
    }

    open spec fn eq_spec(&self, other: &Self) -> bool {
        self@ == other@
    }
}

/// The public key of a participant.
#[derive(Clone, Copy, Debug)]
pub struct PublicKey(pub [u8; 32]);

impl View for PublicKey {
    type V = Seq<u8>;

    open spec fn view(&self) -> Seq<u8> {
        self.0@
    }
}

impl PartialEq for PublicKey {
    fn eq(&self, other: &Self) -> (r: bool) {
        same_bytes(&self.0, &other.0)
    }
}

impl Eq for PublicKey {}

impl vstd::std_specs::cmp::PartialEqSpecImpl for PublicKey {
    open spec fn obeys_eq_spec() -> bool {
        true
    }

    open spec fn eq_spec(&self, other: &Self) -> bool {
        self@ == other@
    }
}

/// The 32 bytes of the public key that `nostr_types` reads from the
/// hexadecimal string `hex`, or `None` where it reads no key from it.
pub uninterp spec fn public_key_of_hex(hex: Seq<char>) -> Option<Seq<u8>>;

/// Calls `nostr_types::PublicKey::try_from_hex_string`, which decodes `hex`
/// (either case of the letters), refuses what is not 32 bytes long or is not
/// the x coordinate of a point of the curve, and `as_bytes` on the key, which
/// gives those 32 bytes back. The result depends on `hex` alone, so it is given
/// the name `public_key_of_hex`; nothing more is claimed of it.
#[verifier::external_body]
fn decode_public_key(hex: &str) -> (r: Option<[u8; 32]>)
    ensures
        r matches Some(bytes) ==> public_key_of_hex(hex@) == Some(bytes@),
        r is None ==> public_key_of_hex(hex@) is None,
{
    match nostr_types::PublicKey::try_from_hex_string(hex) {
        Ok(key) => key.as_bytes().try_into().ok(),
        Err(_) => None,
    }
}

impl PublicKey {
    /// Reads a public key from its hexadecimal form.
    pub fn try_from_hex_string(hex: &str) -> (r: Result<PublicKey, Error>)
        ensures
            match public_key_of_hex(hex@) {
                Some(bytes) => r matches Ok(key) && key@ == bytes,
                None => r == Err::<PublicKey, Error>(Error::InvalidPublicKey),
            },
    {
        match decode_public_key(hex) {
            Some(bytes) => Ok(PublicKey(bytes)),
            None => Err(Error::InvalidPublicKey),
        }
    }
}

/// A moment, in seconds since the start of 1970.
#[derive(Clone, Copy, Debug, PartialEq, Eq, Structural)]
pub struct Unixtime(pub i64);

/// The name of the tags that refer to a participant.
pub open spec fn pubkey_tag_name() -> Seq<char> {
    seq!['p']
}

/// What a tag with the given fields says when read as a reference to a
/// participant: the participant's key, then a relay where they may be found
/// and a name the author calls them by, where the tag goes on to give these.
/// A tag of another name, or without a second field, is a mismatch; one whose
/// second field is no public key is in error.
pub open spec fn spec_parse_pubkey(fields: Seq<Seq<char>>) -> Result<
    (Seq<u8>, Option<Seq<char>>, Option<Seq<char>>),
    Error,
> {
    if fields.len() < 2 || fields[0] != pubkey_tag_name() {
        Err(Error::TagMismatch)
    } else {
        match public_key_of_hex(fields[1]) {
            None => Err(Error::InvalidPublicKey),
            Some(key) => Ok(
                (
                    key,
                    if fields.len() >= 3 {
                        Some(fields[2])
                    } else {
                        None
                    },
                    if fields.len() >= 4 {
                        Some(fields[3])
                    } else {
                        None
                    },
                ),
            ),
        }
    }
}

/// The key of the participant that a tag with the given fields refers to, if
/// it refers to one.
pub open spec fn tag_pubkey(fields: Seq<Seq<char>>) -> Option<Seq<u8>> {
    match spec_parse_pubkey(fields) {
        Ok(reference) => Some(reference.0),
        Err(_) => None,
    }
}

/// The keys of the participants that the tags refer to, in the order of the
/// tags. Tags that refer to none are passed over.
pub open spec fn spec_tagged_pubkeys(tags: Seq<Tag>) -> Seq<Seq<u8>> {
    tags.filter_map(|tag: Tag| tag_pubkey(tag@))
}

/// The keys as byte strings.
pub open spec fn pubkey_views(keys: Seq<PublicKey>) -> Seq<Seq<u8>> {
    keys.map_values(|key: PublicKey| key@)
}

/// A tag of an event: a tuple of strings, the first of which names it.
#[derive(Debug)]
pub struct Tag(pub Vec<String>);

impl View for Tag {
    type V = Seq<Seq<char>>;

    open spec fn view(&self) -> Seq<Seq<char>> {
        Seq::new(self.0@.len(), |i: int| self.0@[i]@)
    }
}

impl Tag {
    /// A tag that refers to the participant whose key is written in `hex`.
    pub fn new_pubkey(hex: &str) -> (r: Tag)
        ensures
            r@ == seq![pubkey_tag_name(), hex@],
    {
        let mut fields: Vec<String> = Vec::new();
        let name: String = "p".to_owned();
        proof {
            reveal_strlit("p");
            assert(name@ =~= pubkey_tag_name());
        }
        fields.push(name);
        fields.push(hex.to_owned());
        let r = Tag(fields);
        assert(r@ =~= seq![pubkey_tag_name(), hex@]);
        r
    }

    /// Reads the tag as a reference to a participant.
    pub fn parse_pubkey(&self) -> (r: Result<
        (PublicKey, Option<UncheckedUrl>, Option<String>),
        Error,
    >)
        ensures
            match spec_parse_pubkey(self@) {
                Ok(reference) => {
                    &&& r matches Ok(found)
                    &&& found.0@ == reference.0
                    &&& match reference.1 {
                        Some(hint) => found.1 matches Some(url) && url@ == hint,
                        None => found.1 is None,
                    }
                    &&& match reference.2 {
                        Some(petname) => found.2 matches Some(name) && name@ == petname,
                        None => found.2 is None,
                    }
                },
                Err(e) => r matches Err(error) && error == e,
            },
    {
        if self.0.len() < 2 {
            return Err(Error::TagMismatch);
        }
        let name: &str = self.0[0].as_str();
        if name.unicode_len() != 1 || name.get_char(0) != 'p' {
            assert(self@[0] != pubkey_tag_name());
            return Err(Error::TagMismatch);
        }
        assert(self@[0] =~= pubkey_tag_name());
        let key: PublicKey = match PublicKey::try_from_hex_string(self.0[1].as_str()) {
            Ok(key) => key,
            Err(e) => {
                return Err(e);
            },
        };
        let hint: Option<UncheckedUrl> = if self.0.len() >= 3 {
            Some(UncheckedUrl(self.0[2].clone()))
        } else {
            None
        };
        let petname: Option<String> = if self.0.len() >= 4 {
            Some(self.0[3].clone())
        } else {
            None
        };
        Ok((key, hint, petname))
    }
}

/// A signed event, as far as the choice of its relays reads it.
#[derive(Debug)]
pub struct Event {
    /// The identifier of the event.
    pub id: Id,
    /// The key of the author.
    pub pubkey: PublicKey,
    /// The tags, in their order.
    pub tags: Vec<Tag>,
}

impl Event {
    /// The participants that the event's tags refer to, in the order of the
    /// tags.
    pub fn tagged_pubkeys(&self) -> (r: Vec<PublicKey>)
        ensures
            pubkey_views(r@) == spec_tagged_pubkeys(self.tags@),
    {
        let ghost pick = |tag: Tag| tag_pubkey(tag@);
        let mut keys: Vec<PublicKey> = Vec::new();
        let mut i: usize = 0;
        assert(self.tags@.take(0).filter_map(pick) =~= Seq::<Seq<u8>>::empty());
        while i < self.tags.len()
            invariant
                0 <= i <= self.tags@.len(),
                pick == |tag: Tag| tag_pubkey(tag@),
                pubkey_views(keys@) =~= self.tags@.take(i as int).filter_map(pick),
            decreases self.tags@.len() - i,
        {
            proof {
                self.tags@.lemma_filter_map_take_succ(pick, i as int);
            }
            match self.tags[i].parse_pubkey() {
                Ok(found) => {
                    keys.push(found.0);
                },
                Err(_) => {},
            }
            i = i + 1;
        }
        proof {
            self.tags@.lemma_take_len();
        }
        keys
    }
}

} // verus!
