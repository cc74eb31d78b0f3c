//! API keys: a token handed to a device once, and the salted hash kept to check it.
//!
//! A token is `TRM`, `V`, the decimal key version, then the unpadded lowercase base32
//! text of the 16 key-id bytes followed by the 32 secret bytes. The stored hash is the
//! SHA3-512 digest of the key id, the version byte, the owner's bytes and the secret.
use vstd::prelude::*;
use vstd::string::StrSliceExecFns;
use vstd::string::StringExecFns;
use crate::crypto::{
    base32_lower_decode, base32_lower_decoded, base32_lower_encode, base32_lower_text, lemma_base32_first_char, lemma_base32_round_trip,
    bytes_eq_constant_time, new_key_id, random_secret, sha3_512, sha3_512_digest,
};

verus! {

pub const SECRET_LENGTH: usize = 32;
pub const HASH_LENGTH: usize = 64;
pub const KEY_ID_LENGTH: usize = 16;

// ---------------------------------------------------------------------------
// Errors.
// ---------------------------------------------------------------------------

/// Where the text part of a token is malformed.
#[derive(Debug, Clone, Copy, PartialEq, Eq)]
pub enum TokenSyntax {
    /// The token does not start with the expected prefix.
    MissingPrefix,
    /// No `V` follows the prefix.
    MissingVersionMarker,
    /// No digit follows the `V`.
    MissingVersion,
    /// The version digits stand for a number above 255.
    VersionOutOfRange,
}

/// Where the decoded bytes of a token are malformed.
#[derive(Debug, Clone, Copy, PartialEq, Eq)]
pub enum PayloadErr {
    /// Fewer than the 16 bytes of a key id.
    TruncatedId,
    /// Fewer than the 32 bytes of a secret after the key id.
    TruncatedSecret,
    /// Bytes left over after the secret.
    TrailingBytes,
}

/// Why a token was refused.
#[derive(Debug, Clone, Copy, PartialEq, Eq)]
pub enum ParseErr {
    InvalidVersion { received: u8, expected: u8 },
    Syntax(TokenSyntax),
    NoBytes,
    Payload(PayloadErr),
}

/// The presented token does not belong to the stored key.
#[derive(Debug, Clone, Copy, PartialEq, Eq)]
pub struct InvalidHash;

// ---------------------------------------------------------------------------
// Decimal numbers.
// ---------------------------------------------------------------------------

pub open spec fn is_digit(c: char) -> bool {
    '0' <= c && c <= '9'
}

/// The character of decimal digit `d`.
pub open spec fn digit_char(d: nat) -> char {
    if d == 0 { '0' } else if d == 1 { '1' } else if d == 2 { '2' } else if d == 3 { '3' }
    else if d == 4 { '4' } else if d == 5 { '5' } else if d == 6 { '6' } else if d == 7 { '7' }
    else if d == 8 { '8' } else { '9' }
}

/// The value of digit character `c`.
pub open spec fn digit_value(c: char) -> nat {
    (c as u32 - '0' as u32) as nat
}

/// The value of a run of decimal digits.
pub open spec fn decimal_value(s: Seq<char>) -> nat
    decreases s.len(),
{
    if s.len() == 0 {
        0
    } else {
        decimal_value(s.drop_last()) * 10 + digit_value(s.last())
    }
}

/// How many digits lead `s`, counting at most three.
pub open spec fn digit_run(s: Seq<char>) -> nat {
    if s.len() >= 1 && is_digit(s[0]) {
        if s.len() >= 2 && is_digit(s[1]) {
            if s.len() >= 3 && is_digit(s[2]) { 3 } else { 2 }
        } else {
            1
        }
    } else {
        0
    }
}

/// The decimal text of `v`, without leading zeros.
pub open spec fn decimal_chars(v: u8) -> Seq<char> {
    if v >= 100 {
        seq![digit_char((v / 100) as nat), digit_char(((v / 10) % 10) as nat), digit_char((v % 10) as nat)]
    } else if v >= 10 {
        seq![digit_char((v / 10) as nat), digit_char((v % 10) as nat)]
    } else {
        seq![digit_char(v as nat)]
    }
}

/// Appends decimal digit `d`.
pub(crate) fn push_digit(out: &mut String, d: u8)
    requires
        d < 10,
    ensures
        final(out)@ == old(out)@ + seq![digit_char(d as nat)],
{
    let digits = "0123456789";
    proof {
        reveal_strlit("0123456789");
    }
    let idx = d as usize;
    let one = digits.substring_char(idx, idx + 1);
    out.append(one);
    assert(one@ =~= seq![digit_char(d as nat)]);
}

/// Appends the decimal text of `v`.
fn push_decimal(out: &mut String, v: u8)
    ensures
        final(out)@ == old(out)@ + decimal_chars(v),
{
    let ghost start = out@;
    if v >= 100 {
        push_digit(out, v / 100);
    }
    if v >= 10 {
        push_digit(out, (v / 10) % 10);
    }
    push_digit(out, v % 10);
    assert(out@ =~= start + decimal_chars(v));
}

/// Reads the decimal number of one to three digits that leads `s`: the number of
/// characters read and the value. Fails where no digit leads `s`, or where the digits
/// stand for a number above 255.
pub fn decimal_u8(s: &str) -> (r: Result<(usize, u8), TokenSyntax>)
    ensures
        digit_run(s@) == 0 ==> r == Err::<(usize, u8), TokenSyntax>(TokenSyntax::MissingVersion),
        digit_run(s@) > 0 && decimal_value(s@.take(digit_run(s@) as int)) > 255
            ==> r == Err::<(usize, u8), TokenSyntax>(TokenSyntax::VersionOutOfRange),
        digit_run(s@) > 0 && decimal_value(s@.take(digit_run(s@) as int)) <= 255
            ==> r == Ok::<(usize, u8), TokenSyntax>((digit_run(s@) as usize, decimal_value(s@.take(digit_run(s@) as int)) as u8)),
{
    let n = s.unicode_len();
    let mut k: usize = 0;
    let mut v: u32 = 0;
    while k < 3 && k < n && is_ascii_digit(s.get_char(k))
        invariant
            k <= 3,
            k <= n,
            n == s@.len(),
            forall|i: int| 0 <= i < k ==> is_digit(#[trigger] s@[i]),
            v == decimal_value(s@.take(k as int)),
            v < (if k == 0 { 1u32 } else if k == 1 { 10u32 } else if k == 2 { 100u32 } else { 1000u32 }),
        decreases 3 - k,
    {
        let c = s.get_char(k);
        assert(s@.take(k + 1).drop_last() =~= s@.take(k as int));
        v = v * 10 + (c as u32 - '0' as u32);
        k = k + 1;
    }
    assert(k == digit_run(s@));
    if k == 0 {
        return Err(TokenSyntax::MissingVersion);
    }
    if v > 255 {
        return Err(TokenSyntax::VersionOutOfRange);
    }
    Ok((k, v as u8))
}

fn is_ascii_digit(c: char) -> (r: bool)
    ensures
        r == is_digit(c),
{
    '0' <= c && c <= '9'
}

// ---------------------------------------------------------------------------
// Tokens.
// ---------------------------------------------------------------------------

/// The token text handed to a device.
#[derive(Clone)]
pub struct TokenString(String);

impl View for TokenString {
    type V = Seq<char>;

    closed spec fn view(&self) -> Seq<char> {
        self.0@
    }
}

impl TokenString {
    pub fn new_from_string(s: String) -> (r: TokenString)
        ensures
            r@ == s@,
    {
        TokenString(s)
    }

    pub fn new_from_str(s: &str) -> (r: Self)
        ensures
            r@ == s@,
    {
        TokenString(String::from_str(s))
    }

    pub fn as_str(&self) -> (r: &str)
        ensures
            r@ == self@,
    {
        self.0.as_str()
    }
}


/// The prefix every token starts with.
pub open spec fn token_prefix() -> Seq<char> {
    seq!['T', 'R', 'M']
}

/// The key version that tokens are issued and accepted with.
pub const TOKEN_VERSION: u8 = 1;

/// The text of a token: the prefix, `V`, the decimal version, then the base32 text.
pub open spec fn token_text(prefix: Seq<char>, version: u8, encoded: Seq<char>) -> Seq<char> {
    prefix + seq!['V'] + decimal_chars(version) + encoded
}

/// The version a token states and where its base32 text starts, or why its text part is
/// refused.
pub open spec fn token_header(prefix: Seq<char>, token: Seq<char>) -> Result<(u8, nat), ParseErr> {
    let p = prefix.len();
    if token.len() < p || token.take(p as int) != prefix {
        Err(ParseErr::Syntax(TokenSyntax::MissingPrefix))
    } else if token.len() <= p || token[p as int] != 'V' {
        Err(ParseErr::Syntax(TokenSyntax::MissingVersionMarker))
    } else {
        let rest = token.skip((p + 1) as int);
        let k = digit_run(rest);
        if k == 0 {
            Err(ParseErr::Syntax(TokenSyntax::MissingVersion))
        } else if decimal_value(rest.take(k as int)) > 255 {
            Err(ParseErr::Syntax(TokenSyntax::VersionOutOfRange))
        } else {
            Ok((decimal_value(rest.take(k as int)) as u8, p + 1 + k))
        }
    }
}

/// The key id and secret that decoded token bytes hold: exactly 16 then 32 bytes.
pub open spec fn payload_parts(bytes: Seq<u8>) -> Result<(Seq<u8>, Seq<u8>), ParseErr> {
    if bytes.len() < 16 {
        Err(ParseErr::Payload(PayloadErr::TruncatedId))
    } else if bytes.len() < 48 {
        Err(ParseErr::Payload(PayloadErr::TruncatedSecret))
    } else if bytes.len() > 48 {
        Err(ParseErr::Payload(PayloadErr::TrailingBytes))
    } else {
        Ok((bytes.take(16), bytes.subrange(16, 48)))
    }
}

/// What a token holds (version, key id, secret), or why it is refused, for tokens that
/// must start with `prefix` and carry `version`.
pub open spec fn token_parts(prefix: Seq<char>, version: u8, token: Seq<char>) -> Result<(u8, Seq<u8>, Seq<u8>), ParseErr> {
    match token_header(prefix, token) {
        Err(e) => Err(e),
        Ok((v, start)) => {
            if v != version {
                Err(ParseErr::InvalidVersion { received: v, expected: version })
            } else {
                match base32_lower_decoded(token.skip(start as int)) {
                    None => Err(ParseErr::NoBytes),
                    Some(bytes) => match payload_parts(bytes) {
                        Err(e) => Err(e),
                        Ok((id, secret)) => Ok((v, id, secret)),
                    },
                }
            }
        },
    }
}

/// The 32 secret bytes of a key.
pub struct Secret([u8; 32]);

impl Secret {
    pub closed spec fn bytes(&self) -> Seq<u8> {
        self.0@
    }
}

/// A token taken apart: its version, key id and secret.
#[non_exhaustive]
pub struct ParsedToken {
    version: u8,
    uuid: [u8; 16],
    secret: Secret,
}

/// The first 16 bytes of `s`, as a key id.
pub fn uuid_parse(s: &[u8]) -> (r: Option<[u8; 16]>)
    ensures
        s@.len() >= 16 <==> r is Some,
        r matches Some(id) ==> id@ == s@.take(16),
{
    if s.len() < 16 {
        return None;
    }
    let mut out = [0u8; 16];
    let mut i: usize = 0;
    while i < 16
        invariant
            i <= 16,
            s@.len() >= 16,
            forall|j: int| 0 <= j < i ==> out@[j] == s@[j],
        decreases 16 - i,
    {
        out[i] = s[i];
        i = i + 1;
    }
    assert(out@ =~= s@.take(16));
    Some(out)
}

/// The first 32 bytes of `s`, as a secret.
pub fn secret_parse(s: &[u8]) -> (r: Option<Secret>)
    ensures
        s@.len() >= 32 <==> r is Some,
        r matches Some(secret) ==> secret.bytes() == s@.take(32),
{
    if s.len() < 32 {
        return None;
    }
    let mut out = [0u8; 32];
    let mut i: usize = 0;
    while i < 32
        invariant
            i <= 32,
            s@.len() >= 32,
            forall|j: int| 0 <= j < i ==> out@[j] == s@[j],
        decreases 32 - i,
    {
        out[i] = s[i];
        i = i + 1;
    }
    assert(out@ =~= s@.take(32));
    Some(Secret(out))
}

impl ParsedToken {
    /// The version, key id and secret the token holds.
    pub closed spec fn parts(&self) -> (u8, Seq<u8>, Seq<u8>) {
        (self.version, self.uuid@, self.secret.0@)
    }

    /// Takes apart a token of the current version and prefix.
    pub fn parse(token: &TokenString) -> (r: Result<ParsedToken, ParseErr>)
        ensures
            match token_parts(token_prefix(), TOKEN_VERSION, token@) {
                Ok(parts) => r matches Ok(p) && p.parts() == parts,
                Err(e) => r == Err::<ParsedToken, ParseErr>(e),
            },
    {
        TokenStringParams::new().parse_token(token)
    }

    /// Builds the token from bytes decoded from its base32 text: a 16-byte key id
    /// followed by a 32-byte secret and nothing more.
    pub fn from_payload(version: u8, bytes: &[u8]) -> (r: Result<ParsedToken, ParseErr>)
        ensures
            match payload_parts(bytes@) {
                Ok((id, secret)) => r matches Ok(p) && p.parts() == (version, id, secret),
                Err(e) => r == Err::<ParsedToken, ParseErr>(e),
            },
    {
        let uuid = match uuid_parse(bytes) {
            Some(id) => id,
            None => return Err(ParseErr::Payload(PayloadErr::TruncatedId)),
        };
        let rest = vstd::slice::slice_subrange(bytes, 16, bytes.len());
        let secret = match secret_parse(rest) {
            Some(secret) => secret,
            None => return Err(ParseErr::Payload(PayloadErr::TruncatedSecret)),
        };
        if rest.len() != 32 {
            return Err(ParseErr::Payload(PayloadErr::TrailingBytes));
        }
        assert(rest@.take(32) =~= bytes@.subrange(16, 48));
        Ok(ParsedToken { version, uuid, secret })
    }

    pub fn version(&self) -> (r: u8)
        ensures
            r == self.parts().0,
    {
        self.version
    }

    pub fn uuid(&self) -> (r: &[u8; 16])
        ensures
            r@ == self.parts().1,
    {
        &self.uuid
    }
}

/// How tokens are framed: their prefix and the version they carry.
struct TokenStringParams {
    prefix: &'static str,
    version: u8,
}

impl TokenStringParams {
    fn new() -> (r: Self)
        ensures
            r.prefix@ == token_prefix(),
            r.version == TOKEN_VERSION,
    {
        let prefix = "TRM";
        proof {
            reveal_strlit("TRM");
        }
        TokenStringParams { prefix, version: 1 }
    }

    /// The token carrying `token_data`.
    fn build_token(&self, token_data: &[u8]) -> (r: TokenString)
        ensures
            r@ == token_text(self.prefix@, self.version, base32_lower_text(token_data@)),
            base32_lower_decoded(base32_lower_text(token_data@)) == Some(token_data@),
    {
        let encoded = base32_lower_encode(token_data);
        proof {
            lemma_base32_round_trip(token_data@);
        }
        let mut token = String::from_str(self.prefix);
        token.append("V");
        proof {
            reveal_strlit("V");
        }
        push_decimal(&mut token, self.version);
        token.append(encoded.as_str());
        assert(token@ =~= token_text(self.prefix@, self.version, base32_lower_text(token_data@)));
        TokenString(token)
    }

    /// The version and the start of the base32 text, or why the text part is refused.
    fn parse_header(&self, s: &str) -> (r: Result<(u8, usize), ParseErr>)
        ensures
            match token_header(self.prefix@, s@) {
                Ok((v, start)) => r == Ok::<(u8, usize), ParseErr>((v, start as usize)),
                Err(e) => r == Err::<(u8, usize), ParseErr>(e),
            },
    {
        let n = s.unicode_len();
        let p = self.prefix.unicode_len();
        if n < p {
            return Err(ParseErr::Syntax(TokenSyntax::MissingPrefix));
        }
        let mut i: usize = 0;
        while i < p
            invariant
                p == self.prefix@.len(),
                n == s@.len(),
                p <= n,
                i <= p,
                s@.take(i as int) == self.prefix@.take(i as int),
            decreases p - i,
        {
            if s.get_char(i) != self.prefix.get_char(i) {
                assert(s@.take(p as int)[i as int] != self.prefix@[i as int]);
                return Err(ParseErr::Syntax(TokenSyntax::MissingPrefix));
            }
            i = i + 1;
            assert(s@.take(i as int) =~= self.prefix@.take(i as int));
        }
        assert(self.prefix@.take(p as int) =~= self.prefix@);
        if n == p || s.get_char(p) != 'V' {
            return Err(ParseErr::Syntax(TokenSyntax::MissingVersionMarker));
        }
        let rest = s.substring_char(p + 1, n);
        assert(rest@ =~= s@.skip(p + 1));
        match decimal_u8(rest) {
            Err(e) => Err(ParseErr::Syntax(e)),
            Ok((k, v)) => Ok((v, p + 1 + k)),
        }
    }

    fn parse_token(&self, token: &TokenString) -> (r: Result<ParsedToken, ParseErr>)
        ensures
            match token_parts(self.prefix@, self.version, token@) {
                Ok(parts) => r matches Ok(p) && p.parts() == parts,
                Err(e) => r == Err::<ParsedToken, ParseErr>(e),
            },
    {
        let s = token.0.as_str();
        let (version, start) = match self.parse_header(s) {
            Ok(h) => h,
            Err(e) => return Err(e),
        };
        if version != self.version {
            return Err(ParseErr::InvalidVersion { received: version, expected: self.version });
        }
        let text = s.substring_char(start, s.unicode_len());
        assert(text@ =~= s@.skip(start as int));
        let bytes = match base32_lower_decode(text) {
            Some(bytes) => bytes,
            None => return Err(ParseErr::NoBytes),
        };
        ParsedToken::from_payload(version, bytes.as_slice())
    }
}


// ---------------------------------------------------------------------------
// Hashes and keys.
// ---------------------------------------------------------------------------

/// The bytes that are hashed to check a token: key id, version, owner, secret.
pub open spec fn key_material(key_id: Seq<u8>, version: u8, owner: Seq<u8>, secret: Seq<u8>) -> Seq<u8> {
    key_id + seq![version] + owner + secret
}

/// The stored SHA3-512 hash of a key's material.
#[derive(Clone)]
pub struct SecretHash([u8; 64]);

impl SecretHash {
    pub closed spec fn bytes(&self) -> Seq<u8> {
        self.0@
    }

    /// The hash with the given bytes, as read back from the store.
    pub fn from_bytes(bytes: [u8; 64]) -> (r: SecretHash)
        ensures
            r.bytes() == bytes@,
    {
        SecretHash(bytes)
    }

    pub fn as_bytes(&self) -> (r: &[u8])
        ensures
            r@ == self.bytes(),
    {
        self.0.as_slice()
    }

    /// Whether `token`, presented by `owner`, belongs to the key this hash was stored for:
    /// the hash of the token's material with the owner's bytes must equal the stored one.
    pub fn compare_hash(&self, token: &ParsedToken, owner: &[u8]) -> (r: Result<(), InvalidHash>)
        ensures
            r is Ok <==> self.bytes() == sha3_512(
                key_material(token.parts().1, token.parts().0, owner@, token.parts().2),
            ),
            r is Err ==> r == Err::<(), InvalidHash>(InvalidHash),
    {
        let hash = KeyMaterial {
            key_id: &token.uuid,
            version: token.version,
            owner,
            secret: token.secret.0.as_slice(),
        }.create_hash();
        if bytes_eq_constant_time(hash.0.as_slice(), self.0.as_slice()) {
            Ok(())
        } else {
            Err(InvalidHash)
        }
    }
}

struct KeyMaterial<'a> {
    key_id: &'a [u8; 16],
    version: u8,
    owner: &'a [u8],
    secret: &'a [u8],
}

impl<'a> KeyMaterial<'a> {
    fn create_hash(self) -> (r: SecretHash)
        ensures
            r.bytes() == sha3_512(key_material(self.key_id@, self.version, self.owner@, self.secret@)),
    {
        let mut data: Vec<u8> = Vec::new();
        crate::le::extend_bytes(&mut data, self.key_id.as_slice());
        data.push(self.version);
        crate::le::extend_bytes(&mut data, self.owner);
        crate::le::extend_bytes(&mut data, self.secret);
        assert(data@ =~= key_material(self.key_id@, self.version, self.owner@, self.secret@));
        SecretHash(sha3_512_digest(data.as_slice()))
    }
}

/// A stored API key: its id, the hash that checks its token, and its owner.
#[non_exhaustive]
pub struct ApiKey<Owner> {
    pub id: [u8; 16],
    pub hashed_secret: SecretHash,
    pub owner: Owner,
    pub version: u8,
}

impl<Owner> ApiKey<Owner> {
    /// The stored key with the given fields, as read back from the store.
    pub fn new(id: [u8; 16], hashed_secret: SecretHash, owner: Owner, version: u8) -> (r: ApiKey<Owner>)
        ensures
            r.id == id,
            r.hashed_secret == hashed_secret,
            r.owner == owner,
            r.version == version,
    {
        ApiKey { id, hashed_secret, owner, version }
    }
}

/// A freshly issued key and the token to hand to its owner.
#[non_exhaustive]
pub struct ApiKeyPair<Owner> {
    pub api_key: ApiKey<Owner>,
    pub token: TokenString,
}

/// `pair` is the key with id `id` and secret `secret` issued to `owner`, whose bytes are
/// `owner_bytes`: the token carries the id and secret, and the stored hash is that of
/// the key's material.
pub open spec fn issued_from<Owner>(
    pair: ApiKeyPair<Owner>,
    owner: Owner,
    owner_bytes: Seq<u8>,
    id: Seq<u8>,
    secret: Seq<u8>,
) -> bool {
    &&& pair.api_key.id@ == id
    &&& pair.api_key.owner == owner
    &&& pair.api_key.version == TOKEN_VERSION
    &&& pair.api_key.hashed_secret.bytes() == sha3_512(key_material(id, TOKEN_VERSION, owner_bytes, secret))
    &&& pair.token@ == token_text(token_prefix(), TOKEN_VERSION, base32_lower_text(id + secret))
    &&& base32_lower_decoded(base32_lower_text(id + secret)) == Some(id + secret)
}

impl<Owner> ApiKeyPair<Owner> {
    /// Issues a new key to `owner` (whose identifying bytes are `owner_bytes`): a fresh
    /// version-7 key id and 32 random secret bytes.
    pub fn new(owner: Owner, owner_bytes: &[u8]) -> (r: ApiKeyPair<Owner>)
        ensures
            exists|secret: Seq<u8>| secret.len() == SECRET_LENGTH
                && #[trigger] issued_from(r, owner, owner_bytes@, r.api_key.id@, secret)
                && (r.api_key.id@[0] < 0xD0 ==> token_parts(token_prefix(), TOKEN_VERSION, r.token@)
                    == Ok::<(u8, Seq<u8>, Seq<u8>), ParseErr>((TOKEN_VERSION, r.api_key.id@, secret))),
            r.token@.len() == 82,
            r.api_key.id@[6] / 16 == 7,
            r.api_key.id@[8] / 64 == 2,
    {
        let id = new_key_id();
        let secret = random_secret();
        let r = Self::from_parts(owner, owner_bytes, id, secret);
        assert(issued_from(r, owner, owner_bytes@, r.api_key.id@, secret@));
        r
    }

    /// The key with the given id and secret issued to `owner`.
    pub fn from_parts(owner: Owner, owner_bytes: &[u8], id: [u8; 16], secret: [u8; 32]) -> (r: ApiKeyPair<Owner>)
        ensures
            issued_from(r, owner, owner_bytes@, id@, secret@),
            r.token@.len() == 82,
            id[0] < 0xD0 ==> token_parts(token_prefix(), TOKEN_VERSION, r.token@)
                == Ok::<(u8, Seq<u8>, Seq<u8>), ParseErr>((TOKEN_VERSION, id@, secret@)),
    {
        let params = TokenStringParams::new();
        let mut token_data: Vec<u8> = Vec::new();
        crate::le::extend_bytes(&mut token_data, id.as_slice());
        crate::le::extend_bytes(&mut token_data, secret.as_slice());
        let secret_hash = KeyMaterial {
            key_id: &id,
            version: params.version,
            owner: owner_bytes,
            secret: secret.as_slice(),
        }.create_hash();
        let token = params.build_token(token_data.as_slice());
        assert(token_data@ =~= id@ + secret@);
        let r = ApiKeyPair {
            api_key: ApiKey { id, hashed_secret: secret_hash, owner, version: params.version },
            token,
        };
        proof {
            lemma_issued_token_verifies(r, owner, owner_bytes@, id@, secret@);
        }
        r
    }
}


// ---------------------------------------------------------------------------
// Laws.
// ---------------------------------------------------------------------------

proof fn lemma_digit_char(d: nat)
    requires
        d < 10,
    ensures
        is_digit(digit_char(d)),
        digit_value(digit_char(d)) == d,
{
}

/// The decimal text of a byte reads back as that byte.
pub proof fn lemma_decimal_roundtrip(v: u8)
    ensures
        1 <= decimal_chars(v).len() <= 3,
        forall|i: int| 0 <= i < decimal_chars(v).len() ==> is_digit(#[trigger] decimal_chars(v)[i]),
        decimal_value(decimal_chars(v)) == v,
{
    let s = decimal_chars(v);
    lemma_digit_char((v % 10) as nat);
    lemma_digit_char(((v / 10) % 10) as nat);
    assert(digit_value(s.last()) == v % 10);
    let one = s.drop_last();
    if v >= 100 {
        lemma_digit_char((v / 100) as nat);
        let two = one.drop_last();
        assert(two.drop_last() =~= Seq::<char>::empty());
        assert(two =~= seq![s[0]]);
        assert(one =~= seq![s[0], s[1]]);
        assert(decimal_value(two) == decimal_value(two.drop_last()) * 10 + digit_value(two.last()));
        assert(decimal_value(two) == v / 100);
        assert(decimal_value(one) == decimal_value(two) * 10 + digit_value(one.last()));
        assert(decimal_value(one) == (v / 100) * 10 + (v / 10) % 10);
        assert(((v / 100) * 10 + (v / 10) % 10) * 10 + v % 10 == v) by (nonlinear_arith);
    } else if v >= 10 {
        lemma_digit_char((v / 10) as nat);
        assert(one.drop_last() =~= Seq::<char>::empty());
        assert(one =~= seq![s[0]]);
        assert(decimal_value(one) == decimal_value(one.drop_last()) * 10 + digit_value(one.last()));
        assert(decimal_value(one) == v / 10);
        assert((v / 10) * 10 + v % 10 == v) by (nonlinear_arith);
    } else {
        lemma_digit_char(v as nat);
        assert(one =~= Seq::<char>::empty());
    }
    assert(decimal_value(s) == decimal_value(one) * 10 + digit_value(s.last()));
}

/// A token reads back the version it was written with, and its base32 text starts right
/// after the version digits, provided the base32 text does not itself start with a digit
/// that would run on from a version of fewer than three digits.
pub proof fn lemma_token_header_roundtrip(prefix: Seq<char>, version: u8, encoded: Seq<char>)
    requires
        decimal_chars(version).len() < 3 ==> !(encoded.len() > 0 && is_digit(encoded[0])),
    ensures
        token_header(prefix, token_text(prefix, version, encoded))
            == Ok::<(u8, nat), ParseErr>((version, prefix.len() + 1 + decimal_chars(version).len())),
        token_text(prefix, version, encoded).skip((prefix.len() + 1 + decimal_chars(version).len()) as int)
            == encoded,
{
    let token = token_text(prefix, version, encoded);
    let digits = decimal_chars(version);
    let p = prefix.len();
    lemma_decimal_roundtrip(version);
    assert(token.take(p as int) =~= prefix);
    assert(token[p as int] == 'V');
    let rest = token.skip((p + 1) as int);
    assert(rest =~= digits + encoded);
    assert(digit_run(rest) == digits.len());
    assert(rest.take(digits.len() as int) =~= digits);
    assert(token.skip((p + 1 + digits.len()) as int) =~= encoded);
}

/// A token issued for a key is 82 characters long. It takes apart into the key's
/// version, id and secret, and the key's stored hash is the hash of that material with
/// the owner's bytes, so `compare_hash` accepts the token from that owner. The round trip
/// holds when the first id byte is below `0xD0`: from there on the base32 text starts
/// with a digit, which the one-digit version absorbs.
pub proof fn lemma_issued_token_verifies<Owner>(
    pair: ApiKeyPair<Owner>,
    owner: Owner,
    owner_bytes: Seq<u8>,
    id: Seq<u8>,
    secret: Seq<u8>,
)
    requires
        issued_from(pair, owner, owner_bytes, id, secret),
        id.len() == KEY_ID_LENGTH,
        secret.len() == SECRET_LENGTH,
    ensures
        pair.token@.len() == 82,
        id[0] < 0xD0 ==> token_parts(token_prefix(), TOKEN_VERSION, pair.token@) == Ok::<(u8, Seq<u8>, Seq<u8>), ParseErr>(
            (TOKEN_VERSION, id, secret),
        ),
        pair.api_key.hashed_secret.bytes() == sha3_512(key_material(id, TOKEN_VERSION, owner_bytes, secret)),
{
    let data = id + secret;
    let encoded = base32_lower_text(data);
    lemma_base32_first_char(data);
    assert(data[0] == id[0]);
    assert(encoded.len() == 77);
    assert(decimal_chars(TOKEN_VERSION) =~= seq!['1']);
    assert(token_text(token_prefix(), TOKEN_VERSION, encoded).len() == 82);
    if id[0] < 0xD0 {
        assert(!is_digit(encoded[0]));
        lemma_token_header_roundtrip(token_prefix(), TOKEN_VERSION, encoded);
    }
    assert(decimal_chars(TOKEN_VERSION).len() == 1);
    assert((id + secret).take(16) =~= id);
    assert((id + secret).subrange(16, 48) =~= secret);
}

} // verus!
