//! How requests are authenticated: the device id and access token they carry, and the
//! decision on a stored key.
use vstd::prelude::*;
use crate::api_key::{
    issued_from, key_material, lemma_issued_token_verifies, token_parts, token_prefix, ApiKey, ApiKeyPair,
    ParsedToken, TokenString, KEY_ID_LENGTH, SECRET_LENGTH, TOKEN_VERSION,
};
use crate::crypto::sha3_512;

verus! {

/// What a request header holds.
pub enum HeaderText {
    /// The header is absent.
    Missing,
    /// The header's value is not visible ASCII text.
    NotText,
    /// The header's text.
    Text(String),
}

/// How a request is turned away.
#[derive(Debug, Clone, Copy, PartialEq, Eq)]
pub enum Rejection {
    BadRequest,
    Unauthorized,
    InternalServerError,
}

impl Rejection {
    /// The HTTP status code of the rejection.
    pub fn status_code(&self) -> (r: u16)
        ensures
            r == match self {
                Rejection::BadRequest => 400u16,
                Rejection::Unauthorized => 401u16,
                Rejection::InternalServerError => 500u16,
            },
    {
        match self {
            Rejection::BadRequest => 400,
            Rejection::Unauthorized => 401,
            Rejection::InternalServerError => 500,
        }
    }
}

/// The bytes of the MAC address that `text` spells (six or eight bytes, as hexadecimal
/// pairs separated by `-`, `:` or `.`), or `None` where it spells none.
pub uninterp spec fn mac_address_parsed(text: Seq<char>) -> Option<Seq<u8>>;

/// `str::parse::<macaddr::MacAddr>` followed by `MacAddr::as_bytes`: the bytes of the
/// MAC address that `text` spells. A parsed address is an EUI-48 or an EUI-64 one, so it
/// has six or eight bytes.
#[verifier::external_body]
fn parse_mac_address(text: &str) -> (r: Option<Vec<u8>>)
    ensures
        r matches Some(bytes) ==> mac_address_parsed(text@) == Some(bytes@) && (bytes@.len() == 6
            || bytes@.len() == 8),
        r is None ==> mac_address_parsed(text@) is None,
{
    text.parse::<macaddr::MacAddr>().ok().map(|addr| addr.as_bytes().to_vec())
}

/// The MAC address a device identifies itself with.
pub struct DeviceId {
    bytes: Vec<u8>,
}

/// Why a device id was refused.
#[derive(Debug, Clone, Copy, PartialEq, Eq)]
pub enum DeviceIdErr {
    /// No `ID` header.
    MissingHeader,
    /// The `ID` header is not text.
    HeaderValue,
    /// The `ID` header is not a MAC address.
    ParseErr,
}

impl DeviceId {
    pub closed spec fn bytes(&self) -> Seq<u8> {
        self.bytes@
    }

    /// The address bytes: six or eight.
    pub fn as_bytes(&self) -> (r: &[u8])
        ensures
            r@ == self.bytes(),
    {
        self.bytes.as_slice()
    }

    /// The device id of a six- or eight-byte address.
    pub fn from_bytes(bytes: &[u8]) -> (r: Option<DeviceId>)
        ensures
            (bytes@.len() == 6 || bytes@.len() == 8) <==> r is Some,
            r matches Some(id) ==> id.bytes() == bytes@,
    {
        if bytes.len() == 6 || bytes.len() == 8 {
            let mut v: Vec<u8> = Vec::new();
            crate::le::extend_bytes(&mut v, bytes);
            Some(DeviceId { bytes: v })
        } else {
            None
        }
    }

    /// The device id that the `ID` header carries.
    pub fn from_header(header: HeaderText) -> (r: Result<DeviceId, DeviceIdErr>)
        ensures
            match header {
                HeaderText::Missing => r == Err::<DeviceId, DeviceIdErr>(DeviceIdErr::MissingHeader),
                HeaderText::NotText => r == Err::<DeviceId, DeviceIdErr>(DeviceIdErr::HeaderValue),
                HeaderText::Text(s) => match mac_address_parsed(s@) {
                    Some(b) => r matches Ok(id) && id.bytes() == b && (b.len() == 6 || b.len() == 8),
                    None => r == Err::<DeviceId, DeviceIdErr>(DeviceIdErr::ParseErr),
                },
            },
    {
        match header {
            HeaderText::Missing => Err(DeviceIdErr::MissingHeader),
            HeaderText::NotText => Err(DeviceIdErr::HeaderValue),
            HeaderText::Text(s) => match parse_mac_address(s.as_str()) {
                Some(bytes) => Ok(DeviceId { bytes }),
                None => Err(DeviceIdErr::ParseErr),
            },
        }
    }
}

/// The access token a request carries.
pub struct TokenExtractor(ParsedToken);

/// The store could not be read.
#[derive(Debug, Clone, Copy, PartialEq, Eq)]
pub struct LookupFailed;

impl TokenExtractor {
    pub closed spec fn token(&self) -> ParsedToken {
        self.0
    }

    pub fn parsed(&self) -> (r: &ParsedToken)
        ensures
            *r == self.token(),
    {
        &self.0
    }

    pub fn into_parsed(self) -> (r: ParsedToken)
        ensures
            r == self.token(),
    {
        self.0
    }

    /// The token of the `access-token` header: a missing header or one that does not
    /// take apart as a token is unauthorized, one that is not text is a bad request.
    pub fn from_header(header: HeaderText) -> (r: Result<TokenExtractor, Rejection>)
        ensures
            match header {
                HeaderText::Missing => r == Err::<TokenExtractor, Rejection>(Rejection::Unauthorized),
                HeaderText::NotText => r == Err::<TokenExtractor, Rejection>(Rejection::BadRequest),
                HeaderText::Text(s) => match token_parts(token_prefix(), TOKEN_VERSION, s@) {
                    Ok(parts) => r matches Ok(t) && t.token().parts() == parts,
                    Err(_) => r == Err::<TokenExtractor, Rejection>(Rejection::Unauthorized),
                },
            },
    {
        match header {
            HeaderText::Missing => Err(Rejection::Unauthorized),
            HeaderText::NotText => Err(Rejection::BadRequest),
            HeaderText::Text(s) => {
                let token = TokenString::new_from_str(s.as_str());
                match ParsedToken::parse(&token) {
                    Ok(parsed) => Ok(TokenExtractor(parsed)),
                    Err(_) => Err(Rejection::Unauthorized),
                }
            },
        }
    }
}

/// A request whose token checks out against the key stored for it.
#[must_use]
pub struct ApiKeyExtractor {
    pub parsed_token: ParsedToken,
    pub api_key: ApiKey<DeviceId>,
}

/// Whether `key` accepts `token` from `device`.
pub open spec fn key_accepts(key: ApiKey<DeviceId>, token: ParsedToken, device: DeviceId) -> bool {
    key.hashed_secret.bytes() == sha3_512(key_material(token.parts().1, token.parts().0, device.bytes(), token.parts().2))
}

/// A key issued to a device lets that device in: the token issued with the key takes
/// apart into the key's version, id and secret, and the stored key accepts a token with
/// those parts from that device (so `from_record` lets the request through). The round
/// trip holds when the first id byte is below `0xD0`.
pub proof fn lemma_issued_key_admits_device(
    pair: ApiKeyPair<DeviceId>,
    device: DeviceId,
    id: Seq<u8>,
    secret: Seq<u8>,
    token: ParsedToken,
)
    requires
        issued_from(pair, device, device.bytes(), id, secret),
        id.len() == KEY_ID_LENGTH,
        secret.len() == SECRET_LENGTH,
        id[0] < 0xD0,
        token.parts() == (TOKEN_VERSION, id, secret),
    ensures
        token_parts(token_prefix(), TOKEN_VERSION, pair.token@) == Ok::<(u8, Seq<u8>, Seq<u8>), crate::api_key::ParseErr>(
            (TOKEN_VERSION, id, secret),
        ),
        key_accepts(pair.api_key, token, device),
{
    lemma_issued_token_verifies(pair, device, device.bytes(), id, secret);
}

impl ApiKeyExtractor {
    /// What to look up for a request: its token and device, or the rejection. A refused
    /// token keeps its rejection; a refused device id is a bad request.
    pub fn request(
        token: Result<TokenExtractor, Rejection>,
        device: Result<DeviceId, DeviceIdErr>,
    ) -> (r: Result<(TokenExtractor, DeviceId), Rejection>)
        ensures
            match (token, device) {
                (Err(e), _) => r == Err::<(TokenExtractor, DeviceId), Rejection>(e),
                (Ok(_), Err(_)) => r == Err::<(TokenExtractor, DeviceId), Rejection>(Rejection::BadRequest),
                (Ok(t), Ok(d)) => r matches Ok((t2, d2)) && t2 == t && d2 == d,
            },
    {
        let t = match token {
            Ok(t) => t,
            Err(e) => return Err(e),
        };
        match device {
            Ok(d) => Ok((t, d)),
            Err(_) => Err(Rejection::BadRequest),
        }
    }

    /// The key id to look the stored key up by.
    pub fn key_id(token: &TokenExtractor) -> (r: [u8; 16])
        ensures
            r@ == token.token().parts().1,
    {
        *token.0.uuid()
    }

    /// The decision on the stored key found for a request: a failed lookup is an
    /// internal error, a missing key or one whose hash does not match the token and
    /// device is unauthorized, and otherwise the request is let through with the key.
    pub fn from_record(
        token: TokenExtractor,
        device: DeviceId,
        lookup: Result<Option<ApiKey<DeviceId>>, LookupFailed>,
    ) -> (r: Result<ApiKeyExtractor, Rejection>)
        ensures
            match lookup {
                Err(_) => r == Err::<ApiKeyExtractor, Rejection>(Rejection::InternalServerError),
                Ok(None) => r == Err::<ApiKeyExtractor, Rejection>(Rejection::Unauthorized),
                Ok(Some(key)) => if key_accepts(key, token.token(), device) {
                    r matches Ok(e) && e.api_key == key && e.parsed_token == token.token()
                } else {
                    r == Err::<ApiKeyExtractor, Rejection>(Rejection::Unauthorized)
                },
            },
    {
        let key = match lookup {
            Err(_) => return Err(Rejection::InternalServerError),
            Ok(None) => return Err(Rejection::Unauthorized),
            Ok(Some(key)) => key,
        };
        match key.hashed_secret.compare_hash(&token.0, device.as_bytes()) {
            Ok(()) => Ok(ApiKeyExtractor { parsed_token: token.0, api_key: key }),
            Err(_) => Err(Rejection::Unauthorized),
        }
    }
}

} // verus!
