//! What the display is told on each poll: when to refresh and where its image is.
use vstd::prelude::*;
use vstd::string::StringExecFns;
use crate::api_key::{digit_char, push_digit};
use crate::crypto::{new_key_id, uuid_string, uuid_text};
use crate::extractor::Rejection;

verus! {

/// The decimal text of `n`, without leading zeros.
pub open spec fn decimal_text(n: nat) -> Seq<char>
    decreases n,
{
    if n < 10 {
        seq![digit_char(n)]
    } else {
        decimal_text(n / 10) + seq![digit_char(n % 10)]
    }
}

/// Appends the decimal text of `n`.
pub fn push_decimal_u32(out: &mut String, n: u32)
    ensures
        final(out)@ == old(out)@ + decimal_text(n as nat),
    decreases n,
{
    let ghost start = out@;
    if n >= 10 {
        push_decimal_u32(out, n / 10);
    }
    push_digit(out, (n % 10) as u8);
    assert(out@ =~= start + decimal_text(n as nat));
}

/// Seconds until the next full minute, when the current time is `second` seconds past
/// the minute.
pub fn refresh_rate(second: u32) -> (r: usize)
    requires
        second <= 60,
    ensures
        r == 60 - second,
{
    (60 - second) as usize
}

/// The name of the image file for `name`.
pub fn image_file_name(name: &str) -> (r: String)
    ensures
        r@ == name@ + ".bmp"@,
{
    let mut out = String::from_str(name);
    out.append(".bmp");
    out
}

/// The text of the URL the display fetches image `name` from.
pub open spec fn url_text(host: Seq<char>, port: Option<u16>, name: Seq<char>) -> Seq<char> {
    "http://"@ + host + match port {
        Some(p) => seq![':'] + decimal_text(p as nat),
        None => Seq::<char>::empty(),
    } + "/app/"@ + name + ".bmp"@
}

/// The text of the URL the display fetches image `name` from, on `host` and, where
/// the request named one, `port`.
pub fn image_url_text(host: &str, port: Option<u16>, name: &str) -> (r: String)
    ensures
        r@ == url_text(host@, port, name@),
{
    let mut out = String::from_str("http://");
    out.append(host);
    let ghost after_host = out@;
    match port {
        Some(p) => {
            out.append(":");
            proof {
                reveal_strlit(":");
            }
            push_decimal_u32(&mut out, p as u32);
        },
        None => {},
    }
    let ghost after_port = out@;
    out.append("/app/");
    out.append(name);
    out.append(".bmp");
    assert(out@ =~= after_port + "/app/"@ + name@ + ".bmp"@);
    out
}

/// The serialization of the URL that `text` spells, or `None` where it spells no
/// absolute URL.
pub uninterp spec fn url_serialized(text: Seq<char>) -> Option<Seq<char>>;

/// `url::Url::parse` (which `str::parse` calls), then the parsed URL's serialization
/// (`String::from`).
#[verifier::external_body]
fn parse_url(text: &str) -> (r: Option<String>)
    ensures
        r matches Some(s) ==> url_serialized(text@) == Some(s@),
        r is None ==> url_serialized(text@) is None,
{
    match url::Url::parse(text) {
        Ok(url) => Some(String::from(url)),
        Err(_) => None,
    }
}

/// What the display is asked to do after this poll besides fetching the image
/// (`NoFunction`: nothing; sent as `none`).
#[derive(Debug, Clone, Copy, PartialEq, Eq)]
pub enum SpecialFunction {
    Sleep,
    NoFunction,
}

/// The answer to a display's poll.
pub struct DisplayResponse {
    pub filename: String,
    pub firmware_url: Option<String>,
    pub image_url: String,
    pub image_url_timeout: usize,
    pub refresh_rate: usize,
    pub reset_firmware: bool,
    pub special_function: SpecialFunction,
    pub update_firmware: bool,
}

/// `r` answers a poll for image `name` whose URL parsed to `url` (`None`: did not parse),
/// when the clock is `second` seconds past the minute: the display fetches the image
/// from `url` and polls again at the next full minute; no firmware update, no reset,
/// no special function. An image URL that does not parse is a bad request.
pub open spec fn answers(r: Result<DisplayResponse, Rejection>, name: Seq<char>, url: Option<Seq<char>>, second: nat) -> bool {
    match url {
        Some(u) => r matches Ok(resp) && {
            &&& resp.filename@ == name + ".bmp"@
            &&& resp.firmware_url is None
            &&& resp.image_url@ == u
            &&& resp.image_url_timeout == 0
            &&& resp.refresh_rate == 60 - second
            &&& !resp.reset_firmware
            &&& resp.special_function == SpecialFunction::NoFunction
            &&& !resp.update_firmware
        },
        None => r == Err::<DisplayResponse, Rejection>(Rejection::BadRequest),
    }
}

/// `r` answers a poll for the image with id `id`, on `host` and `port`.
pub open spec fn answers_for_id(r: Result<DisplayResponse, Rejection>, id: Seq<u8>, host: Seq<char>, port: Option<u16>, second: nat) -> bool {
    answers(r, uuid_text(id), url_serialized(url_text(host, port, uuid_text(id))), second)
}

impl DisplayResponse {
    /// The answer for image `name`, given what parsing its URL gave.
    pub fn with_url(name: &str, url: Option<String>, second: u32) -> (r: Result<DisplayResponse, Rejection>)
        requires
            second <= 60,
        ensures
            answers(r, name@, match url { Some(u) => Some(u@), None => None }, second as nat),
    {
        match url {
            Some(image_url) => Ok(DisplayResponse {
                filename: image_file_name(name),
                firmware_url: None,
                image_url,
                image_url_timeout: 0,
                refresh_rate: refresh_rate(second),
                reset_firmware: false,
                special_function: SpecialFunction::NoFunction,
                update_firmware: false,
            }),
            None => Err(Rejection::BadRequest),
        }
    }

    /// The answer when the image is `id`, the request named `host` (and `port`), and the
    /// clock is `second` seconds past the minute.
    pub fn new(id: [u8; 16], second: u32, host: &str, port: Option<u16>) -> (r: Result<DisplayResponse, Rejection>)
        requires
            second <= 60,
        ensures
            answers_for_id(r, id@, host@, port, second as nat),
    {
        let name = uuid_string(id);
        let text = image_url_text(host, port, name.as_str());
        let url = parse_url(text.as_str());
        DisplayResponse::with_url(name.as_str(), url, second)
    }

    /// The answer to a poll: the image gets a fresh version-7 UUID (from the clock and
    /// random bits, with the RFC 4122 variant bits).
    pub fn for_poll(second: u32, host: &str, port: Option<u16>) -> (r: Result<DisplayResponse, Rejection>)
        requires
            second <= 60,
        ensures
            exists|id: Seq<u8>| {
                &&& id.len() == 16
                &&& id[6] / 16 == 7
                &&& id[8] / 64 == 2
                &&& answers_for_id(r, id, host@, port, second as nat)
            },
    {
        let id = new_key_id();
        DisplayResponse::new(id, second, host, port)
    }
}

} // verus!
