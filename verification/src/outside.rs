//! Calls into other crates, and what is relied on of each.

use crate::json::{Json, JsonView};
use crate::session::opt_text;
use crate::text::{decimal, join};
use vstd::prelude::*;
use vstd::utf8::encode_utf8;

verus! {

/// The views of a list of pairs of texts.
pub open spec fn pair_views(v: Seq<(String, String)>) -> Seq<(Seq<char>, Seq<char>)> {
    Seq::new(v.len(), |i: int| (v[i].0@, v[i].1@))
}

// ---------------------------------------------------------------------------
// url

/// The parts of a URL that the library reads.
pub struct UrlParts {
    pub host: Option<String>,
    pub path: String,
    pub query: Vec<(String, String)>,
}

impl UrlParts {
    /// The host, the path and the decoded query pairs in order.
    pub open spec fn view(&self) -> (Option<Seq<char>>, Seq<char>, Seq<(Seq<char>, Seq<char>)>) {
        (
            match self.host {
                Some(h) => Some(h@),
                None => None,
            },
            self.path@,
            pair_views(self.query@),
        )
    }
}

/// The host, the path and the decoded query pairs of a text that is an absolute URL.
pub uninterp spec fn url_parts(url: Seq<char>) -> Option<
    (Option<Seq<char>>, Seq<char>, Seq<(Seq<char>, Seq<char>)>),
>;

/// `url::Url::parse`, read through `host_str`, `path` and `query_pairs`. The result is a
/// function of the text; nothing is claimed of which texts are URLs.
#[verifier::external_body]
pub(crate) fn parse_url(url: &str) -> (r: Option<UrlParts>)
    ensures
        match r {
            Some(parts) => url_parts(url@) == Some(parts@),
            None => url_parts(url@) is None,
        },
{
    let parsed = url::Url::parse(url).ok()?;
    Some(UrlParts {
        host: parsed.host_str().map(|host| host.to_string()),
        path: parsed.path().to_string(),
        query: parsed.query_pairs().map(|(k, v)| (k.into_owned(), v.into_owned())).collect(),
    })
}

/// A digit of a byte in base sixteen, in upper case.
pub open spec fn hex_digit(n: int) -> char {
    "0123456789ABCDEF"@[n]
}

/// A byte in the form `application/x-www-form-urlencoded`: letters, digits and four marks stand
/// for themselves, a space is a plus sign, and all else is escaped.
pub open spec fn form_byte(b: u8) -> Seq<char> {
    if 0x30 <= b <= 0x39 || 0x41 <= b <= 0x5a || 0x61 <= b <= 0x7a || b == 0x2a || b == 0x2d || b
        == 0x2e || b == 0x5f {
        seq![b as char]
    } else if b == 0x20 {
        "+"@
    } else {
        seq!['%', hex_digit(b as int / 16), hex_digit(b as int % 16)]
    }
}

/// Bytes in the form `application/x-www-form-urlencoded`.
pub open spec fn form_bytes(bytes: Seq<u8>) -> Seq<char>
    decreases bytes.len(),
{
    if bytes.len() == 0 {
        Seq::empty()
    } else {
        form_byte(bytes[0]) + form_bytes(bytes.drop_first())
    }
}

/// Pairs in the form `application/x-www-form-urlencoded`: the UTF-8 bytes of each name and of
/// each value, with an equals sign between the two and ampersands between the pairs.
pub open spec fn form_encoded(pairs: Seq<(Seq<char>, Seq<char>)>) -> Seq<char> {
    join(
        Seq::new(
            pairs.len(),
            |i: int|
                form_bytes(encode_utf8(pairs[i].0)) + "="@ + form_bytes(encode_utf8(pairs[i].1)),
        ),
        "&"@,
    )
}

/// `url::form_urlencoded::Serializer` with `extend_pairs` and `finish` on an empty string: the
/// form-encoded pairs.
#[verifier::external_body]
pub(crate) fn form_encode(pairs: &[(String, String)]) -> (r: String)
    ensures
        r@ == form_encoded(pair_views(pairs@)),
{
    url::form_urlencoded::Serializer::new(String::new()).extend_pairs(pairs).finish()
}

// ---------------------------------------------------------------------------
// flate2 and brotli

/// The views of a result of bytes.
pub open spec fn bytes_result(r: Result<Vec<u8>, String>) -> Result<Seq<u8>, Seq<char>> {
    match r {
        Ok(bytes) => Ok(bytes@),
        Err(message) => Err(message@),
    }
}

/// What a zlib stream decompresses to, or the text of the error.
pub uninterp spec fn inflated(data: Seq<u8>) -> Result<Seq<u8>, Seq<char>>;

/// `flate2::read::ZlibDecoder` read to its end. The result is a function of the bytes; nothing
/// is claimed of which bytes are zlib streams.
#[verifier::external_body]
pub(crate) fn inflate(data: &[u8]) -> (r: Result<Vec<u8>, String>)
    ensures
        bytes_result(r) == inflated(data@),
{
    let mut output = Vec::new();
    let mut decoder = flate2::read::ZlibDecoder::new(data);
    match std::io::Read::read_to_end(&mut decoder, &mut output) {
        Ok(_) => Ok(output),
        Err(err) => Err(err.to_string()),
    }
}

/// What a Brotli stream decompresses to, or the text of the error.
pub uninterp spec fn unbrotlied(data: Seq<u8>) -> Result<Seq<u8>, Seq<char>>;

/// `brotli::Decompressor` with a buffer of 4096 bytes, read to its end. The result is a
/// function of the bytes; nothing is claimed of which bytes are Brotli streams.
#[verifier::external_body]
pub(crate) fn unbrotli(data: &[u8]) -> (r: Result<Vec<u8>, String>)
    ensures
        bytes_result(r) == unbrotlied(data@),
{
    let mut output = Vec::new();
    let mut decoder = brotli::Decompressor::new(data, 4096);
    match std::io::Read::read_to_end(&mut decoder, &mut output) {
        Ok(_) => Ok(output),
        Err(err) => Err(err.to_string()),
    }
}

// ---------------------------------------------------------------------------
// chrono

/// A time in UTC, given by second and nanosecond of Unix time, in the form of a pattern. None
/// where the calendar does not reach it.
pub uninterp spec fn utc_text(secs: i64, nanos: u32, pattern: Seq<char>) -> Option<Seq<char>>;

/// `chrono::DateTime::from_timestamp`, then `format`. The result is a function of the time and
/// the pattern; nothing is claimed of the digits.
#[verifier::external_body]
pub(crate) fn format_utc(secs: i64, nanos: u32, pattern: &str) -> (r: Option<String>)
    requires
        pattern@ == "%Y%m%d-%H%M%S"@ || pattern@ == "%Y%m%d"@ || pattern@ == "%H%M%S"@ || pattern@
            == "%Y-%m-%d"@ || pattern@ == "%Y-%m-%d %H:%M"@,
    ensures
        match r {
            Some(text) => utc_text(secs, nanos, pattern@) == Some(text@),
            None => utc_text(secs, nanos, pattern@) is None,
        },
{
    let time = chrono::DateTime::<chrono::Utc>::from_timestamp(secs, nanos)?;
    Some(time.format(pattern).to_string())
}

/// A moment that a text gives: the second and the nanosecond of Unix time, and the date where
/// it was written down, as year, month and day.
pub struct Moment {
    pub secs: i64,
    pub nanos: u32,
    pub date: String,
}

impl Moment {
    /// The second, the nanosecond and the date.
    pub open spec fn view(&self) -> (i64, u32, Seq<char>) {
        (self.secs, self.nanos, self.date@)
    }
}

/// The moment that a text in the form of RFC 3339 gives, or the text of the error.
pub uninterp spec fn rfc3339_moment(s: Seq<char>) -> Result<(i64, u32, Seq<char>), Seq<char>>;

/// `chrono::DateTime::parse_from_rfc3339`, read through `timestamp`, `timestamp_subsec_nanos`
/// and `format` with `%Y%m%d`. The result is a function of the text; nothing is claimed of
/// which texts give a moment.
#[verifier::external_body]
pub(crate) fn parse_moment(s: &str) -> (r: Result<Moment, String>)
    ensures
        match r {
            Ok(moment) => rfc3339_moment(s@) == Ok::<(i64, u32, Seq<char>), Seq<char>>(moment@),
            Err(message) => rfc3339_moment(s@) == Err::<(i64, u32, Seq<char>), Seq<char>>(
                message@,
            ),
        },
{
    match chrono::DateTime::parse_from_rfc3339(s) {
        Ok(time) => Ok(Moment {
            secs: time.timestamp(),
            nanos: time.timestamp_subsec_nanos(),
            date: time.format("%Y%m%d").to_string(),
        }),
        Err(err) => Err(err.to_string()),
    }
}

/// A moment: the second and the nanosecond of Unix time. A nanosecond beyond the last one of
/// its second stands for a leap second.
#[derive(Clone, Copy)]
pub struct TimePoint {
    pub secs: i64,
    pub nanos: u32,
}

impl TimePoint {
    /// The moment lies in no leap second.
    pub open spec fn plain(&self) -> bool {
        self.nanos < 1_000_000_000
    }

    /// The moment lies in no leap second, and within the years 1970 to 9999.
    pub open spec fn common(&self) -> bool {
        self.plain() && 0 <= self.secs <= 253_402_300_799
    }
}

/// The whole seconds from one moment to another, rounded toward zero, where neither lies in a
/// leap second.
pub open spec fn whole_seconds(from: TimePoint, to: TimePoint) -> int {
    let d = to.secs - from.secs;
    if d > 0 && to.nanos < from.nanos {
        d - 1
    } else if d < 0 && to.nanos > from.nanos {
        d + 1
    } else {
        d
    }
}

/// The whole seconds from one moment to another. None where the calendar does not reach one of
/// them.
pub uninterp spec fn moment_gap(
    from_secs: i64,
    from_nanos: u32,
    to_secs: i64,
    to_nanos: u32,
) -> Option<i64>;

/// `chrono::DateTime::from_timestamp` on both moments, then `chrono::TimeDelta::num_seconds` of
/// their difference. The result is a function of the moments; outside of leap seconds it is the
/// number of whole seconds, and moments of common years have one.
#[verifier::external_body]
pub(crate) fn seconds_between(from: TimePoint, to: TimePoint) -> (r: Option<i64>)
    ensures
        r == moment_gap(from.secs, from.nanos, to.secs, to.nanos),
        from.plain() && to.plain() ==> (r matches Some(n) ==> n == whole_seconds(from, to)),
        from.common() && to.common() ==> r is Some,
{
    let from = chrono::DateTime::<chrono::Utc>::from_timestamp(from.secs, from.nanos)?;
    let to = chrono::DateTime::<chrono::Utc>::from_timestamp(to.secs, to.nanos)?;
    Some((to - from).num_seconds())
}

/// The moment some seconds after another. None where the calendar does not reach it.
pub uninterp spec fn moment_after(secs: i64, nanos: u32, seconds: i64) -> Option<(i64, u32)>;

/// `chrono::DateTime::from_timestamp`, then `checked_add_signed` with
/// `chrono::TimeDelta::try_seconds`. The result is a function of the arguments; outside of leap
/// seconds the seconds add up, and between moments of common years there is one.
#[verifier::external_body]
pub(crate) fn later_by(from: TimePoint, seconds: i64) -> (r: Option<TimePoint>)
    ensures
        moment_after(from.secs, from.nanos, seconds) == (match r {
            Some(t) => Some((t.secs, t.nanos)),
            None => None,
        }),
        from.plain() ==> (r matches Some(t) ==> t.secs == from.secs + seconds && t.nanos
            == from.nanos),
        from.common() && 0 <= from.secs + seconds <= 253_402_300_799 ==> r is Some,
{
    let from = chrono::DateTime::<chrono::Utc>::from_timestamp(from.secs, from.nanos)?;
    let later = from.checked_add_signed(chrono::TimeDelta::try_seconds(seconds)?)?;
    Some(TimePoint { secs: later.timestamp(), nanos: later.timestamp_subsec_nanos() })
}

/// The text in the form of RFC 3339 of the moment some milliseconds after another, in UTC. None
/// where the calendar does not reach one of them.
pub uninterp spec fn rfc3339_after(secs: i64, nanos: u32, ms: i64) -> Option<Seq<char>>;

/// `chrono::DateTime::from_timestamp`, then `checked_add_signed` with
/// `chrono::TimeDelta::try_milliseconds`, then `to_rfc3339`. The result is a function of the
/// arguments; nothing is claimed of the digits.
#[verifier::external_body]
pub(crate) fn rfc3339_later(secs: i64, nanos: u32, ms: i64) -> (r: Option<String>)
    ensures
        opt_text(r) == rfc3339_after(secs, nanos, ms),
{
    let from = chrono::DateTime::<chrono::Utc>::from_timestamp(secs, nanos)?;
    let later = from.checked_add_signed(chrono::TimeDelta::try_milliseconds(ms)?)?;
    Some(later.to_rfc3339())
}

// ---------------------------------------------------------------------------
// serde_json

/// Numbers in decimal.
pub open spec fn decimals(s: Seq<i64>) -> Seq<Seq<char>> {
    Seq::new(s.len(), |i: int| decimal(s[i] as int))
}

/// A list of integers as a JSON text: the numbers in decimal between brackets, with commas
/// between them.
pub open spec fn integers_text(numbers: Seq<i64>) -> Seq<char> {
    "["@ + join(decimals(numbers), ","@) + "]"@
}

/// `serde_json::to_string` on a list of integers. It does not fail on integers.
#[verifier::external_body]
pub(crate) fn integers_json(numbers: &[i64]) -> (r: String)
    ensures
        r@ == integers_text(numbers@),
{
    serde_json::to_string(numbers).unwrap_or_default()
}

/// The integers in a JSON text that is a list of them.
pub uninterp spec fn ids_read(text: Seq<char>) -> Option<Seq<i64>>;

/// Tells whether a list of integers that was written as JSON is read as it was.
pub open spec fn read_back(text: Seq<char>, r: Option<Vec<i64>>) -> bool {
    forall|ids: Seq<i64>|
        text == #[trigger] integers_text(ids) ==> (r matches Some(v) && v@ == ids)
}

/// `serde_json::from_str` into a list of integers. The result is a function of the text, and a
/// list of integers that was written as JSON is read as it was; nothing more is claimed of which
/// texts are lists of integers.
#[verifier::external_body]
pub(crate) fn parse_integers(text: &str) -> (r: Option<Vec<i64>>)
    ensures
        match r {
            Some(ids) => ids_read(text@) == Some(ids@),
            None => ids_read(text@) is None,
        },
        read_back(text@, r),
{
    serde_json::from_str(text).ok()
}

/// `serde_json::Value`, a JSON value of that crate.
#[verifier::external_type_specification]
#[verifier::external_body]
pub struct ExValue(serde_json::Value);

/// A JSON value as `serde_json::Value`, value by value: a real number by `serde_json::from_str` on
/// its text, a list and an object by their items. Nothing is claimed of the result.
#[verifier::external_body]
fn outside_value(value: &Json) -> (r: serde_json::Value) {
    match value {
        Json::Null => serde_json::Value::Null,
        Json::Bool(b) => (*b).into(),
        Json::Int(n) => (*n).into(),
        Json::UInt(n) => (*n).into(),
        Json::Real(text) => serde_json::from_str(text).unwrap_or_default(),
        Json::Str(s) => s.as_str().into(),
        Json::Array(items) => items.iter().map(outside_value).collect(),
        Json::Object(fields) => {
            fields.iter().map(|(key, item)| (key.clone(), outside_value(item))).collect()
        },
    }
}

/// A JSON value as compact JSON text.
pub uninterp spec fn json_text(value: JsonView) -> Seq<char>;

/// `to_string` of `serde_json::Value`. The result is a function of the value; nothing is claimed
/// of the text.
#[verifier::external_body]
pub(crate) fn write_json(value: &Json) -> (r: String)
    ensures
        r@ == json_text(value@),
{
    outside_value(value).to_string()
}

// ---------------------------------------------------------------------------
// uuid

/// A UUID in a text, in its usual form: lower case, with hyphens.
pub uninterp spec fn uuid_text(s: Seq<char>) -> Option<Seq<char>>;

/// `uuid::Uuid::parse_str`, then `to_string`. The result is a function of the text, and is
/// itself read as it stands; nothing more is claimed of which texts hold a UUID.
#[verifier::external_body]
pub(crate) fn parse_uuid(s: &str) -> (r: Option<String>)
    ensures
        match r {
            Some(id) => uuid_text(s@) == Some(id@) && uuid_text(id@) == Some(id@),
            None => uuid_text(s@) is None,
        },
{
    uuid::Uuid::parse_str(s).ok().map(|id| id.to_string())
}

// ---------------------------------------------------------------------------
// base64

/// A symbol of the standard base64 alphabet.
pub open spec fn base64_symbol(n: int) -> char {
    "ABCDEFGHIJKLMNOPQRSTUVWXYZabcdefghijklmnopqrstuvwxyz0123456789+/"@[n]
}

/// Bytes in the standard base64 alphabet, padded: every three of them give four symbols of six
/// bits, and one or two that are left give two or three, filled up with equals signs.
pub open spec fn base64_text(bytes: Seq<u8>) -> Seq<char>
    decreases bytes.len(),
{
    let a = bytes[0] as int;
    let b = bytes[1] as int;
    let c = bytes[2] as int;
    if bytes.len() == 0 {
        Seq::empty()
    } else if bytes.len() == 1 {
        seq![base64_symbol(a / 4), base64_symbol(a % 4 * 16), '=', '=']
    } else if bytes.len() == 2 {
        seq![
            base64_symbol(a / 4),
            base64_symbol(a % 4 * 16 + b / 16),
            base64_symbol(b % 16 * 4),
            '=',
        ]
    } else {
        seq![
            base64_symbol(a / 4),
            base64_symbol(a % 4 * 16 + b / 16),
            base64_symbol(b % 16 * 4 + c / 64),
            base64_symbol(c % 64),
        ] + base64_text(bytes.skip(3))
    }
}

/// `base64::engine::general_purpose::STANDARD.encode`: the bytes in base64.
#[verifier::external_body]
pub(crate) fn base64_encode(bytes: &[u8]) -> (r: String)
    ensures
        r@ == base64_text(bytes@),
{
    base64::Engine::encode(&base64::engine::general_purpose::STANDARD, bytes)
}

// ---------------------------------------------------------------------------
// std

/// A text in lower case, as Unicode has it.
pub uninterp spec fn lower_case(s: Seq<char>) -> Seq<char>;

/// `str::to_lowercase`. The result is a function of the text.
#[verifier::external_body]
pub(crate) fn to_lower_case(s: &str) -> (r: String)
    ensures
        r@ == lower_case(s@),
{
    s.to_lowercase()
}

} // verus!
