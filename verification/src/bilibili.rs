//! The rules of talking to Bilibili: how requests are dressed, how answers are read, and how
//! the archive interface is spared after it complained.

use crate::cookie::{append_cookie, cookie_has_key, has_key, with_cookie};
use crate::json::{field, integer_at, text_at, Json, JsonView};
use crate::outside::{form_encode, form_encoded, pair_views};
use crate::text::{
    ascii_lower, chars_have, concat3, contains, copy_text, decimal, extend, extend_text, i64_digits,
    lowered, text_has, to_chars, to_text, u64_digits,
};
use vstd::prelude::*;

verus! {

/// The least time between two archive requests, in nanoseconds.
pub const ARCHIVE_REQUEST_MIN_INTERVAL: u64 = 1_500_000_000;

/// The first cool down after a rate limit, in seconds.
pub const ARCHIVE_RATE_LIMIT_BASE_COOLDOWN_SECS: u64 = 60;

/// The longest cool down after rate limits, in seconds.
pub const ARCHIVE_RATE_LIMIT_MAX_COOLDOWN_SECS: u64 = 1800;

/// The cool down after a ban, in seconds.
pub const ARCHIVE_BAN_COOLDOWN_SECS: u64 = 1800;

/// Nanoseconds in a second.
pub const NANOS: u64 = 1_000_000_000;

// ---------------------------------------------------------------------------
// Errors

/// Tells whether an error says that requests were banned.
pub open spec fn ban_error(error: Seq<char>) -> bool {
    ||| contains(error, "code: -412"@)
    ||| contains(error, "HTTP 412"@)
    ||| contains(ascii_lower(error), "request was banned"@)
}

/// Tells whether an error says that requests were banned or came too often.
pub open spec fn risk_control_error(error: Seq<char>) -> bool {
    ||| ban_error(error)
    ||| contains(error, "code: -509"@)
    ||| contains(error, "code: -702"@)
    ||| contains(error, "HTTP 429"@)
    ||| contains(error, "请求过于频繁"@)
    ||| contains(error, "请求频率过高"@)
}

/// Tells whether an error says that requests were banned.
pub fn is_bilibili_ban_error(error: &str) -> (r: bool)
    ensures
        r == ban_error(error@),
{
    let chars = to_chars(error);
    let lower = lowered(chars.as_slice());
    chars_have(chars.as_slice(), "code: -412") || chars_have(chars.as_slice(), "HTTP 412")
        || chars_have(lower.as_slice(), "request was banned")
}

/// Tells whether an error says that requests were banned or came too often.
pub fn is_bilibili_risk_control_error(error: &str) -> (r: bool)
    ensures
        r == risk_control_error(error@),
{
    is_bilibili_ban_error(error) || text_has(error, "code: -509") || text_has(error, "code: -702")
        || text_has(error, "HTTP 429") || text_has(error, "请求过于频繁") || text_has(
        error,
        "请求频率过高",
    )
}

// ---------------------------------------------------------------------------
// The archive interface

/// What is known of the archive interface. Times are readings of a monotonic clock in
/// nanoseconds.
pub struct ArchiveRequestState {
    pub last_request_at: Option<u64>,
    pub cooldown_until: Option<u64>,
    pub consecutive_rate_limits: u32,
    pub last_rate_limit_error: Option<String>,
}

/// A power of two.
pub open spec fn power_of_two(n: nat) -> int
    decreases n,
{
    if n == 0 {
        1
    } else {
        2 * power_of_two((n - 1) as nat)
    }
}

/// The cool down in seconds after the given number of rate limits in a row: doubled with each
/// one, up to the longest.
pub open spec fn rate_limit_cooldown(count: int) -> int {
    let doublings = if count - 1 < 10 {
        count - 1
    } else {
        10
    };
    let raw = ARCHIVE_RATE_LIMIT_BASE_COOLDOWN_SECS * power_of_two(doublings as nat);
    if raw < ARCHIVE_RATE_LIMIT_MAX_COOLDOWN_SECS {
        raw
    } else {
        ARCHIVE_RATE_LIMIT_MAX_COOLDOWN_SECS as int
    }
}

/// The number of rate limits in a row after one more.
pub open spec fn counted_up(count: u32) -> int {
    if count < u32::MAX {
        count + 1
    } else {
        u32::MAX as int
    }
}

/// The cool down in seconds after an error.
pub open spec fn cooldown_after(count: u32, error: Seq<char>) -> int {
    if ban_error(error) {
        ARCHIVE_BAN_COOLDOWN_SECS as int
    } else {
        rate_limit_cooldown(counted_up(count))
    }
}

/// The message while the interface cools down.
pub open spec fn cooldown_message(remaining: int, last_error: Option<Seq<char>>) -> Seq<char> {
    "B站稿件接口处于风控冷却中，约 "@ + decimal(remaining / NANOS as int + 1)
        + " 秒后可重试。上次错误: "@ + (match last_error {
        Some(e) => e,
        None => "请求过于频繁"@,
    })
}

/// A cool down is never longer than half an hour, and more rate limits in a row never shorten
/// it.
pub proof fn law_cooldown_bounded(count: u32, later: u32, error: Seq<char>)
    requires
        count <= later,
    ensures
        ARCHIVE_RATE_LIMIT_BASE_COOLDOWN_SECS <= cooldown_after(count, error) <= cooldown_after(
            later,
            error,
        ) <= ARCHIVE_RATE_LIMIT_MAX_COOLDOWN_SECS,
{
    lemma_power_grows(
        (if counted_up(count) - 1 < 10 {
            counted_up(count) - 1
        } else {
            10
        }) as nat,
        (if counted_up(later) - 1 < 10 {
            counted_up(later) - 1
        } else {
            10
        }) as nat,
    );
}

proof fn lemma_power_grows(a: nat, b: nat)
    requires
        a <= b,
    ensures
        1 <= power_of_two(a) <= power_of_two(b),
    decreases b,
{
    if a < b {
        lemma_power_grows(a, (b - 1) as nat);
    } else if a > 0 {
        lemma_power_grows((a - 1) as nat, (b - 1) as nat);
    }
}

fn two_to(n: u32) -> (r: u64)
    requires
        n <= 10,
    ensures
        r == power_of_two(n as nat),
        1 <= r <= 1024,
    decreases n,
{
    proof {
        lemma_power_grows(n as nat, 10);
        assert(power_of_two(10) == 1024) by {
            reveal_with_fuel(power_of_two, 11);
        }
    }
    if n == 0 {
        1
    } else {
        2 * two_to(n - 1)
    }
}

impl Default for ArchiveRequestState {
    /// Nothing is known yet.
    fn default() -> (r: Self)
        ensures
            r.last_request_at is None,
            r.cooldown_until is None,
            r.consecutive_rate_limits == 0,
            r.last_rate_limit_error is None,
    {
        ArchiveRequestState {
            last_request_at: None,
            cooldown_until: None,
            consecutive_rate_limits: 0,
            last_rate_limit_error: None,
        }
    }
}

impl ArchiveRequestState {
    /// The wait before the next request, where the last one is too recent.
    pub fn request_wait(&self, now: u64) -> (r: Option<u64>)
        ensures
            r == (match self.last_request_at {
                Some(last) => {
                    let since = if now < last {
                        0
                    } else {
                        now - last
                    };
                    if since <= ARCHIVE_REQUEST_MIN_INTERVAL {
                        Some((ARCHIVE_REQUEST_MIN_INTERVAL - since) as u64)
                    } else {
                        None
                    }
                },
                None => None,
            }),
    {
        match self.last_request_at {
            Some(last) => ARCHIVE_REQUEST_MIN_INTERVAL.checked_sub(now.saturating_sub(last)),
            None => None,
        }
    }

    /// The message while the interface cools down; a cool down that is over is forgotten.
    pub fn active_cooldown_error(&mut self, now: u64) -> (r: Option<String>)
        ensures
            match old(self).cooldown_until {
                Some(until) => if now <= until {
                    &&& r matches Some(message) && message@ == cooldown_message(
                        until - now,
                        crate::session::opt_text(old(self).last_rate_limit_error),
                    )
                    &&& *final(self) == *old(self)
                } else {
                    &&& r is None
                    &&& *final(self) == (ArchiveRequestState {
                        cooldown_until: None,
                        last_rate_limit_error: None,
                        ..*old(self)
                    })
                },
                None => r is None && *final(self) == *old(self),
            },
    {
        let until: u64 = match self.cooldown_until {
            Some(until) => until,
            None => {
                return None;
            },
        };
        if now > until {
            self.cooldown_until = None;
            self.last_rate_limit_error = None;
            return None;
        }
        let remaining_secs: u64 = (until - now) / NANOS + 1;
        let mut out = to_chars("B站稿件接口处于风控冷却中，约 ");
        let digits = u64_digits(remaining_secs);
        extend(&mut out, digits.as_slice());
        extend_text(&mut out, " 秒后可重试。上次错误: ");
        match &self.last_rate_limit_error {
            Some(error) => {
                extend_text(&mut out, error.as_str());
            },
            None => {
                extend_text(&mut out, "请求过于频繁");
            },
        }
        Some(to_text(out.as_slice()))
    }

    /// A request succeeded: no cool down is left.
    pub fn record_success(&mut self)
        ensures
            *final(self) == (ArchiveRequestState {
                consecutive_rate_limits: 0,
                cooldown_until: None,
                last_rate_limit_error: None,
                ..*old(self)
            }),
    {
        self.consecutive_rate_limits = 0;
        self.cooldown_until = None;
        self.last_rate_limit_error = None;
    }

    /// A request failed: the cool down that it starts, in nanoseconds. An error of another
    /// kind starts none.
    pub fn record_error(&mut self, error: &str, now: u64) -> (r: Option<u64>)
        ensures
            !risk_control_error(error@) ==> r is None && *final(self) == *old(self),
            risk_control_error(error@) ==> {
                let cooldown = cooldown_after(old(self).consecutive_rate_limits, error@) * NANOS;
                &&& r == Some(cooldown as u64)
                &&& final(self).consecutive_rate_limits == counted_up(
                    old(self).consecutive_rate_limits,
                )
                &&& final(self).cooldown_until == (if now + cooldown <= u64::MAX {
                    Some((now + cooldown) as u64)
                } else {
                    None
                })
                &&& final(self).last_rate_limit_error matches Some(kept) && kept@ == error@
                &&& final(self).last_request_at == old(self).last_request_at
            },
    {
        if !is_bilibili_risk_control_error(error) {
            return None;
        }
        self.consecutive_rate_limits = self.consecutive_rate_limits.saturating_add(1);
        let secs: u64 = if is_bilibili_ban_error(error) {
            ARCHIVE_BAN_COOLDOWN_SECS
        } else {
            let before: u32 = self.consecutive_rate_limits.saturating_sub(1);
            let exponent: u32 = if before < 10 {
                before
            } else {
                10
            };
            let raw: u64 = ARCHIVE_RATE_LIMIT_BASE_COOLDOWN_SECS * two_to(exponent);
            if raw < ARCHIVE_RATE_LIMIT_MAX_COOLDOWN_SECS {
                raw
            } else {
                ARCHIVE_RATE_LIMIT_MAX_COOLDOWN_SECS
            }
        };
        let cooldown: u64 = secs * NANOS;
        self.cooldown_until = now.checked_add(cooldown);
        self.last_rate_limit_error = Some(copy_text(error));
        Some(cooldown)
    }
}

// ---------------------------------------------------------------------------
// Requests

/// Tells whether an address lists the archives of a season.
pub open spec fn season_archive_url(url: Seq<char>) -> bool {
    contains(url, "api.bilibili.com/x/polymer/web-space/seasons_archives_list"@)
}

/// Tells whether an address belongs to the archive interface.
pub open spec fn archive_url(url: Seq<char>) -> bool {
    contains(url, "member.bilibili.com/x/web/archives"@) || season_archive_url(url)
}

/// Tells whether an address belongs to the archive interface.
pub fn is_archive_request_url(url: &str) -> (r: bool)
    ensures
        r == archive_url(url@),
{
    text_has(url, "member.bilibili.com/x/web/archives") || is_season_archive_request_url(url)
}

/// Tells whether an address lists the archives of a season.
pub fn is_season_archive_request_url(url: &str) -> (r: bool)
    ensures
        r == season_archive_url(url@),
{
    text_has(url, "api.bilibili.com/x/polymer/web-space/seasons_archives_list")
}

/// The query of a request.
pub fn build_query(params: &Vec<(String, String)>) -> (r: String)
    ensures
        r@ == form_encoded(pair_views(params@)),
{
    form_encode(params.as_slice())
}

/// An address with a query.
pub fn with_query(url: &str, query: &str) -> (r: String)
    ensures
        r@ == url@ + "?"@ + query@,
{
    concat3(url, "?", query)
}

/// The address of a request with its parameters.
pub fn request_url(url: &str, params: &Vec<(String, String)>) -> (r: String)
    ensures
        r@ == (if params@.len() == 0 {
            url@
        } else {
            url@ + "?"@ + form_encoded(pair_views(params@))
        }),
{
    if params.len() == 0 {
        copy_text(url)
    } else {
        let query = build_query(params);
        with_query(url, query.as_str())
    }
}

/// The kinds of requests.
#[derive(Clone, Copy, PartialEq, Eq, Structural)]
pub enum RequestKind {
    Get,
    PostJson,
    PostForm,
}

/// The headers that tell where a request comes from.
pub struct SiteHeaders {
    pub referer: Option<String>,
    pub origin: Option<String>,
}

/// The referer of a request.
pub open spec fn referer_for(kind: RequestKind, url: Seq<char>) -> Option<Seq<char>> {
    if kind == RequestKind::Get && season_archive_url(url) {
        Some("https://space.bilibili.com/"@)
    } else if kind != RequestKind::PostForm && contains(url, "member.bilibili.com"@) {
        Some("https://member.bilibili.com/"@)
    } else if contains(url, "live.bilibili.com"@) {
        Some("https://live.bilibili.com/"@)
    } else {
        None
    }
}

/// The origin of a request.
pub open spec fn origin_for(kind: RequestKind, url: Seq<char>) -> Option<Seq<char>> {
    if kind != RequestKind::PostForm && contains(url, "member.bilibili.com"@) {
        Some("https://member.bilibili.com"@)
    } else if contains(url, "live.bilibili.com"@) {
        Some("https://live.bilibili.com"@)
    } else {
        None
    }
}

/// The headers that tell where a request comes from.
pub fn site_headers(kind: RequestKind, url: &str) -> (r: SiteHeaders)
    ensures
        crate::session::opt_text(r.referer) == referer_for(kind, url@),
        crate::session::opt_text(r.origin) == origin_for(kind, url@),
{
    let mut referer: Option<String> = None;
    let mut origin: Option<String> = None;
    if text_has(url, "live.bilibili.com") {
        referer = Some(copy_text("https://live.bilibili.com/"));
        origin = Some(copy_text("https://live.bilibili.com"));
    }
    if kind != RequestKind::PostForm && text_has(url, "member.bilibili.com") {
        referer = Some(copy_text("https://member.bilibili.com/"));
        origin = Some(copy_text("https://member.bilibili.com"));
    }
    if kind == RequestKind::Get && is_season_archive_request_url(url) {
        referer = Some(copy_text("https://space.bilibili.com/"));
    }
    SiteHeaders { referer, origin }
}

/// The cookie header of a signed request: with a device identifier, which is added where the
/// account brings none.
pub fn device_cookie(cookie: &str, buvid3: &str) -> (r: String)
    ensures
        r@ == (if has_key(cookie@, "buvid3"@) {
            cookie@
        } else {
            with_cookie(cookie@, "buvid3"@, buvid3@)
        }),
{
    if cookie_has_key(cookie, "buvid3") {
        copy_text(cookie)
    } else {
        append_cookie(cookie, "buvid3", buvid3)
    }
}

// ---------------------------------------------------------------------------
// Answers

/// What an answer carries: its data, or the message and code of its error.
pub open spec fn answer(value: JsonView) -> Result<JsonView, Seq<char>> {
    match integer_at(value, "code"@) {
        Some(code) if code != 0 => Err(
            (match text_at(value, "message"@) {
                Some(m) => m,
                None => "Bilibili returned an error"@,
            }) + " (code: "@ + decimal(code as int) + ")"@,
        ),
        _ => match field(value, "data"@) {
            Some(data) => Ok(data),
            None => Ok(value),
        },
    }
}

/// The views of a result.
pub open spec fn result_view(r: Result<Json, String>) -> Result<JsonView, Seq<char>> {
    match r {
        Ok(v) => Ok(v@),
        Err(e) => Err(e@),
    }
}

/// What an answer carries.
pub fn parse_response(value: &Json) -> (r: Result<Json, String>)
    ensures
        result_view(r) == answer(value@),
{
    if let Some(code) = value.get_i64("code") {
        if code != 0 {
            let mut out = match value.get_text("message") {
                Some(m) => to_chars(m.as_str()),
                None => to_chars("Bilibili returned an error"),
            };
            extend_text(&mut out, " (code: ");
            let digits = i64_digits(code);
            extend(&mut out, digits.as_slice());
            extend_text(&mut out, ")");
            return Err(to_text(out.as_slice()));
        }
    }
    match value.get("data") {
        Some(data) => Ok(data.copy()),
        None => Ok(value.copy()),
    }
}

/// What an HTTP answer carries. `body` is the parsed body, or the message of its parser.
pub open spec fn http_answer(status: u16, body: Result<JsonView, Seq<char>>) -> Result<
    JsonView,
    Seq<char>,
> {
    let content = match body {
        Ok(value) => answer(value),
        Err(message) => Err(message),
    };
    if status == 412 {
        Err("request was banned (code: -412, HTTP 412)"@)
    } else if status == 429 {
        Err("请求频率过高，请稍后再试 (code: -509, HTTP 429)"@)
    } else if !(200 <= status < 300) {
        match content {
            Ok(_) => Err("Bilibili returned HTTP "@ + decimal(status as int)),
            Err(message) => Err(message),
        }
    } else {
        content
    }
}

/// What an HTTP answer carries. `body` is the parsed body, or the message of its parser.
pub fn parse_http_response(status: u16, body: Result<Json, String>) -> (r: Result<Json, String>)
    ensures
        result_view(r) == http_answer(status, result_view(body)),
{
    if status == 412 {
        return Err(copy_text("request was banned (code: -412, HTTP 412)"));
    }
    if status == 429 {
        return Err(copy_text("请求频率过高，请稍后再试 (code: -509, HTTP 429)"));
    }
    let content = match body {
        Ok(value) => parse_response(&value),
        Err(message) => Err(message),
    };
    if !(200 <= status && status < 300) {
        return match content {
            Ok(_) => {
                let mut out = to_chars("Bilibili returned HTTP ");
                let digits = u64_digits(status as u64);
                extend(&mut out, digits.as_slice());
                Err(to_text(out.as_slice()))
            },
            Err(message) => Err(message),
        };
    }
    content
}

/// The answers of a banned or overloaded interface start a cool down.
pub proof fn law_refusals_are_risk_control(status: u16, body: Result<JsonView, Seq<char>>)
    requires
        status == 412 || status == 429,
    ensures
        http_answer(status, body) matches Err(message) && risk_control_error(message),
        status == 412 ==> (http_answer(status, body) matches Err(message) && ban_error(message)),
{
    reveal_strlit("request was banned (code: -412, HTTP 412)");
    reveal_strlit("请求频率过高，请稍后再试 (code: -509, HTTP 429)");
    reveal_strlit("HTTP 412");
    reveal_strlit("HTTP 429");
    if status == 412 {
        let m = "request was banned (code: -412, HTTP 412)"@;
        assert(m.subrange(32, 40) =~= "HTTP 412"@);
        assert(crate::text::occurs_at(m, "HTTP 412"@, 32));
    } else {
        let m = "请求频率过高，请稍后再试 (code: -509, HTTP 429)"@;
        assert(m.subrange(26, 34) =~= "HTTP 429"@);
        assert(crate::text::occurs_at(m, "HTTP 429"@, 26));
    }
}

/// Each rate limit in a row doubles the cool down, from one minute to half an hour at most; a ban
/// costs the half hour at once.
pub proof fn law_cooldown_doubles(count: u32, error: Seq<char>)
    ensures
        ban_error(error) ==> cooldown_after(count, error) == 1800,
        !ban_error(error) && count == 0 ==> cooldown_after(count, error) == 60,
        !ban_error(error) && count < u32::MAX - 1 && 2 * cooldown_after(count, error) <= 1800
            ==> cooldown_after((count + 1) as u32, error) == 2 * cooldown_after(count, error),
        !ban_error(error) && count >= 5 ==> cooldown_after(count, error) == 1800,
{
    reveal_with_fuel(power_of_two, 7);
    if !ban_error(error) && count >= 5 {
        lemma_power_grows(
            5,
            (if count < 10 {
                count as int
            } else {
                10
            }) as nat,
        );
    }
}

/// Refusals are known by their codes and phrases.
pub proof fn law_refusals_known(error: Seq<char>)
    ensures
        contains(error, "code: -412"@) || contains(error, "HTTP 412"@) ==> ban_error(error),
        contains(ascii_lower(error), "request was banned"@) ==> ban_error(error),
        !contains(error, "code: -412"@) && !contains(error, "HTTP 412"@) && !contains(
            ascii_lower(error),
            "request was banned"@,
        ) ==> !ban_error(error),
        ban_error(error) || contains(error, "code: -509"@) || contains(error, "code: -702"@)
            || contains(error, "HTTP 429"@) || contains(error, "请求过于频繁"@) || contains(
            error,
            "请求频率过高"@,
        ) <==> risk_control_error(error),
{
}

/// The rest of a cool down is told in whole seconds, rounded up, with the error that began it.
pub proof fn law_cooldown_told(remaining: int, error: Seq<char>)
    requires
        0 <= remaining,
    ensures
        cooldown_message(remaining, Some(error)) == "B站稿件接口处于风控冷却中，约 "@ + decimal(
            remaining / 1_000_000_000 + 1,
        ) + " 秒后可重试。上次错误: "@ + error,
        cooldown_message(remaining, None) == "B站稿件接口处于风控冷却中，约 "@ + decimal(
            remaining / 1_000_000_000 + 1,
        ) + " 秒后可重试。上次错误: "@ + "请求过于频繁"@,
{
}

/// The archive interface is spared under both its addresses, and the lists of a season under theirs
/// alone.
pub proof fn law_archive_addresses(url: Seq<char>)
    ensures
        contains(url, "member.bilibili.com/x/web/archives"@) ==> archive_url(url),
        contains(url, "api.bilibili.com/x/polymer/web-space/seasons_archives_list"@)
            ==> archive_url(url) && season_archive_url(url),
        !contains(url, "member.bilibili.com/x/web/archives"@) && !contains(
            url,
            "api.bilibili.com/x/polymer/web-space/seasons_archives_list"@,
        ) ==> !archive_url(url),
        !contains(url, "api.bilibili.com/x/polymer/web-space/seasons_archives_list"@)
            ==> !season_archive_url(url),
{
}

/// A request names the part of the site that it belongs to, as where it comes from.
pub proof fn law_request_comes_from_its_site(url: Seq<char>)
    ensures
        contains(url, "api.bilibili.com/x/polymer/web-space/seasons_archives_list"@) ==> referer_for(
            RequestKind::Get,
            url,
        ) == Some("https://space.bilibili.com/"@),
        contains(url, "member.bilibili.com"@) && !contains(
            url,
            "api.bilibili.com/x/polymer/web-space/seasons_archives_list"@,
        ) ==> referer_for(RequestKind::Get, url) == Some("https://member.bilibili.com/"@)
            && origin_for(RequestKind::Get, url) == Some("https://member.bilibili.com"@),
        !contains(url, "member.bilibili.com"@) && contains(url, "live.bilibili.com"@)
            && !contains(url, "api.bilibili.com/x/polymer/web-space/seasons_archives_list"@)
            ==> referer_for(RequestKind::Get, url) == Some("https://live.bilibili.com/"@)
            && origin_for(RequestKind::Get, url) == Some("https://live.bilibili.com"@),
        contains(url, "live.bilibili.com"@) ==> referer_for(RequestKind::PostForm, url) == Some(
            "https://live.bilibili.com/"@,
        ) && origin_for(RequestKind::PostForm, url) == Some("https://live.bilibili.com"@),
        !contains(url, "live.bilibili.com"@) ==> referer_for(RequestKind::PostForm, url) is None
            && origin_for(RequestKind::PostForm, url) is None,
{
}

/// What the site answers is its data, or all of it where it has none; an answer with a code is an
/// error, told with the code.
pub proof fn law_answer_read(value: JsonView)
    ensures
        (integer_at(value, "code"@) is None || integer_at(value, "code"@) == Some(0i64)) && field(
            value,
            "data"@,
        ) is Some ==> answer(value) == Ok::<JsonView, Seq<char>>(field(value, "data"@)->0),
        (integer_at(value, "code"@) is None || integer_at(value, "code"@) == Some(0i64)) && field(
            value,
            "data"@,
        ) is None ==> answer(value) == Ok::<JsonView, Seq<char>>(value),
        integer_at(value, "code"@) is Some && integer_at(value, "code"@)->0 != 0 && text_at(
            value,
            "message"@,
        ) is Some ==> answer(value) == Err::<JsonView, Seq<char>>(
            text_at(value, "message"@)->0 + " (code: "@ + decimal(
                integer_at(value, "code"@)->0 as int,
            ) + ")"@,
        ),
{
}

/// An answer with a status of success is what it holds; any other is an error, even one that holds
/// data.
pub proof fn law_status_decides(status: u16, body: Result<JsonView, Seq<char>>)
    ensures
        200 <= status <= 299 && body is Ok ==> http_answer(status, body) == answer(body->Ok_0),
        200 <= status <= 299 && body is Err ==> http_answer(status, body) == Err::<
            JsonView,
            Seq<char>,
        >(body->Err_0),
        status < 200 || status > 299 ==> http_answer(status, body) is Err,
        (status < 200 || status > 299) && status != 412 && status != 429 && body is Ok && answer(
            body->Ok_0,
        ) is Ok ==> http_answer(status, body) == Err::<JsonView, Seq<char>>(
            "Bilibili returned HTTP "@ + decimal(status as int),
        ),
{
}

} // verus!
