//! Accounts of the video site: reading login data, and which account is the active and which
//! the primary one.

use crate::cookie::{cookie_value, extract_cookie_value, extract_csrf};
use crate::json::{field, integer_at, lemma_field_smaller, text_at, Json, JsonView};
use crate::outside::{
    moment_gap, pair_views, parse_moment, parse_url, rfc3339_after, rfc3339_later, rfc3339_moment,
    seconds_between, url_parts, TimePoint,
};
use crate::baidu_sync::or_other;
use crate::season::copy_opt;
use crate::segments::before;
use crate::session::opt_text;
use crate::text::{
    copy_text, decimal, digits_of, extend_text, i64_text, i64_value, is_digit, is_space,
    law_replaced_in_its_place, lemma_decimal_round_trip, lemma_split_concat, lemma_split_whole,
    parse_i64, replace, replaced, split, split_on, text_eq, texts, to_chars, to_text, trim,
    trim_text, trimmed, views,
};
use vstd::prelude::*;

verus! {

/// What a request needs of an account.
pub struct AuthInfo {
    pub cookie: String,
    pub csrf: Option<String>,
    pub user_id: Option<i64>,
    pub data: Json,
}

/// An account in a list of accounts.
pub struct BilibiliAccountSummary {
    pub user_id: i64,
    pub username: Option<String>,
    pub nickname: Option<String>,
    pub avatar_url: Option<String>,
    pub login_time: String,
    pub expire_time: Option<String>,
    pub is_active: bool,
    pub is_primary: bool,
}

/// Where the login data of the active account is kept for other programs.
pub struct LoginStore {
    file_path: String,
}

impl LoginStore {
    /// The path of the file.
    pub closed spec fn view(&self) -> Seq<char> {
        self.file_path@
    }

    /// The store that keeps its data in a file.
    pub fn new(file_path: String) -> (r: Self)
        ensures
            r@ == file_path@,
    {
        LoginStore { file_path }
    }

    /// The path of the file.
    pub fn path(&self) -> (r: String)
        ensures
            r@ == self@,
    {
        copy_text(self.file_path.as_str())
    }
}

// ---------------------------------------------------------------------------
// Parameters of an address

/// The last value under a key.
pub open spec fn last_value(pairs: Seq<(Seq<char>, Seq<char>)>, key: Seq<char>) -> Option<
    Seq<char>,
>
    decreases pairs.len(),
{
    if pairs.len() == 0 {
        None
    } else if pairs.last().0 == key {
        Some(pairs.last().1)
    } else {
        last_value(pairs.drop_last(), key)
    }
}

/// A parameter of an address.
pub open spec fn url_param(url: Seq<char>, key: Seq<char>) -> Option<Seq<char>> {
    match url_parts(url) {
        Some(parts) => last_value(parts.2, key),
        None => None,
    }
}

/// The last value under a key.
pub fn find_last_value(pairs: &Vec<(String, String)>, key: &str) -> (r: Option<String>)
    ensures
        opt_text(r) == last_value(pair_views(pairs@), key@),
{
    let ghost all = pair_views(pairs@);
    let mut n: usize = pairs.len();
    assert(all.take(all.len() as int) =~= all);
    while n > 0
        invariant
            n <= pairs@.len(),
            all == pair_views(pairs@),
            last_value(all.take(n as int), key@) == last_value(all, key@),
        decreases n,
    {
        assert(all.take(n as int).drop_last() =~= all.take(n - 1));
        assert(all.take(n as int).last() == all[n - 1]);
        if text_eq(pairs[n - 1].0.as_str(), key) {
            return Some(copy_text(pairs[n - 1].1.as_str()));
        }
        n -= 1;
    }
    assert(all.take(0) =~= Seq::<(Seq<char>, Seq<char>)>::empty());
    None
}

fn find_url_param(url: &str, key: &str) -> (r: Option<String>)
    ensures
        opt_text(r) == url_param(url@, key@),
{
    match parse_url(url) {
        Some(parts) => find_last_value(&parts.query, key),
        None => None,
    }
}

/// The cookie that the parameters of an address make.
pub open spec fn cookie_of_params(
    sessdata: Option<Seq<char>>,
    bili_jct: Option<Seq<char>>,
    user: Option<Seq<char>>,
) -> Option<Seq<char>> {
    match (sessdata, bili_jct) {
        (Some(s), Some(j)) => Some(
            "SESSDATA="@ + s + "; bili_jct="@ + j + (match user {
                Some(u) => "; DedeUserID="@ + u,
                None => Seq::empty(),
            }),
        ),
        _ => None,
    }
}

/// The cookie that the parameters of an address make.
pub fn make_cookie(
    sessdata: &Option<String>,
    bili_jct: &Option<String>,
    user: &Option<String>,
) -> (r: Option<String>)
    ensures
        opt_text(r) == cookie_of_params(opt_text(*sessdata), opt_text(*bili_jct), opt_text(*user)),
{
    match (sessdata, bili_jct) {
        (Some(s), Some(j)) => {
            let mut out = to_chars("SESSDATA=");
            extend_text(&mut out, s.as_str());
            extend_text(&mut out, "; bili_jct=");
            extend_text(&mut out, j.as_str());
            let ghost head = out@;
            match user {
                Some(u) => {
                    extend_text(&mut out, "; DedeUserID=");
                    extend_text(&mut out, u.as_str());
                    assert(out@ =~= head + ("; DedeUserID="@ + u@));
                },
                None => {
                    assert(head + Seq::<char>::empty() =~= head);
                },
            }
            Some(to_text(out.as_slice()))
        },
        _ => None,
    }
}

/// The cookie that an address makes.
pub open spec fn cookie_of_url(url: Seq<char>) -> Option<Seq<char>> {
    cookie_of_params(
        url_param(url, "SESSDATA"@),
        url_param(url, "bili_jct"@),
        url_param(url, "DedeUserID"@),
    )
}

fn build_cookie_from_url(url: &str) -> (r: Option<String>)
    ensures
        opt_text(r) == cookie_of_url(url@),
{
    let s = find_url_param(url, "SESSDATA");
    let j = find_url_param(url, "bili_jct");
    let u = find_url_param(url, "DedeUserID");
    make_cookie(&s, &j, &u)
}

// ---------------------------------------------------------------------------
// Login data

/// The cookie in login data: under one of two keys, else made of an address, else in the data
/// within.
pub open spec fn cookie_in(v: JsonView) -> Option<Seq<char>>
    decreases v,
    via cookie_in_shrinks
{
    match text_at(v, "cookie"@) {
        Some(c) => Some(c),
        None => match text_at(v, "cookies"@) {
            Some(c) => Some(c),
            None => match text_at(v, "url"@) {
                Some(url) => cookie_of_url(url),
                None => match field(v, "data"@) {
                    Some(inner) => cookie_in(inner),
                    None => None,
                },
            },
        },
    }
}

#[via_fn]
proof fn cookie_in_shrinks(v: JsonView) {
    if field(v, "data"@) is Some {
        lemma_field_smaller(v, "data"@);
    }
}

/// The cookie in login data.
pub fn extract_cookie(data: &Json) -> (r: Option<String>)
    ensures
        opt_text(r) == cookie_in(data@),
    decreases data@,
{
    if let Some(c) = data.get_text("cookie") {
        return Some(c);
    }
    if let Some(c) = data.get_text("cookies") {
        return Some(c);
    }
    if let Some(url) = data.get_text("url") {
        return build_cookie_from_url(url.as_str());
    }
    match data.get("data") {
        Some(inner) => {
            proof {
                lemma_field_smaller(data@, "data"@);
            }
            extract_cookie(inner)
        },
        None => None,
    }
}

/// The first of some keys under which there is a text, and that text.
pub open spec fn first_text(v: JsonView, keys: Seq<Seq<char>>) -> Option<Seq<char>>
    decreases keys.len(),
{
    if keys.len() == 0 {
        None
    } else {
        match text_at(v, keys[0]) {
            Some(t) => Some(t),
            None => first_text(v, keys.drop_first()),
        }
    }
}

/// A text in login data under one of some keys, else in the data within.
pub open spec fn text_in(v: JsonView, keys: Seq<Seq<char>>) -> Option<Seq<char>>
    decreases v,
    via text_in_shrinks
{
    match first_text(v, keys) {
        Some(t) => Some(t),
        None => match field(v, "data"@) {
            Some(inner) => text_in(inner, keys),
            None => None,
        },
    }
}

#[via_fn]
proof fn text_in_shrinks(v: JsonView, keys: Seq<Seq<char>>) {
    if field(v, "data"@) is Some {
        lemma_field_smaller(v, "data"@);
    }
}

/// A text in login data under one of some keys.
pub fn extract_string(data: &Json, keys: &Vec<String>) -> (r: Option<String>)
    ensures
        opt_text(r) == text_in(data@, texts(keys@)),
    decreases data@,
{
    let ghost all = texts(keys@);
    let mut i: usize = 0;
    assert(all.skip(0) =~= all);
    while i < keys.len()
        invariant
            i <= keys@.len(),
            all == texts(keys@),
            first_text(data@, all) == first_text(data@, all.skip(i as int)),
        decreases keys.len() - i,
    {
        assert(all.skip(i as int)[0] == keys@[i as int]@);
        assert(all.skip(i as int).drop_first() =~= all.skip(i + 1));
        if let Some(t) = data.get_text(keys[i].as_str()) {
            return Some(t);
        }
        i += 1;
    }
    assert(all.skip(i as int).len() == 0);
    match data.get("data") {
        Some(inner) => {
            proof {
                lemma_field_smaller(data@, "data"@);
            }
            extract_string(inner, keys)
        },
        None => None,
    }
}

/// The keys under which the name of an account is looked for.
pub open spec fn name_keys() -> Seq<Seq<char>> {
    seq!["uname"@, "username"@, "name"@]
}

/// The keys under which the shown name of an account is looked for.
pub open spec fn nickname_keys() -> Seq<Seq<char>> {
    seq!["nickname"@, "uname"@, "username"@, "name"@]
}

/// The keys under which the picture of an account is looked for.
pub open spec fn avatar_keys() -> Seq<Seq<char>> {
    seq!["avatar"@, "avatar_url"@, "face"@]
}

fn make_name_keys() -> (r: Vec<String>)
    ensures
        texts(r@) == name_keys(),
{
    let mut v: Vec<String> = Vec::new();
    v.push(copy_text("uname"));
    v.push(copy_text("username"));
    v.push(copy_text("name"));
    assert(texts(v@) =~= name_keys());
    v
}

fn make_nickname_keys() -> (r: Vec<String>)
    ensures
        texts(r@) == nickname_keys(),
{
    let mut v: Vec<String> = Vec::new();
    v.push(copy_text("nickname"));
    v.push(copy_text("uname"));
    v.push(copy_text("username"));
    v.push(copy_text("name"));
    assert(texts(v@) =~= nickname_keys());
    v
}

fn make_avatar_keys() -> (r: Vec<String>)
    ensures
        texts(r@) == avatar_keys(),
{
    let mut v: Vec<String> = Vec::new();
    v.push(copy_text("avatar"));
    v.push(copy_text("avatar_url"));
    v.push(copy_text("face"));
    assert(texts(v@) =~= avatar_keys());
    v
}

/// A parameter of the address in login data.
pub open spec fn data_param(v: JsonView, key: Seq<char>) -> Option<Seq<char>> {
    match text_at(v, "url"@) {
        Some(url) => url_param(url, key),
        None => None,
    }
}

/// A parameter of the address in login data.
pub fn extract_url_param(data: &Json, key: &str) -> (r: Option<String>)
    ensures
        opt_text(r) == data_param(data@, key@),
{
    match data.get_text("url") {
        Some(url) => find_url_param(url.as_str(), key),
        None => None,
    }
}

/// The number that a parameter is.
pub open spec fn param_number(v: Option<Seq<char>>) -> Option<i64> {
    match v {
        Some(s) => i64_value(s),
        None => None,
    }
}

fn read_param_number(v: &Option<String>) -> (r: Option<i64>)
    ensures
        r == param_number(opt_text(*v)),
{
    match v {
        Some(s) => {
            let chars = to_chars(s.as_str());
            parse_i64(chars.as_slice())
        },
        None => None,
    }
}

/// The uid in login data: that of the address, else the one under one of two keys.
pub open spec fn user_id_in(v: JsonView) -> Option<i64> {
    match param_number(data_param(v, "DedeUserID"@)) {
        Some(id) => Some(id),
        None => match integer_at(v, "mid"@) {
            Some(id) => Some(id),
            None => integer_at(v, "user_id"@),
        },
    }
}

/// The uid in login data.
pub fn extract_user_id(data: &Json) -> (r: Option<i64>)
    ensures
        r == user_id_in(data@),
{
    let param = extract_url_param(data, "DedeUserID");
    match read_param_number(&param) {
        Some(id) => Some(id),
        None => match data.get_i64("mid") {
            Some(id) => Some(id),
            None => data.get_i64("user_id"),
        },
    }
}

/// The refresh token in login data.
pub open spec fn refresh_token_in(v: JsonView) -> Option<Seq<char>> {
    or_other(text_in(v, seq!["refresh_token"@]), data_param(v, "refresh_token"@))
}

/// The refresh token in login data.
pub fn extract_refresh_token(data: &Json) -> (r: Option<String>)
    ensures
        opt_text(r) == refresh_token_in(data@),
{
    let mut keys: Vec<String> = Vec::new();
    keys.push(copy_text("refresh_token"));
    assert(texts(keys@) =~= seq!["refresh_token"@]);
    match extract_string(data, &keys) {
        Some(t) => Some(t),
        None => extract_url_param(data, "refresh_token"),
    }
}

/// A moment on the calendar, by its second.
pub open spec fn on_calendar(secs: Option<i64>) -> Option<i64> {
    match secs {
        Some(s) => if moment_gap(s, 0, s, 0) is Some {
            Some(s)
        } else {
            None
        },
        None => None,
    }
}

fn check_calendar(secs: Option<i64>) -> (r: Option<i64>)
    ensures
        r == on_calendar(secs),
{
    match secs {
        Some(s) => {
            let t = TimePoint { secs: s, nanos: 0 };
            match seconds_between(t, t) {
                Some(_) => Some(s),
                None => None,
            }
        },
        None => None,
    }
}

/// The second part of a text between commas, where the commas may be encoded.
pub open spec fn second_part(s: Seq<char>) -> Option<Seq<char>> {
    let parts = split_on(replace(replace(s, "%2C"@, ","@), "%2c"@, ","@), ',');
    if parts.len() >= 2 {
        Some(parts[1])
    } else {
        None
    }
}

/// The second at which the session in a cookie ends, as the cookie tells it, where the calendar
/// reaches it.
pub open spec fn session_end(cookie: Seq<char>) -> Option<i64> {
    match cookie_value(cookie, "SESSDATA"@) {
        Some(v) => if v.len() == 0 {
            None
        } else {
            on_calendar(param_number(second_part(v)))
        },
        None => None,
    }
}

/// The second at which the session in a cookie ends, as the cookie tells it.
pub fn extract_sessdata_expire(cookie: &str) -> (r: Option<i64>)
    ensures
        r == session_end(cookie@),
{
    let value = match extract_cookie_value(cookie, "SESSDATA") {
        Some(v) => v,
        None => {
            return None;
        },
    };
    if value.as_str().is_empty() {
        return None;
    }
    proof {
        reveal_strlit("%2C");
        reveal_strlit("%2c");
    }
    let chars = to_chars(value.as_str());
    let upper = to_chars("%2C");
    let lower = to_chars("%2c");
    let comma = to_chars(",");
    let a = replaced(chars.as_slice(), upper.as_slice(), comma.as_slice());
    let b = replaced(a.as_slice(), lower.as_slice(), comma.as_slice());
    let pieces = split(b.as_slice(), ',');
    assert(views(pieces@).len() == pieces@.len());
    if pieces.len() >= 2 {
        assert(views(pieces@)[1] == pieces@[1]@);
        return check_calendar(parse_i64(pieces[1].as_slice()));
    }
    None
}

/// The second at which login data expires: as its address tells it, else as its cookie does.
pub open spec fn expiry_in(v: JsonView) -> Option<i64> {
    match param_number(data_param(v, "Expires"@)) {
        Some(secs) => on_calendar(Some(secs)),
        None => match cookie_in(v) {
            Some(cookie) => session_end(cookie),
            None => None,
        },
    }
}

/// The second at which login data expires.
pub fn extract_expire_time(data: &Json) -> (r: Option<i64>)
    ensures
        r == expiry_in(data@),
{
    let param = extract_url_param(data, "Expires");
    match read_param_number(&param) {
        Some(secs) => check_calendar(Some(secs)),
        None => match extract_cookie(data) {
            Some(cookie) => extract_sessdata_expire(cookie.as_str()),
            None => None,
        },
    }
}

/// Tells whether a second has come.
pub open spec fn has_come(secs: Option<i64>, now: TimePoint) -> bool {
    secs matches Some(s) && s <= now.secs
}

/// What a request needs of an account, from its login data, unless that has expired.
pub fn build_auth_info(data: &Json, now: TimePoint) -> (r: Option<AuthInfo>)
    ensures
        match r {
            Some(info) => cookie_in(data@) == Some(info.cookie@) && !has_come(
                expiry_in(data@),
                now,
            ) && info.user_id == user_id_in(data@) && opt_text(info.csrf) == cookie_value(info.cookie@, "bili_jct"@)
                && info.data@ == data@,
            None => cookie_in(data@) is None || has_come(expiry_in(data@), now),
        },
{
    let cookie = match extract_cookie(data) {
        Some(c) => c,
        None => {
            return None;
        },
    };
    if let Some(secs) = extract_expire_time(data) {
        if secs <= now.secs {
            return None;
        }
    }
    let csrf = extract_csrf(cookie.as_str());
    Some(AuthInfo { cookie, csrf, user_id: extract_user_id(data), data: data.copy() })
}

/// Tells whether a time that is stored as a text has come; one that cannot be read has not.
pub open spec fn text_has_come(time: Option<Seq<char>>, now: TimePoint) -> bool {
    match time {
        Some(t) => match rfc3339_moment(t) {
            Ok(m) => !before(now, TimePoint { secs: m.0, nanos: m.1 }),
            Err(_) => false,
        },
        None => false,
    }
}

pub fn stored_time_has_come(time: &Option<String>, now: TimePoint) -> (r: bool)
    ensures
        r == text_has_come(opt_text(*time), now),
{
    match time {
        Some(t) => match parse_moment(t.as_str()) {
            Ok(m) => !(now.secs < m.secs || (now.secs == m.secs && now.nanos < m.nanos)),
            Err(_) => false,
        },
        None => false,
    }
}

/// What a request needs of a stored account, unless its login has expired.
pub fn stored_auth(data: &Json, expire_time: &Option<String>, user_id: i64, now: TimePoint) -> (r:
    Option<AuthInfo>)
    ensures
        match r {
            Some(info) => !text_has_come(opt_text(*expire_time), now) && cookie_in(data@) == Some(
                info.cookie@,
            ) && !has_come(expiry_in(data@), now) && info.user_id == Some(user_id) && opt_text(
                info.csrf,
            ) == cookie_value(info.cookie@, "bili_jct"@) && info.data@ == data@,
            None => text_has_come(opt_text(*expire_time), now) || cookie_in(data@) is None
                || has_come(expiry_in(data@), now),
        },
{
    if stored_time_has_come(expire_time, now) {
        return None;
    }
    match build_auth_info(data, now) {
        Some(info) => Some(
            AuthInfo {
                cookie: info.cookie,
                csrf: info.csrf,
                user_id: Some(user_id),
                data: info.data,
            },
        ),
        None => None,
    }
}

/// What is stored of an account that logs in.
pub struct SavedLogin {
    pub user_id: i64,
    pub username: Option<String>,
    pub nickname: Option<String>,
    pub avatar_url: Option<String>,
    pub access_token: Option<String>,
    pub refresh_token: Option<String>,
    pub expire_secs: Option<i64>,
}

/// What is stored of an account that logs in; nothing where its data names no account.
pub fn saved_login(data: &Json) -> (r: Option<SavedLogin>)
    ensures
        match r {
            Some(s) => user_id_in(data@) == Some(s.user_id) && opt_text(s.username) == text_in(
                data@,
                name_keys(),
            ) && opt_text(s.nickname) == text_in(data@, nickname_keys()) && opt_text(s.avatar_url)
                == text_in(data@, avatar_keys()) && opt_text(s.access_token) == data_param(
                data@,
                "SESSDATA"@,
            ) && opt_text(s.refresh_token) == refresh_token_in(data@) && s.expire_secs
                == expiry_in(data@),
            None => user_id_in(data@) is None,
        },
{
    let user_id: i64 = match extract_user_id(data) {
        Some(id) => id,
        None => {
            return None;
        },
    };
    let names = make_name_keys();
    let nicknames = make_nickname_keys();
    let avatars = make_avatar_keys();
    Some(
        SavedLogin {
            user_id,
            username: extract_string(data, &names),
            nickname: extract_string(data, &nicknames),
            avatar_url: extract_string(data, &avatars),
            access_token: extract_url_param(data, "SESSDATA"),
            refresh_token: extract_refresh_token(data),
            expire_secs: extract_expire_time(data),
        },
    )
}

/// How long a login is taken to last that does not say when it ends, in milliseconds.
pub const LOGIN_LIFETIME_MS: i64 = 86_400_000;

/// The end of a login as it is stored: the second that it names, where the calendar reaches it, else
/// a day from now.
pub fn login_end(expire_secs: Option<i64>, now: TimePoint) -> (r: Option<String>)
    ensures
        opt_text(r) == (match expire_secs {
            Some(secs) => match rfc3339_after(secs, 0, 0) {
                Some(end) => Some(end),
                None => rfc3339_after(now.secs, now.nanos, LOGIN_LIFETIME_MS),
            },
            None => rfc3339_after(now.secs, now.nanos, LOGIN_LIFETIME_MS),
        }),
{
    if let Some(secs) = expire_secs {
        if let Some(end) = rfc3339_later(secs, 0, 0) {
            return Some(end);
        }
    }
    rfc3339_later(now.secs, now.nanos, LOGIN_LIFETIME_MS)
}

/// An account as it is stored.
pub struct StoredAccount {
    pub user_id: i64,
    pub username: Option<String>,
    pub nickname: Option<String>,
    pub avatar_url: Option<String>,
    pub login_time: String,
    pub expire_time: Option<String>,
}

/// A text in login data that may be missing.
pub open spec fn opt_text_in(data: Option<Json>, keys: Seq<Seq<char>>) -> Option<Seq<char>> {
    match data {
        Some(d) => text_in(d@, keys),
        None => None,
    }
}

/// A text that is not blank.
pub open spec fn not_blank(v: Option<Seq<char>>) -> Option<Seq<char>> {
    match v {
        Some(s) => if trim(s).len() > 0 {
            Some(s)
        } else {
            None
        },
        None => None,
    }
}

/// An account in a list: what is not stored of it is taken from its login data.
pub fn account_summary(
    account: &StoredAccount,
    data: &Option<Json>,
    active: Option<i64>,
    primary: Option<i64>,
) -> (r: BilibiliAccountSummary)
    ensures
        r.user_id == account.user_id,
        opt_text(r.username) == or_other(
            opt_text(account.username),
            opt_text_in(*data, nickname_keys()),
        ),
        opt_text(r.nickname) == or_other(
            opt_text(account.nickname),
            opt_text_in(*data, nickname_keys()),
        ),
        opt_text(r.avatar_url) == or_other(
            not_blank(opt_text(account.avatar_url)),
            opt_text_in(*data, avatar_keys()),
        ),
        r.login_time@ == account.login_time@,
        opt_text(r.expire_time) == opt_text(account.expire_time),
        r.is_active == (active == Some(account.user_id)),
        r.is_primary == (primary == Some(account.user_id)),
{
    let nicknames = make_nickname_keys();
    let avatars = make_avatar_keys();
    let (name, avatar): (Option<String>, Option<String>) = match data {
        Some(d) => (extract_string(d, &nicknames), extract_string(d, &avatars)),
        None => (None, None),
    };
    let username = match &account.username {
        Some(s) => Some(copy_text(s.as_str())),
        None => copy_opt(&name),
    };
    let nickname = match &account.nickname {
        Some(s) => Some(copy_text(s.as_str())),
        None => name,
    };
    let avatar_url = match &account.avatar_url {
        Some(s) => {
            let bare = trim_text(s.as_str());
            if bare.as_str().is_empty() {
                avatar
            } else {
                Some(copy_text(s.as_str()))
            }
        },
        None => avatar,
    };
    let is_active = match active {
        Some(id) => id == account.user_id,
        None => false,
    };
    let is_primary = match primary {
        Some(id) => id == account.user_id,
        None => false,
    };
    BilibiliAccountSummary {
        user_id: account.user_id,
        username,
        nickname,
        avatar_url,
        login_time: copy_text(account.login_time.as_str()),
        expire_time: copy_opt(&account.expire_time),
        is_active,
        is_primary,
    }
}

// ---------------------------------------------------------------------------
// The active and the primary account

/// The accounts that are marked: the active one, and the primary one.
#[derive(Clone, Copy)]
pub struct Marks {
    pub active: Option<i64>,
    pub primary: Option<i64>,
}

/// The marks after an account has logged in: it is the active one, and the primary one where
/// there was none.
pub open spec fn marks_after_login(m: Marks, user_id: i64) -> Marks {
    Marks {
        active: Some(user_id),
        primary: match m.primary {
            Some(id) => Some(id),
            None => Some(user_id),
        },
    }
}

/// The marks after an account has logged in.
pub fn mark_login(m: Marks, user_id: i64) -> (r: Marks)
    ensures
        r == marks_after_login(m, user_id),
{
    Marks {
        active: Some(user_id),
        primary: match m.primary {
            Some(id) => Some(id),
            None => Some(user_id),
        },
    }
}

/// The primary account that is set where there is none: the given one, else the active one, else
/// the one that logged in last.
pub fn primary_to_set(m: Marks, fallback: Option<i64>, latest: Option<i64>) -> (r: Option<
    Option<i64>,
>)
    ensures
        r == (if m.primary is Some {
            None
        } else {
            Some(
                if fallback is Some {
                    fallback
                } else if m.active is Some {
                    m.active
                } else {
                    latest
                },
            )
        }),
{
    if m.primary.is_some() {
        return None;
    }
    if fallback.is_some() {
        Some(fallback)
    } else if m.active.is_some() {
        Some(m.active)
    } else {
        Some(latest)
    }
}

/// The marks after an account has logged out, where `latest` is the account that logged in last
/// among those that are left.
pub open spec fn marks_after_logout(m: Marks, user_id: i64, latest: Option<i64>) -> Marks {
    let active = if m.active == Some(user_id) {
        latest
    } else {
        m.active
    };
    Marks {
        active,
        primary: if m.primary == Some(user_id) {
            match active {
                Some(id) => Some(id),
                None => latest,
            }
        } else {
            m.primary
        },
    }
}

fn same_account(a: Option<i64>, b: i64) -> (r: bool)
    ensures
        r == (a == Some(b)),
{
    match a {
        Some(id) => id == b,
        None => false,
    }
}

/// The marks after an account has logged out.
pub fn mark_logout(m: Marks, user_id: i64, latest: Option<i64>) -> (r: Marks)
    ensures
        r == marks_after_logout(m, user_id, latest),
{
    let active: Option<i64> = if same_account(m.active, user_id) {
        latest
    } else {
        m.active
    };
    let primary: Option<i64> = if same_account(m.primary, user_id) {
        match active {
            Some(id) => Some(id),
            None => latest,
        }
    } else {
        m.primary
    };
    Marks { active, primary }
}

/// An account that has logged out is neither the active nor the primary one, and the others keep
/// their marks.
pub proof fn law_logout(m: Marks, user_id: i64, latest: Option<i64>)
    requires
        latest != Some(user_id),
    ensures
        marks_after_logout(m, user_id, latest).active != Some(user_id),
        marks_after_logout(m, user_id, latest).primary != Some(user_id),
        m.active != Some(user_id) ==> marks_after_logout(m, user_id, latest).active == m.active,
        m.primary != Some(user_id) ==> marks_after_logout(m, user_id, latest).primary == m.primary,
{
}

/// What undoes the marks that a login set.
pub struct MarkRepair {
    /// The active account that is set again, or none that it is taken back to; nothing where it
    /// stays.
    pub active: Option<Option<i64>>,
    /// The primary account that is set again.
    pub primary: Option<Option<i64>>,
}

/// What undoes the marks that a login set, where the account is not to be switched to. `saved`
/// is the account that logged in, where its data named one.
pub open spec fn repair(previous: Marks, saved: Option<i64>) -> MarkRepair {
    MarkRepair {
        active: match previous.active {
            Some(id) => if Some(id) != saved {
                Some(Some(id))
            } else {
                None
            },
            None => if saved is Some {
                Some(None)
            } else {
                None
            },
        },
        primary: if previous.primary != saved {
            Some(previous.primary)
        } else {
            None
        },
    }
}

fn same_option(a: Option<i64>, b: Option<i64>) -> (r: bool)
    ensures
        r == (a == b),
{
    match (a, b) {
        (Some(x), Some(y)) => x == y,
        (None, None) => true,
        _ => false,
    }
}

/// What undoes the marks that a login set.
pub fn repair_marks(previous: Marks, saved: Option<i64>) -> (r: MarkRepair)
    ensures
        r == repair(previous, saved),
{
    let active: Option<Option<i64>> = match previous.active {
        Some(id) => if !same_account(saved, id) {
            Some(Some(id))
        } else {
            None
        },
        None => if saved.is_some() {
            Some(None)
        } else {
            None
        },
    };
    let primary: Option<Option<i64>> = if !same_option(previous.primary, saved) {
        Some(previous.primary)
    } else {
        None
    };
    MarkRepair { active, primary }
}

/// The marks once they are repaired.
pub open spec fn repaired(m: Marks, r: MarkRepair) -> Marks {
    Marks {
        active: match r.active {
            Some(a) => a,
            None => m.active,
        },
        primary: match r.primary {
            Some(p) => p,
            None => m.primary,
        },
    }
}

/// Saving a login without switching to it leaves the active and the primary account what they
/// were.
pub proof fn law_quiet_login(previous: Marks, saved: Option<i64>)
    ensures
        ({
            let after = match saved {
                Some(id) => marks_after_login(previous, id),
                None => previous,
            };
            repaired(after, repair(previous, saved)) == previous
        }),
{
}

// ---------------------------------------------------------------------------
// Stored marks

/// The account that a stored mark names.
pub open spec fn mark_of(stored: Option<Seq<char>>) -> Option<i64> {
    match stored {
        Some(s) => i64_value(trim(s)),
        None => None,
    }
}

/// The account that a stored mark names.
pub fn read_mark(stored: &Option<String>) -> (r: Option<i64>)
    ensures
        r == mark_of(opt_text(*stored)),
{
    match stored {
        Some(s) => {
            let chars = to_chars(s.as_str());
            let bare = trimmed(chars.as_slice());
            parse_i64(bare.as_slice())
        },
        None => None,
    }
}

/// A mark as it is stored: empty where there is none.
pub open spec fn mark_text(mark: Option<i64>) -> Seq<char> {
    match mark {
        Some(id) => decimal(id as int),
        None => Seq::empty(),
    }
}

/// A mark as it is stored.
pub fn write_mark(mark: Option<i64>) -> (r: String)
    ensures
        r@ == mark_text(mark),
{
    match mark {
        Some(id) => i64_text(id),
        None => String::new(),
    }
}

/// A mark that was stored is read back.
pub proof fn law_mark_round_trip(mark: Option<i64>)
    ensures
        mark_of(Some(mark_text(mark))) == mark,
{
    match mark {
        Some(id) => {
            crate::text::lemma_decimal_round_trip(id);
            lemma_decimal_bare(id as int);
        },
        None => {
            crate::text::lemma_trim_ends(Seq::<char>::empty());
            assert(trim(Seq::<char>::empty()) =~= Seq::<char>::empty());
        },
    }
}

proof fn lemma_decimal_bare(n: int)
    ensures
        trim(decimal(n)) == decimal(n),
{
    let m = (if n < 0 {
        -n
    } else {
        n
    }) as nat;
    crate::text::lemma_digits_of(m);
    let d = digits_of(m);
    let s = decimal(n);
    assert(is_digit(d[0]) && is_digit(d[d.len() - 1]));
    assert(s.last() == d.last());
    assert(!is_space(s[0]));
    assert(!is_space(s.last()));
}

/// The mark that is stored at startup where none is: the account that logged in last.
pub fn adopted_mark(stored: &str, latest: &Option<String>) -> (r: Option<String>)
    ensures
        opt_text(r) == (if trim(stored@).len() == 0 {
            opt_text(*latest)
        } else {
            None
        }),
{
    let bare = trim_text(stored);
    if bare.as_str().is_empty() {
        copy_opt(latest)
    } else {
        None
    }
}

/// The primary mark that is stored at startup where none is: the active account, else the one
/// that logged in last.
pub fn adopted_primary(primary: &str, active: &str, latest: &Option<String>) -> (r: Option<String>)
    ensures
        opt_text(r) == (if trim(primary@).len() > 0 {
            None
        } else if trim(active@).len() > 0 {
            Some(active@)
        } else {
            opt_text(*latest)
        }),
{
    let bare = trim_text(primary);
    if !bare.as_str().is_empty() {
        return None;
    }
    let bare_active = trim_text(active);
    if !bare_active.as_str().is_empty() {
        Some(copy_text(active))
    } else {
        copy_opt(latest)
    }
}

/// The cloud storage account that is bound to an account, or what is wrong with it.
pub fn checked_binding(baidu_uid: &str) -> (r: Result<String, String>)
    ensures
        match r {
            Ok(uid) => trim(baidu_uid@).len() > 0 && uid@ == trim(baidu_uid@),
            Err(message) => trim(baidu_uid@).len() == 0 && message@ == "网盘账号不能为空"@,
        },
{
    let uid = trim_text(baidu_uid);
    if uid.as_str().is_empty() {
        Err(copy_text("网盘账号不能为空"))
    } else {
        Ok(uid)
    }
}

// ---------------------------------------------------------------------------
// What login data tells

/// Of several parameters of one name the last counts.
pub proof fn law_last_parameter_counts(
    pairs: Seq<(Seq<char>, Seq<char>)>,
    key: Seq<char>,
    i: int,
)
    requires
        forall|k: int| i < k < pairs.len() ==> (#[trigger] pairs[k]).0 != key,
        -1 <= i < pairs.len(),
        i >= 0 ==> pairs[i].0 == key,
    ensures
        i >= 0 ==> last_value(pairs, key) == Some(pairs[i].1),
        i == -1 ==> last_value(pairs, key) is None,
    decreases pairs.len(),
{
    if pairs.len() > 0 {
        let n = pairs.len() - 1;
        assert(pairs[n] == pairs.last());
        if i < n {
            let rest = pairs.drop_last();
            assert forall|k: int| i < k < rest.len() implies (#[trigger] rest[k]).0 != key by {
                assert(rest[k] == pairs[k]);
            }
            if i >= 0 {
                assert(rest[i] == pairs[i]);
            }
            law_last_parameter_counts(rest, key, i);
        }
    }
}

/// A cookie needs the session and the token against forgery, each under its name, and names the
/// user where it is told.
pub proof fn law_cookie_of_session(s: Seq<char>, j: Seq<char>, user: Option<Seq<char>>)
    ensures
        user is Some ==> cookie_of_params(Some(s), Some(j), user) == Some(
            "SESSDATA="@ + s + "; bili_jct="@ + j + "; DedeUserID="@ + user->0,
        ),
        user is None ==> cookie_of_params(Some(s), Some(j), user) == Some(
            "SESSDATA="@ + s + "; bili_jct="@ + j,
        ),
        cookie_of_params(None, Some(j), user) is None,
        cookie_of_params(Some(s), None, user) is None,
{
    let start = "SESSDATA="@ + s + "; bili_jct="@ + j;
    if let Some(u) = user {
        assert(start + ("; DedeUserID="@ + u) =~= start + "; DedeUserID="@ + u);
    } else {
        assert(start + Seq::<char>::empty() =~= start);
    }
}

/// The cookie is the one that is told, else the one that the address of the login makes, else that
/// of the data within.
pub proof fn law_cookie_where_told(v: JsonView, inner: JsonView)
    ensures
        text_at(v, "cookie"@) is Some ==> cookie_in(v) == text_at(v, "cookie"@),
        text_at(v, "cookie"@) is None && text_at(v, "cookies"@) is Some ==> cookie_in(v) == text_at(
            v,
            "cookies"@,
        ),
        text_at(v, "cookie"@) is None && text_at(v, "cookies"@) is None && text_at(v, "url"@) is Some
            && url_parts(text_at(v, "url"@)->0) is Some ==> ({
            let parts = url_parts(text_at(v, "url"@)->0)->0;
            cookie_in(v) == cookie_of_params(
                last_value(parts.2, "SESSDATA"@),
                last_value(parts.2, "bili_jct"@),
                last_value(parts.2, "DedeUserID"@),
            )
        }),
        text_at(v, "cookie"@) is None && text_at(v, "cookies"@) is None && text_at(v, "url"@) is None
            && field(v, "data"@) == Some(inner) ==> cookie_in(v) == cookie_in(inner),
        text_at(v, "cookie"@) is None && text_at(v, "cookies"@) is None && text_at(v, "url"@) is None
            && field(v, "data"@) is None ==> cookie_in(v) is None,
{
}

proof fn lemma_first_text(v: JsonView, keys: Seq<Seq<char>>, i: int)
    requires
        0 <= i <= keys.len(),
        forall|k: int| 0 <= k < i ==> text_at(v, #[trigger] keys[k]) is None,
        i < keys.len() ==> text_at(v, keys[i]) is Some,
    ensures
        i < keys.len() ==> first_text(v, keys) == text_at(v, keys[i]),
        i == keys.len() ==> first_text(v, keys) is None,
    decreases keys.len(),
{
    if i > 0 {
        assert(text_at(v, keys[0]) is None);
        let rest = keys.drop_first();
        assert forall|k: int| 0 <= k < i - 1 implies text_at(v, #[trigger] rest[k]) is None by {
            assert(rest[k] == keys[k + 1]);
        }
        if i < keys.len() {
            assert(rest[i - 1] == keys[i]);
        }
        lemma_first_text(v, rest, i - 1);
    }
}

/// A text is told under the first of its keys that is there; where none is, it is looked for in the
/// data within.
pub proof fn law_first_key_tells(v: JsonView, keys: Seq<Seq<char>>, i: int, inner: JsonView)
    requires
        0 <= i <= keys.len(),
        forall|k: int| 0 <= k < i ==> text_at(v, #[trigger] keys[k]) is None,
        i < keys.len() ==> text_at(v, keys[i]) is Some,
    ensures
        i < keys.len() ==> text_in(v, keys) == text_at(v, keys[i]),
        i == keys.len() && field(v, "data"@) == Some(inner) ==> text_in(v, keys) == text_in(
            inner,
            keys,
        ),
        i == keys.len() && field(v, "data"@) is None ==> text_in(v, keys) is None,
{
    lemma_first_text(v, keys, i);
}

/// The names and the picture of an account stand under these keys, the earlier before the later.
pub proof fn law_account_keys(v: JsonView)
    ensures
        text_at(v, "uname"@) is Some ==> text_in(v, name_keys()) == text_at(v, "uname"@),
        text_at(v, "uname"@) is None && text_at(v, "username"@) is Some ==> text_in(v, name_keys())
            == text_at(v, "username"@),
        text_at(v, "uname"@) is None && text_at(v, "username"@) is None && text_at(
            v,
            "name"@,
        ) is Some ==> text_in(v, name_keys()) == text_at(v, "name"@),
        text_at(v, "nickname"@) is Some ==> text_in(v, nickname_keys()) == text_at(v, "nickname"@),
        text_at(v, "nickname"@) is None && text_at(v, "uname"@) is Some ==> text_in(
            v,
            nickname_keys(),
        ) == text_at(v, "uname"@),
        text_at(v, "avatar"@) is Some ==> text_in(v, avatar_keys()) == text_at(v, "avatar"@),
        text_at(v, "avatar"@) is None && text_at(v, "avatar_url"@) is Some ==> text_in(
            v,
            avatar_keys(),
        ) == text_at(v, "avatar_url"@),
        text_at(v, "avatar"@) is None && text_at(v, "avatar_url"@) is None && text_at(
            v,
            "face"@,
        ) is Some ==> text_in(v, avatar_keys()) == text_at(v, "face"@),
{
    assert(name_keys()[0] == "uname"@ && name_keys()[1] == "username"@ && name_keys()[2]
        == "name"@);
    assert(nickname_keys()[0] == "nickname"@ && nickname_keys()[1] == "uname"@);
    assert(avatar_keys()[0] == "avatar"@ && avatar_keys()[1] == "avatar_url"@ && avatar_keys()[2]
        == "face"@);
    if text_at(v, "uname"@) is Some {
        lemma_first_text(v, name_keys(), 0);
    } else if text_at(v, "username"@) is Some {
        lemma_first_text(v, name_keys(), 1);
    } else if text_at(v, "name"@) is Some {
        lemma_first_text(v, name_keys(), 2);
    }
    if text_at(v, "nickname"@) is Some {
        lemma_first_text(v, nickname_keys(), 0);
    } else if text_at(v, "uname"@) is Some {
        lemma_first_text(v, nickname_keys(), 1);
    }
    if text_at(v, "avatar"@) is Some {
        lemma_first_text(v, avatar_keys(), 0);
    } else if text_at(v, "avatar_url"@) is Some {
        lemma_first_text(v, avatar_keys(), 1);
    } else if text_at(v, "face"@) is Some {
        lemma_first_text(v, avatar_keys(), 2);
    }
}

/// The user is the one that the address of the login names, else the one that the data does.
pub proof fn law_user_where_told(v: JsonView)
    ensures
        ({
            let named = data_param(v, "DedeUserID"@);
            let none = named is None || i64_value(named->0) is None;
            &&& !none ==> user_id_in(v) == i64_value(named->0)
            &&& none && integer_at(v, "mid"@) is Some ==> user_id_in(v) == integer_at(v, "mid"@)
            &&& none && integer_at(v, "mid"@) is None ==> user_id_in(v) == integer_at(v, "user_id"@)
        }),
        text_at(v, "refresh_token"@) is Some ==> refresh_token_in(v) == text_at(v, "refresh_token"@),
        text_at(v, "refresh_token"@) is None && field(v, "data"@) is None ==> refresh_token_in(v)
            == data_param(v, "refresh_token"@),
{
    let keys = seq!["refresh_token"@];
    assert(keys[0] == "refresh_token"@);
    if text_at(v, "refresh_token"@) is Some {
        lemma_first_text(v, keys, 0);
    } else {
        lemma_first_text(v, keys, 1);
    }
}

/// A session tells its end in its second part, whether the commas are written as such or not.
pub proof fn law_session_end_in_second_part(a: Seq<char>, n: i64, c: Seq<char>)
    requires
        forall|k: int| 0 <= k < a.len() ==> a[k] != ',' && a[k] != '%',
        forall|k: int| 0 <= k < c.len() ==> c[k] != ',' && c[k] != '%',
        forall|k: int|
            0 <= k < decimal(n as int).len() ==> decimal(n as int)[k] != ',' && decimal(
                n as int,
            )[k] != '%',
    ensures
        param_number(second_part(a.push(',') + (decimal(n as int).push(',') + c))) == Some(n),
        param_number(
            second_part(a + "%2C"@ + (decimal(n as int) + "%2C"@ + c)),
        ) == Some(n),
{
    let d = decimal(n as int);
    let x = a.push(',') + (d.push(',') + c);
    let y = a + "%2C"@ + (d + "%2C"@ + c);
    reveal_strlit("%2C");
    reveal_strlit("%2c");
    reveal_strlit(",");
    assert("%2C"@.len() == 3 && "%2C"@[0] == '%');
    assert("%2c"@.len() == 3 && "%2c"@[0] == '%');
    assert(","@ =~= seq![',']);
    lemma_decimal_round_trip(n);
    lemma_split_concat(a, d.push(',') + c, ',');
    lemma_split_concat(d, c, ',');
    lemma_split_whole(a, ',');
    lemma_split_whole(d, ',');
    lemma_split_whole(c, ',');
    assert(split_on(x, ',') =~= seq![a, d, c]);
    assert forall|k: int| 0 <= k < x.len() implies x[k] != '%' by {
        if k < a.len() {
            assert(x[k] == a[k]);
        } else if k > a.len() {
            let m = k - a.len() - 1;
            assert(x[k] == (d.push(',') + c)[m]);
            if m < d.len() {
                assert(x[k] == d[m]);
            } else if m > d.len() {
                assert(x[k] == c[m - d.len() - 1]);
            }
        }
    }
    law_replaced_in_its_place(x, "%2C"@, x, ","@);
    law_replaced_in_its_place(x, "%2c"@, x, ","@);
    law_replaced_in_its_place(a, "%2C"@, d + "%2C"@ + c, ","@);
    law_replaced_in_its_place(d, "%2C"@, c, ","@);
    law_replaced_in_its_place(c, "%2C"@, c, ","@);
    assert(a + ","@ + (d + ","@ + c) =~= x);
}

/// A login ends when its address says, else with its session.
pub proof fn law_login_ends_with_session(v: JsonView, cookie: Seq<char>)
    ensures
        ({
            let named = data_param(v, "Expires"@);
            let none = named is None || i64_value(named->0) is None;
            &&& !none ==> expiry_in(v) == on_calendar(i64_value(named->0))
            &&& none && cookie_in(v) == Some(cookie) ==> expiry_in(v) == session_end(cookie)
            &&& none && cookie_in(v) is None ==> expiry_in(v) is None
        }),
        cookie_value(cookie, "SESSDATA"@) is None ==> session_end(cookie) is None,
        cookie_value(cookie, "SESSDATA"@) is Some && cookie_value(cookie, "SESSDATA"@)->0.len() > 0
            ==> session_end(cookie) == on_calendar(
            param_number(second_part(cookie_value(cookie, "SESSDATA"@)->0)),
        ),
{
}

/// An end that has come stays so, and one that is not known never comes.
pub proof fn law_end_comes_once(secs: i64, now: TimePoint, later: TimePoint)
    requires
        now.secs <= later.secs,
    ensures
        has_come(Some(secs), now) == (secs <= now.secs),
        has_come(Some(secs), now) ==> has_come(Some(secs), later),
        !has_come(None, now),
        !text_has_come(None, now),
{
}

/// A stored end has come once the clock stands at it or behind it.
pub proof fn law_stored_end_comes(time: Seq<char>, at: (i64, u32, Seq<char>), now: TimePoint)
    requires
        rfc3339_moment(time) == Ok::<(i64, u32, Seq<char>), Seq<char>>(at),
    ensures
        now.secs > at.0 ==> text_has_come(Some(time), now),
        now.secs < at.0 ==> !text_has_come(Some(time), now),
        now.secs == at.0 ==> text_has_come(Some(time), now) == (now.nanos >= at.1),
{
}

/// An end counts where the calendar has it.
pub proof fn law_end_on_calendar(secs: i64)
    ensures
        moment_gap(secs, 0, secs, 0) is Some ==> on_calendar(Some(secs)) == Some(secs),
        moment_gap(secs, 0, secs, 0) is None ==> on_calendar(Some(secs)) is None,
        on_calendar(None) is None,
{
}

} // verus!
