use std::time::Duration;

use bili_clip_flow::bilibili::{
    build_query, device_cookie, is_archive_request_url, is_bilibili_ban_error,
    is_bilibili_risk_control_error, is_season_archive_request_url, parse_http_response,
    parse_response, request_url, site_headers, with_query, ArchiveRequestState, RequestKind,
};
use bili_clip_flow::cookie::{append_cookie, cookie_has_key, extract_cookie_value, extract_csrf};
use bili_clip_flow::json::Json;

const HOUR: u64 = 3_600_000_000_000;

fn object(fields: Vec<(&str, Json)>) -> Json {
    Json::Object(fields.into_iter().map(|(k, v)| (k.to_string(), v)).collect())
}

#[test]
fn risk_control_detection_covers_known_bilibili_codes() {
    assert!(is_bilibili_risk_control_error("request was banned (code: -412)"));
    assert!(is_bilibili_risk_control_error("系统限流 (code: -509)"));
    assert!(is_bilibili_risk_control_error("请求频率过高，请稍后再试 (code: -702)"));
    assert!(!is_bilibili_risk_control_error("网络繁忙 请稍后再试 (code: 69800)"));
}

#[test]
fn a_ban_is_one_kind_of_risk_control() {
    assert!(is_bilibili_ban_error("request was banned (code: -412)"));
    assert!(!is_bilibili_ban_error("系统限流 (code: -509)"));
}

#[test]
fn season_archive_requests_share_archive_rate_limit() {
    assert!(is_archive_request_url(
        "https://api.bilibili.com/x/polymer/web-space/seasons_archives_list"
    ));
    assert!(is_season_archive_request_url(
        "https://api.bilibili.com/x/polymer/web-space/seasons_archives_list"
    ));
}

#[test]
fn archive_rate_limit_uses_bounded_exponential_cooldown() {
    let mut state = ArchiveRequestState::default();
    let now = HOUR;
    assert_eq!(
        state.record_error("系统限流 (code: -509)", now).map(Duration::from_nanos),
        Some(Duration::from_secs(60))
    );
    assert_eq!(
        state.record_error("系统限流 (code: -509)", now).map(Duration::from_nanos),
        Some(Duration::from_secs(120))
    );
    state.consecutive_rate_limits = 20;
    assert_eq!(
        state.record_error("请求频率过高 (code: -702)", now).map(Duration::from_nanos),
        Some(Duration::from_secs(30 * 60))
    );
}

#[test]
fn archive_ban_starts_long_cooldown_and_success_resets_it() {
    let mut state = ArchiveRequestState::default();
    let now = HOUR;
    assert_eq!(
        state.record_error("request was banned (code: -412)", now).map(Duration::from_nanos),
        Some(Duration::from_secs(30 * 60))
    );
    assert!(state.active_cooldown_error(now).is_some());
    state.record_success();
    assert!(state.active_cooldown_error(now).is_none());
    assert_eq!(state.consecutive_rate_limits, 0);
}

#[test]
fn archive_request_state_enforces_minimum_interval() {
    let now = HOUR;
    let mut state = ArchiveRequestState {
        last_request_at: now.checked_sub(Duration::from_millis(500).as_nanos() as u64),
        ..ArchiveRequestState::default()
    };
    assert_eq!(
        state.request_wait(now).map(Duration::from_nanos),
        Some(Duration::from_millis(1000))
    );

    state.last_request_at = now.checked_sub(Duration::from_secs(2).as_nanos() as u64);
    assert_eq!(state.request_wait(now).map(Duration::from_nanos), None);
}

#[test]
fn other_errors_start_no_cooldown() {
    let mut state = ArchiveRequestState::default();
    assert_eq!(state.record_error("网络繁忙 请稍后再试 (code: 69800)", HOUR), None);
    assert!(state.active_cooldown_error(HOUR).is_none());
}

#[test]
fn queries_are_encoded() {
    let params = vec![
        ("keyword".to_string(), "a b&c".to_string()),
        ("pn".to_string(), "1".to_string()),
    ];
    assert_eq!(build_query(&params), "keyword=a+b%26c&pn=1");
    assert_eq!(with_query("https://x.test/a", "b=1"), "https://x.test/a?b=1");
    assert_eq!(
        request_url("https://x.test/a", &params),
        "https://x.test/a?keyword=a+b%26c&pn=1"
    );
}

#[test]
fn replies_are_unwrapped_by_their_code() {
    let good = object(vec![
        ("code", Json::Int(0)),
        ("data", object(vec![("a", Json::Int(1))])),
    ]);
    let data = parse_response(&good).ok().expect("data");
    assert_eq!(data.get_i64("a"), Some(1));
    let bad = object(vec![
        ("code", Json::Int(-509)),
        ("message", Json::Str("系统限流".to_string())),
    ]);
    let error = parse_response(&bad).err().expect("an error");
    assert!(is_bilibili_risk_control_error(&error));
    assert!(parse_http_response(200, Ok(good)).is_ok());
    assert!(parse_http_response(412, Ok(bad)).is_err());
}

#[test]
fn cookies_are_read_and_extended() {
    let cookie = "SESSDATA=abc; bili_jct=token; DedeUserID=7";
    assert_eq!(extract_csrf(cookie), Some("token".to_string()));
    assert_eq!(extract_cookie_value(cookie, "DedeUserID"), Some("7".to_string()));
    assert_eq!(extract_cookie_value(cookie, "buvid3"), None);
    assert!(cookie_has_key(cookie, "SESSDATA"));
    assert_eq!(append_cookie("", "a", "1"), "a=1");
    assert_eq!(append_cookie("b=2", "a", "1"), "b=2; a=1");
    assert_eq!(append_cookie("b=2;", "a", "1"), "b=2; a=1");
    let extended = append_cookie(cookie, "buvid3", "xyz");
    assert_eq!(extract_cookie_value(&extended, "buvid3"), Some("xyz".to_string()));
    assert!(device_cookie(cookie, "xyz").contains("buvid3=xyz"));
}

#[test]
fn requests_name_the_site() {
    let headers = site_headers(RequestKind::Get, "https://api.live.bilibili.com/x");
    assert_eq!(headers.referer, Some("https://live.bilibili.com/".to_string()));
    assert_eq!(headers.origin, Some("https://live.bilibili.com".to_string()));
    let headers = site_headers(RequestKind::PostForm, "https://member.bilibili.com/x");
    assert_eq!(headers.referer, None);
    let headers = site_headers(
        RequestKind::Get,
        "https://api.bilibili.com/x/polymer/web-space/seasons_archives_list",
    );
    assert_eq!(headers.referer, Some("https://space.bilibili.com/".to_string()));
}

#[test]
fn refused_requests_are_named() {
    assert_eq!(
        parse_http_response(412, Ok(Json::Null)).err(),
        Some("request was banned (code: -412, HTTP 412)".to_string())
    );
    assert_eq!(
        parse_http_response(429, Ok(Json::Null)).err(),
        Some("请求频率过高，请稍后再试 (code: -509, HTTP 429)".to_string())
    );
    assert_eq!(
        parse_http_response(500, Ok(object(vec![("code", Json::Int(0))]))).err(),
        Some("Bilibili returned HTTP 500".to_string())
    );
    assert_eq!(
        parse_http_response(200, Err("no json".to_string())).err(),
        Some("no json".to_string())
    );
}

#[test]
fn queries_escape_what_does_not_stand_for_itself() {
    let params = vec![("键".to_string(), "aZ0*-._~/".to_string()), (String::new(), String::new())];
    assert_eq!(build_query(&params), "%E9%94%AE=aZ0*-._%7E%2F&=");
    assert_eq!(build_query(&vec![]), "");
}
