use bili_clip_flow::json::Json;
use bili_clip_flow::login::{
    account_summary, adopted_mark, adopted_primary, build_auth_info, checked_binding,
    extract_cookie, extract_expire_time, extract_refresh_token, extract_sessdata_expire,
    extract_user_id, find_last_value, login_end, make_cookie, mark_login, mark_logout,
    primary_to_set, read_mark, repair_marks, saved_login, stored_auth, write_mark, LoginStore,
    Marks, StoredAccount,
};
use bili_clip_flow::outside::TimePoint;

fn some(s: &str) -> Option<String> {
    Some(s.to_string())
}

fn text(s: &str) -> Json {
    Json::Str(s.to_string())
}

fn object(fields: Vec<(&str, Json)>) -> Json {
    Json::Object(fields.into_iter().map(|(k, v)| (k.to_string(), v)).collect())
}

fn at(secs: i64) -> TimePoint {
    TimePoint { secs, nanos: 0 }
}

fn login_data() -> Json {
    object(vec![
        (
            "url",
            text("https://passport.x.test/?DedeUserID=12&SESSDATA=s%2C1&bili_jct=j&Expires=2000&DedeUserID=13"),
        ),
        ("data", object(vec![("uname", text("n")), ("refresh_token", text("r"))])),
        ("face", text("f")),
    ])
}

#[test]
fn login_data_is_read() {
    let data = login_data();
    assert_eq!(extract_cookie(&data), some("SESSDATA=s,1; bili_jct=j; DedeUserID=13"));
    assert_eq!(extract_user_id(&data), Some(13));
    assert_eq!(extract_expire_time(&data), Some(2000));
    assert_eq!(extract_refresh_token(&data), some("r"));
    let nested = object(vec![("data", object(vec![("cookies", text("a=b"))]))]);
    assert_eq!(extract_cookie(&nested), some("a=b"));
    assert_eq!(extract_cookie(&Json::Null), None);
    assert_eq!(extract_user_id(&object(vec![("mid", Json::Int(4))])), Some(4));
    assert_eq!(extract_user_id(&object(vec![("user_id", Json::Int(5))])), Some(5));
    let saved = saved_login(&data).expect("an account");
    assert_eq!(saved.user_id, 13);
    assert_eq!((saved.username, saved.nickname), (some("n"), some("n")));
    assert_eq!((saved.avatar_url, saved.access_token), (some("f"), some("s,1")));
    assert!(saved_login(&object(vec![("cookie", text("x"))])).is_none());
}

#[test]
fn parameters_take_their_last_value() {
    let pairs = vec![
        ("a".to_string(), "1".to_string()),
        ("b".to_string(), "2".to_string()),
        ("a".to_string(), "3".to_string()),
    ];
    assert_eq!(find_last_value(&pairs, "a"), some("3"));
    assert_eq!(find_last_value(&pairs, "c"), None);
    assert_eq!(make_cookie(&some("s"), &some("j"), &None), some("SESSDATA=s; bili_jct=j"));
    assert_eq!(make_cookie(&some("s"), &None, &some("u")), None);
}

#[test]
fn sessions_tell_their_end() {
    assert_eq!(extract_sessdata_expire("a=b; SESSDATA=x%2C1700000000%2Cy"), Some(1_700_000_000));
    assert_eq!(extract_sessdata_expire("SESSDATA=x,17"), Some(17));
    assert_eq!(extract_sessdata_expire("SESSDATA="), None);
    assert_eq!(extract_sessdata_expire("SESSDATA=x"), None);
    assert_eq!(extract_sessdata_expire("SESSDATA=x,9223372036854775807"), None);
    let huge = object(vec![("cookie", text("SESSDATA=x,9223372036854775807"))]);
    assert_eq!(extract_expire_time(&huge), None);
}

#[test]
fn expired_logins_are_not_used() {
    let data = login_data();
    let auth = build_auth_info(&data, at(1999)).expect("a login");
    assert_eq!(auth.csrf, some("j"));
    assert!(build_auth_info(&data, at(2000)).is_none());
    let auth = stored_auth(&data, &some("1970-01-01T00:20:00Z"), 99, at(1199)).expect("a login");
    assert_eq!(auth.user_id, Some(99));
    assert!(stored_auth(&data, &some("1970-01-01T00:20:00Z"), 99, at(1200)).is_none());
    assert!(stored_auth(&data, &some("?"), 99, at(1200)).is_some());
}

#[test]
fn accounts_are_listed() {
    let account = StoredAccount {
        user_id: 7,
        username: None,
        nickname: some("k"),
        avatar_url: some(" "),
        login_time: "t".to_string(),
        expire_time: None,
    };
    let summary = account_summary(&account, &Some(login_data()), Some(7), None);
    assert_eq!((summary.username, summary.nickname), (some("n"), some("k")));
    assert_eq!(summary.avatar_url, some("f"));
    assert!(summary.is_active);
    assert!(!summary.is_primary);
}

#[test]
fn marks_follow_logins_and_logouts() {
    let none = Marks { active: None, primary: None };
    let first = mark_login(none, 1);
    assert_eq!((first.active, first.primary), (Some(1), Some(1)));
    let second = mark_login(first, 2);
    assert_eq!((second.active, second.primary), (Some(2), Some(1)));
    let out = mark_logout(second, 2, Some(1));
    assert_eq!((out.active, out.primary), (Some(1), Some(1)));
    let empty = mark_logout(out, 1, None);
    assert_eq!((empty.active, empty.primary), (None, None));
    assert_eq!(primary_to_set(second, None, None), None);
    assert_eq!(primary_to_set(none, None, Some(5)), Some(Some(5)));
    assert_eq!(primary_to_set(Marks { active: Some(3), primary: None }, None, Some(5)), Some(Some(3)));
}

#[test]
fn quiet_logins_change_no_marks() {
    for previous in [
        Marks { active: None, primary: None },
        Marks { active: Some(1), primary: Some(1) },
        Marks { active: Some(2), primary: Some(1) },
        Marks { active: Some(1), primary: None },
    ] {
        for saved in [None, Some(1), Some(3)] {
            let after = match saved {
                Some(id) => mark_login(previous, id),
                None => previous,
            };
            let repair = repair_marks(previous, saved);
            assert_eq!(repair.active.unwrap_or(after.active), previous.active);
            assert_eq!(repair.primary.unwrap_or(after.primary), previous.primary);
        }
    }
}

#[test]
fn marks_are_stored_as_text() {
    for mark in [None, Some(0), Some(-7), Some(i64::MAX), Some(i64::MIN)] {
        assert_eq!(read_mark(&Some(write_mark(mark))), mark);
    }
    assert_eq!(read_mark(&some(" 12 ")), Some(12));
    assert_eq!(read_mark(&some("x")), None);
    assert_eq!(adopted_mark(" ", &some("5")), some("5"));
    assert_eq!(adopted_mark("4", &some("5")), None);
    assert_eq!(adopted_primary("", "4", &some("5")), some("4"));
    assert_eq!(adopted_primary("", "", &some("5")), some("5"));
    assert_eq!(adopted_primary("3", "", &some("5")), None);
    assert_eq!(checked_binding(" 9 "), Ok("9".to_string()));
    assert_eq!(checked_binding(" "), Err("网盘账号不能为空".to_string()));
    assert_eq!(LoginStore::new("/p".to_string()).path(), "/p");
}

#[test]
fn logins_end_when_they_say_or_after_a_day() {
    assert_eq!(login_end(Some(1_704_067_200), at(0)), some("2024-01-01T00:00:00+00:00"));
    assert_eq!(login_end(None, at(0)), some("1970-01-02T00:00:00+00:00"));
    assert_eq!(login_end(Some(i64::MAX), at(0)), some("1970-01-02T00:00:00+00:00"));
}
