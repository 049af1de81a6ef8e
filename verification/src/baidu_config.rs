//! The configuration of the cloud storage's command line client: logging an account in.

use crate::baidu_cookie::{
    credential_tokens, parse_baidu_cookie, read_cookie, stored_tokens, BaiduLoginCredential,
};
use crate::json::{
    field, fields_view, items_at, law_field_update, lemma_array_view, lemma_object_view, list_view,
    text_or_empty, with_field, Json, JsonView,
};
use crate::outside::{json_text, write_json};
use crate::session::opt_text;
use crate::text::{
    copy_text, i64_value, join, parse_i64, same, text_eq, to_chars, trim, trim_end_char,
    trim_start_char, trim_text, trimmed, trimmed_end_char, trimmed_start_char, views,
};
use vstd::prelude::*;

verus! {

/// What the client needs of an account: its uid and its tokens.
pub struct CliLogin {
    pub uid: String,
    pub bduss: String,
    pub stoken: String,
}

/// What the client needs of an account, or what is missing: the uid, then the BDUSS. Only then are
/// the tokens read.
pub fn cli_login(credential: &BaiduLoginCredential) -> (r: Result<CliLogin, String>)
    ensures
        match r {
            Ok(login) => trim(credential.baidu_uid@).len() > 0 && login.uid@ == trim(
                credential.baidu_uid@,
            ) && (stored_tokens(*credential) matches Ok(t) && t.0 == Some(login.bduss@)
                && login.stoken@ == (match t.1 {
                Some(s) => s,
                None => Seq::empty(),
            })),
            Err(message) => if trim(credential.baidu_uid@).len() == 0 {
                message@ == "缺少网盘 UID"@
            } else if credential.bduss is None {
                message@ == "缺少网盘 BDUSS"@
            } else {
                stored_tokens(*credential) matches Err(m) && message@ == m
            },
        },
{
    let uid = trim_text(credential.baidu_uid.as_str());
    if uid.as_str().is_empty() {
        return Err(copy_text("缺少网盘 UID"));
    }
    if credential.bduss.is_none() {
        return Err(copy_text("缺少网盘 BDUSS"));
    }
    match credential_tokens(credential) {
        Ok((Some(bduss), Some(stoken))) => Ok(CliLogin { uid, bduss, stoken }),
        Ok((Some(bduss), None)) => Ok(CliLogin { uid, bduss, stoken: String::new() }),
        Ok((None, _)) => Err(copy_text("缺少网盘 BDUSS")),
        Err(message) => Err(message),
    }
}

// ---------------------------------------------------------------------------
// Defaults

/// The value with another under a key that it does not have.
pub open spec fn or_field(v: JsonView, key: Seq<char>, value: JsonView) -> JsonView {
    if field(v, key) is None {
        with_field(v, key, value)
    } else {
        v
    }
}

/// The value with others under the keys that it does not have.
pub open spec fn or_fields(v: JsonView, defaults: Seq<(Seq<char>, JsonView)>) -> JsonView
    decreases defaults.len(),
{
    if defaults.len() == 0 {
        v
    } else {
        or_field(or_fields(v, defaults.drop_last()), defaults.last().0, defaults.last().1)
    }
}

fn set_missing(value: &mut Json, defaults: Vec<(String, Json)>)
    ensures
        final(value)@ == or_fields(old(value)@, fields_view(defaults@)),
{
    let ghost all = fields_view(defaults@);
    let ghost start = value@;
    let mut i: usize = 0;
    assert(all.take(0) =~= Seq::<(Seq<char>, JsonView)>::empty());
    while i < defaults.len()
        invariant
            i <= defaults@.len(),
            all == fields_view(defaults@),
            value@ == or_fields(start, all.take(i as int)),
        decreases defaults.len() - i,
    {
        assert(all.take(i + 1).drop_last() =~= all.take(i as int));
        assert(all.take(i + 1).last() == all[i as int]);
        let missing = value.get(defaults[i].0.as_str()).is_none();
        if missing {
            let d = defaults[i].1.copy();
            value.set(defaults[i].0.as_str(), d);
        }
        i += 1;
    }
    assert(all.take(i as int) =~= all);
}

/// Defaults leave what is there.
proof fn lemma_or_fields(v: JsonView, defaults: Seq<(Seq<char>, JsonView)>, key: Seq<char>)
    requires
        v is Object,
    ensures
        or_fields(v, defaults) is Object,
        field(v, key) is Some ==> field(or_fields(v, defaults), key) == field(v, key),
    decreases defaults.len(),
{
    if defaults.len() > 0 {
        let before = or_fields(v, defaults.drop_last());
        lemma_or_fields(v, defaults.drop_last(), key);
        if key != defaults.last().0 {
            law_field_update(before, defaults.last().0, defaults.last().1, key);
        }
    }
}

/// A text as a value.
pub open spec fn str_value(s: Seq<char>) -> JsonView {
    JsonView::Str(s)
}

/// What the client's configuration holds where nothing else is set.
pub open spec fn config_defaults(savedir: Seq<char>) -> Seq<(Seq<char>, JsonView)> {
    seq![
        ("appid"@, JsonView::Number(266719)),
        ("cache_size"@, JsonView::Number(65536)),
        ("max_parallel"@, JsonView::Number(3)),
        ("max_upload_parallel"@, JsonView::Number(4)),
        ("max_download_load"@, JsonView::Number(1)),
        ("max_upload_load"@, JsonView::Number(4)),
        ("max_download_rate"@, JsonView::Number(0)),
        ("max_upload_rate"@, JsonView::Number(0)),
        (
            "user_agent"@,
            str_value(
                "Mozilla/5.0 (Macintosh; Intel Mac OS X 10_13_2) AppleWebKit/537.36 (KHTML, like Gecko) Chrome/63.0.3239.132 Safari/537.36"@,
            ),
        ),
        ("pcs_addr"@, str_value("pcs.baidu.com"@)),
        (
            "pan_ua"@,
            str_value(
                "netdisk;P2SP;3.0.0.8;netdisk;11.12.3;ANG-AN00;android-android;10.0;JSbridge4.4.0;jointBridge;1.1.0;"@,
            ),
        ),
        ("savedir"@, str_value(savedir)),
        ("enable_https"@, JsonView::Bool(true)),
        ("fix_pcs_addr"@, JsonView::Bool(false)),
        ("force_login_username"@, str_value(""@)),
        ("proxy"@, str_value(""@)),
        ("proxy_hostnames"@, str_value(""@)),
        ("local_addrs"@, str_value(""@)),
        ("no_check"@, JsonView::Bool(true)),
        ("ignore_illegal"@, JsonView::Bool(true)),
        ("u_policy"@, str_value("skip"@)),
    ]
}

fn int_field(key: &str, n: i64) -> (r: (String, Json))
    ensures
        r.0@ == key@,
        r.1@ == JsonView::Number(n as int),
{
    (copy_text(key), Json::Int(n))
}

fn str_field(key: &str, s: &str) -> (r: (String, Json))
    ensures
        r.0@ == key@,
        r.1@ == str_value(s@),
{
    (copy_text(key), Json::Str(copy_text(s)))
}

fn bool_field(key: &str, b: bool) -> (r: (String, Json))
    ensures
        r.0@ == key@,
        r.1@ == JsonView::Bool(b),
{
    (copy_text(key), Json::Bool(b))
}

fn make_config_defaults(savedir: &str) -> (r: Vec<(String, Json)>)
    ensures
        fields_view(r@) == config_defaults(savedir@),
{
    let mut v: Vec<(String, Json)> = Vec::new();
    v.push(int_field("appid", 266719));
    v.push(int_field("cache_size", 65536));
    v.push(int_field("max_parallel", 3));
    v.push(int_field("max_upload_parallel", 4));
    v.push(int_field("max_download_load", 1));
    v.push(int_field("max_upload_load", 4));
    v.push(int_field("max_download_rate", 0));
    v.push(int_field("max_upload_rate", 0));
    v.push(
        str_field(
            "user_agent",
            "Mozilla/5.0 (Macintosh; Intel Mac OS X 10_13_2) AppleWebKit/537.36 (KHTML, like Gecko) Chrome/63.0.3239.132 Safari/537.36",
        ),
    );
    v.push(str_field("pcs_addr", "pcs.baidu.com"));
    v.push(
        str_field(
            "pan_ua",
            "netdisk;P2SP;3.0.0.8;netdisk;11.12.3;ANG-AN00;android-android;10.0;JSbridge4.4.0;jointBridge;1.1.0;",
        ),
    );
    v.push(str_field("savedir", savedir));
    v.push(bool_field("enable_https", true));
    v.push(bool_field("fix_pcs_addr", false));
    v.push(str_field("force_login_username", ""));
    v.push(str_field("proxy", ""));
    v.push(str_field("proxy_hostnames", ""));
    v.push(str_field("local_addrs", ""));
    v.push(bool_field("no_check", true));
    v.push(bool_field("ignore_illegal", true));
    v.push(str_field("u_policy", "skip"));
    assert(fields_view(v@) =~= config_defaults(savedir@));
    v
}

// ---------------------------------------------------------------------------
// Users

/// A uid as a value: a number where it is one, else a text.
pub open spec fn uid_value(uid: Seq<char>) -> JsonView {
    match i64_value(uid) {
        Some(n) => JsonView::Number(n as int),
        None => JsonView::Str(uid),
    }
}

fn make_uid_value(uid: &str) -> (r: Json)
    ensures
        r@ == uid_value(uid@),
{
    let chars = to_chars(uid);
    match parse_i64(chars.as_slice()) {
        Some(n) => Json::Int(n),
        None => Json::Str(copy_text(uid)),
    }
}

/// The uid of a user of the configuration: its JSON text, without the quotes around it.
pub open spec fn bare_uid(user: JsonView) -> Seq<char> {
    match field(user, "uid"@) {
        Some(uid) => trim_end_char(trim_start_char(json_text(uid), '"'), '"'),
        None => Seq::empty(),
    }
}

fn make_bare_uid(user: &Json) -> (r: Vec<char>)
    ensures
        r@ == bare_uid(user@),
{
    match user.get("uid") {
        Some(uid) => {
            let text = write_json(uid);
            let chars = to_chars(text.as_str());
            let a = trimmed_start_char(chars.as_slice(), '"');
            trimmed_end_char(a.as_slice(), '"')
        },
        None => {
            let none: Vec<char> = Vec::new();
            assert(none@ =~= Seq::<char>::empty());
            none
        },
    }
}

/// Tells whether a user stays in the configuration: one without a uid does not, nor one that
/// has the token of the account under another uid.
pub open spec fn user_stays(user: JsonView, uid: Seq<char>, bduss: Seq<char>) -> bool {
    let id = trim(bare_uid(user));
    let token = trim(text_or_empty(user, "bduss"@));
    id.len() > 0 && !(token.len() > 0 && token == bduss && id != uid)
}

/// The users that stay, each with its uid.
pub open spec fn staying(users: Seq<JsonView>, uid: Seq<char>, bduss: Seq<char>) -> Seq<
    (JsonView, Seq<char>),
>
    decreases users.len(),
{
    if users.len() == 0 {
        Seq::empty()
    } else {
        let rest = staying(users.drop_last(), uid, bduss);
        if user_stays(users.last(), uid, bduss) {
            rest.push((users.last(), bare_uid(users.last())))
        } else {
            rest
        }
    }
}

/// The position of the first user with a uid.
pub open spec fn user_index(users: Seq<(JsonView, Seq<char>)>, uid: Seq<char>) -> int
    decreases users.len(),
{
    if users.len() == 0 || users[0].1 == uid {
        0
    } else {
        1 + user_index(users.drop_first(), uid)
    }
}

/// The uids of some users.
spec fn user_uids(users: Seq<(JsonView, Seq<char>)>) -> Seq<Seq<char>> {
    Seq::new(users.len(), |i: int| users[i].1)
}

/// The position of the first of some uids that is a given one.
spec fn uid_index(ids: Seq<Seq<char>>, uid: Seq<char>) -> int
    decreases ids.len(),
{
    if ids.len() == 0 || ids[0] == uid {
        0
    } else {
        1 + uid_index(ids.drop_first(), uid)
    }
}

proof fn lemma_user_index(users: Seq<(JsonView, Seq<char>)>, uid: Seq<char>)
    ensures
        user_index(users, uid) == uid_index(user_uids(users), uid),
    decreases users.len(),
{
    if users.len() > 0 {
        lemma_user_index(users.drop_first(), uid);
        assert(user_uids(users).drop_first() =~= user_uids(users.drop_first()));
    }
}

fn find_user(ids: &Vec<Vec<char>>, uid: &[char]) -> (r: usize)
    ensures
        r == uid_index(views(ids@), uid@),
        r <= ids@.len(),
{
    let ghost all = views(ids@);
    let mut i: usize = 0;
    assert(all.skip(0) =~= all);
    while i < ids.len()
        invariant
            i <= ids@.len(),
            all == views(ids@),
            uid_index(all, uid@) == i + uid_index(all.skip(i as int), uid@),
        decreases ids.len() - i,
    {
        assert(all.skip(i as int)[0] == ids@[i as int]@);
        assert(all.skip(i as int).drop_first() =~= all.skip(i + 1));
        if same(ids[i].as_slice(), uid) {
            return i;
        }
        i += 1;
    }
    assert(all.skip(i as int).len() == 0);
    i
}

/// What a user of the configuration holds where nothing else is set.
pub open spec fn user_defaults(uid: Seq<char>) -> Seq<(Seq<char>, JsonView)> {
    seq![
        ("uid"@, uid_value(uid)),
        ("name"@, str_value(""@)),
        ("sex"@, str_value(""@)),
        ("age"@, JsonView::Real("0.0"@)),
        ("ptoken"@, str_value(""@)),
        ("baiduid"@, str_value(""@)),
        ("sboxtkn"@, str_value(""@)),
        ("accesstoken"@, str_value(""@)),
    ]
}

/// A user of the configuration with the login data of an account.
pub open spec fn logged_in_user(
    user: JsonView,
    uid: Seq<char>,
    cookies: Seq<char>,
    bduss: Seq<char>,
    stoken: Seq<char>,
) -> JsonView {
    let base = or_fields(user, user_defaults(uid));
    with_field(
        with_field(
            with_field(
                with_field(base, "cookies"@, str_value(cookies)),
                "bduss"@,
                str_value(bduss),
            ),
            "stoken"@,
            str_value(stoken),
        ),
        "workdir"@,
        str_value("/"@),
    )
}

fn log_in_user(user: &mut Json, login: &CliLogin, cookies: &str)
    ensures
        final(user)@ == logged_in_user(
            old(user)@,
            login.uid@,
            cookies@,
            login.bduss@,
            login.stoken@,
        ),
{
    let mut d: Vec<(String, Json)> = Vec::new();
    d.push((copy_text("uid"), make_uid_value(login.uid.as_str())));
    d.push(str_field("name", ""));
    d.push(str_field("sex", ""));
    d.push((copy_text("age"), Json::Real(copy_text("0.0"))));
    d.push(str_field("ptoken", ""));
    d.push(str_field("baiduid", ""));
    d.push(str_field("sboxtkn", ""));
    d.push(str_field("accesstoken", ""));
    assert(fields_view(d@) =~= user_defaults(login.uid@));
    set_missing(user, d);
    user.set("cookies", Json::Str(copy_text(cookies)));
    user.set("bduss", Json::Str(copy_text(login.bduss.as_str())));
    user.set("stoken", Json::Str(copy_text(login.stoken.as_str())));
    user.set("workdir", Json::Str(copy_text("/")));
}

/// The users of a configuration.
pub open spec fn users_of(root: JsonView) -> Seq<JsonView> {
    match items_at(root, "baidu_user_list"@) {
        Some(users) => users,
        None => Seq::empty(),
    }
}

/// The users of the configuration once an account is logged in.
pub open spec fn users_with_login(
    stay: Seq<(JsonView, Seq<char>)>,
    uid: Seq<char>,
    cookies: Seq<char>,
    bduss: Seq<char>,
    stoken: Seq<char>,
) -> Seq<JsonView> {
    let at = user_index(stay, uid);
    let users = Seq::new(stay.len(), |i: int| stay[i].0);
    if at < stay.len() {
        users.update(at, logged_in_user(users[at], uid, cookies, bduss, stoken))
    } else {
        users.push(
            logged_in_user(JsonView::Object(Seq::empty()), uid, cookies, bduss, stoken),
        )
    }
}

/// The configuration once an account is logged in: the account is the active one, its user has
/// its login data, and what is not set gets its default.
pub open spec fn config_with_login(
    root: JsonView,
    uid: Seq<char>,
    cookies: Seq<char>,
    bduss: Seq<char>,
    stoken: Seq<char>,
    savedir: Seq<char>,
) -> JsonView {
    let base = if root is Object {
        root
    } else {
        JsonView::Object(Seq::empty())
    };
    let users = users_with_login(
        staying(users_of(root), uid, bduss),
        uid,
        cookies,
        bduss,
        stoken,
    );
    or_fields(
        with_field(
            with_field(base, "baidu_active_uid"@, uid_value(uid)),
            "baidu_user_list"@,
            JsonView::Array(users),
        ),
        config_defaults(savedir),
    )
}

/// The cookies that an account's user gets.
pub open spec fn user_cookies(cookie: Option<Seq<char>>) -> Result<Seq<char>, Seq<char>> {
    match cookie {
        Some(text) => match read_cookie(text) {
            Ok(c) => Ok(join(c.items, "; "@)),
            Err(m) => Err(m),
        },
        None => Ok(Seq::empty()),
    }
}

/// Logs an account in to the client: changes its configuration.
pub fn cli_config(
    root: Json,
    login: &CliLogin,
    cookie: &Option<String>,
    savedir: &str,
) -> (r: Result<Json, String>)
    requires
        root@ is Object || root@ is Null,
    ensures
        match r {
            Ok(config) => user_cookies(opt_text(*cookie)) matches Ok(cookies) && config@
                == config_with_login(
                root@,
                login.uid@,
                cookies,
                login.bduss@,
                login.stoken@,
                savedir@,
            ),
            Err(message) => user_cookies(opt_text(*cookie)) matches Err(m) && message@ == m,
        },
{
    let cookies: String = match cookie {
        Some(text) => match parse_baidu_cookie(text.as_str()) {
            Ok(parsed) => parsed.header,
            Err(message) => {
                return Err(message);
            },
        },
        None => {
            let none = String::new();
            assert(none@ =~= Seq::<char>::empty());
            none
        },
    };
    let mut users: Vec<Json> = Vec::new();
    let mut ids: Vec<Vec<char>> = Vec::new();
    let ghost all = users_of(root@);
    let ghost stay = staying(all, login.uid@, login.bduss@);
    match root.get_array("baidu_user_list") {
        Some(list) => {
            let mut i: usize = 0;
            assert(all.take(0) =~= Seq::<JsonView>::empty());
            while i < list.len()
                invariant
                    i <= list@.len(),
                    all == list_view(list@),
                    users@.len() == ids@.len(),
                    users_match(
                        users@,
                        ids@,
                        staying(all.take(i as int), login.uid@, login.bduss@),
                    ),
                decreases list.len() - i,
            {
                assert(all.take(i + 1).drop_last() =~= all.take(i as int));
                assert(all.take(i + 1).last() == list@[i as int]@);
                let ghost before = staying(all.take(i as int), login.uid@, login.bduss@);
                let id = make_bare_uid(&list[i]);
                let bare = trimmed(id.as_slice());
                let token_text = list[i].get_text_or_empty("bduss");
                let token = trim_text(token_text.as_str());
                let uid_chars = to_chars(login.uid.as_str());
                if bare.len() > 0 && !(!token.as_str().is_empty() && text_eq(
                    token.as_str(),
                    login.bduss.as_str(),
                ) && !same(bare.as_slice(), uid_chars.as_slice())) {
                    let copy = list[i].copy();
                    users.push(copy);
                    ids.push(id);
                }
                i += 1;
            }
            assert(all.take(i as int) =~= all);
        },
        None => {
            assert(all =~= Seq::<JsonView>::empty());
        },
    }
    assert(users_match(users@, ids@, stay));
    let uid_chars = to_chars(login.uid.as_str());
    let at: usize = find_user(&ids, uid_chars.as_slice());
    assert(user_uids(stay) =~= views(ids@));
    proof {
        lemma_user_index(stay, login.uid@);
    }
    let ghost plain_users = Seq::new(stay.len(), |i: int| stay[i].0);
    assert(list_view(users@) =~= plain_users);
    if at < users.len() {
        let mut user = users[at].copy();
        log_in_user(&mut user, login, cookies.as_str());
        users.set(at, user);
    } else {
        let none: Vec<(String, Json)> = Vec::new();
        let mut user = Json::Object(none);
        assert(user@ == JsonView::Object(Seq::empty())) by {
            lemma_object_view(none);
            assert(fields_view(none@) =~= Seq::<(Seq<char>, JsonView)>::empty());
        }
        log_in_user(&mut user, login, cookies.as_str());
        users.push(user);
    }
    assert(list_view(users@) =~= users_with_login(
        stay,
        login.uid@,
        cookies@,
        login.bduss@,
        login.stoken@,
    ));
    proof {
        lemma_array_view(users);
    }
    let mut config = match root {
        Json::Object(fields) => Json::Object(fields),
        _ => {
            let none: Vec<(String, Json)> = Vec::new();
            proof {
                lemma_object_view(none);
                assert(fields_view(none@) =~= Seq::<(Seq<char>, JsonView)>::empty());
            }
            Json::Object(none)
        },
    };
    config.set("baidu_active_uid", make_uid_value(login.uid.as_str()));
    config.set("baidu_user_list", Json::Array(users));
    let defaults = make_config_defaults(savedir);
    set_missing(&mut config, defaults);
    Ok(config)
}

/// Users and uids that are those of a list.
spec fn users_match(
    users: Seq<Json>,
    ids: Seq<Vec<char>>,
    stay: Seq<(JsonView, Seq<char>)>,
) -> bool {
    users.len() == stay.len() && ids.len() == stay.len() && forall|i: int|
        0 <= i < stay.len() ==> #[trigger] stay[i] == (users[i]@, ids[i]@)
}

/// Logging an account in makes it the active one, and leaves every other setting that was there
/// as it was.
pub proof fn law_login_keeps_settings(
    root: JsonView,
    uid: Seq<char>,
    cookies: Seq<char>,
    bduss: Seq<char>,
    stoken: Seq<char>,
    savedir: Seq<char>,
    key: Seq<char>,
)
    requires
        root is Object,
    ensures
        ({
            let config = config_with_login(root, uid, cookies, bduss, stoken, savedir);
            &&& field(config, "baidu_active_uid"@) == Some(uid_value(uid))
            &&& field(root, key) is Some && key != "baidu_active_uid"@ && key
                != "baidu_user_list"@ ==> field(config, key) == field(root, key)
        }),
{
    reveal_strlit("baidu_active_uid");
    reveal_strlit("baidu_user_list");
    assert("baidu_active_uid"@.len() != "baidu_user_list"@.len());
    let users = users_with_login(
        staying(users_of(root), uid, bduss),
        uid,
        cookies,
        bduss,
        stoken,
    );
    let list = JsonView::Array(users);
    let active = with_field(root, "baidu_active_uid"@, uid_value(uid));
    let both = with_field(active, "baidu_user_list"@, list);
    law_field_update(root, "baidu_active_uid"@, uid_value(uid), "baidu_user_list"@);
    law_field_update(active, "baidu_user_list"@, list, "baidu_active_uid"@);
    lemma_or_fields(both, config_defaults(savedir), "baidu_active_uid"@);
    if key != "baidu_active_uid"@ && key != "baidu_user_list"@ {
        law_field_update(root, "baidu_active_uid"@, uid_value(uid), key);
        law_field_update(active, "baidu_user_list"@, list, key);
        lemma_or_fields(both, config_defaults(savedir), key);
    }
}

/// The account that is logged in holds the login under its keys, and keeps what else it held.
pub proof fn law_login_written(
    user: JsonView,
    uid: Seq<char>,
    cookies: Seq<char>,
    bduss: Seq<char>,
    stoken: Seq<char>,
    key: Seq<char>,
)
    requires
        user is Object,
    ensures
        ({
            let u = logged_in_user(user, uid, cookies, bduss, stoken);
            &&& field(u, "cookies"@) == Some(JsonView::Str(cookies))
            &&& field(u, "bduss"@) == Some(JsonView::Str(bduss))
            &&& field(u, "stoken"@) == Some(JsonView::Str(stoken))
            &&& field(u, "workdir"@) == Some(JsonView::Str("/"@))
            &&& field(user, key) is Some && key != "cookies"@ && key != "bduss"@ && key
                != "stoken"@ && key != "workdir"@ ==> field(u, key) == field(user, key)
        }),
{
    reveal_strlit("cookies");
    reveal_strlit("bduss");
    reveal_strlit("stoken");
    reveal_strlit("workdir");
    let k1 = "cookies"@;
    let k2 = "bduss"@;
    let k3 = "stoken"@;
    let k4 = "workdir"@;
    assert(k1.len() == 7 && k2.len() == 5 && k3.len() == 6 && k4.len() == 7);
    assert(k1[0] == 'c' && k4[0] == 'w');
    let base = or_fields(user, user_defaults(uid));
    lemma_defaults_kept(user, user_defaults(uid), key);
    let v1 = with_field(base, k1, str_value(cookies));
    let v2 = with_field(v1, k2, str_value(bduss));
    let v3 = with_field(v2, k3, str_value(stoken));
    law_field_update(base, k1, str_value(cookies), k2);
    law_field_update(v1, k2, str_value(bduss), k1);
    law_field_update(v2, k3, str_value(stoken), k1);
    law_field_update(v2, k3, str_value(stoken), k2);
    law_field_update(v3, k4, str_value("/"@), k1);
    law_field_update(v3, k4, str_value("/"@), k2);
    law_field_update(v3, k4, str_value("/"@), k3);
    if key != k1 && key != k2 && key != k3 && key != k4 {
        law_field_update(base, k1, str_value(cookies), key);
        law_field_update(v1, k2, str_value(bduss), key);
        law_field_update(v2, k3, str_value(stoken), key);
        law_field_update(v3, k4, str_value("/"@), key);
    }
}

proof fn lemma_defaults_kept(v: JsonView, defaults: Seq<(Seq<char>, JsonView)>, key: Seq<char>)
    requires
        v is Object,
    ensures
        or_fields(v, defaults) is Object,
        field(v, key) is Some ==> field(or_fields(v, defaults), key) == field(v, key),
    decreases defaults.len(),
{
    if defaults.len() > 0 {
        let rest = defaults.drop_last();
        lemma_defaults_kept(v, rest, key);
        lemma_defaults_kept(v, rest, defaults.last().0);
        let base = or_fields(v, rest);
        if key != defaults.last().0 {
            law_field_update(base, defaults.last().0, defaults.last().1, key);
        }
    }
}

/// A user stays listed unless it has no uid, or has the token of the one that logs in under another
/// uid.
pub proof fn law_users_that_stay(users: Seq<JsonView>, uid: Seq<char>, bduss: Seq<char>, i: int)
    requires
        0 <= i < users.len(),
    ensures
        trim(bare_uid(users[i])).len() > 0 && (trim(text_or_empty(users[i], "bduss"@)) != bduss
            || trim(bare_uid(users[i])) == uid) ==> staying(users, uid, bduss).contains(
            (users[i], bare_uid(users[i])),
        ),
        staying(users, uid, bduss).len() <= users.len(),
    decreases users.len(),
{
    let rest = users.drop_last();
    let n = users.len() - 1;
    let before = staying(rest, uid, bduss);
    let after = staying(users, uid, bduss);
    lemma_staying_len(rest, uid, bduss);
    if i < n {
        assert(rest[i] == users[i]);
        law_users_that_stay(rest, uid, bduss, i);
        if before.contains((users[i], bare_uid(users[i]))) {
            let k = choose|k: int|
                0 <= k < before.len() && before[k] == (users[i], bare_uid(users[i]));
            assert(after[k] == before[k]);
        }
    } else if user_stays(users[n], uid, bduss) {
        assert(after[before.len() as int] == (users[n], bare_uid(users[n])));
    }
}

proof fn lemma_staying_len(users: Seq<JsonView>, uid: Seq<char>, bduss: Seq<char>)
    ensures
        staying(users, uid, bduss).len() <= users.len(),
    decreases users.len(),
{
    if users.len() > 0 {
        lemma_staying_len(users.drop_last(), uid, bduss);
    }
}

/// The login goes to the first user of its uid; where there is none, a user is added behind the
/// others. No other user changes.
pub proof fn law_login_goes_to_its_user(
    stay: Seq<(JsonView, Seq<char>)>,
    uid: Seq<char>,
    cookies: Seq<char>,
    bduss: Seq<char>,
    stoken: Seq<char>,
    i: int,
    j: int,
)
    requires
        0 <= i <= stay.len(),
        forall|k: int| 0 <= k < i ==> (#[trigger] stay[k]).1 != uid,
        i < stay.len() ==> stay[i].1 == uid,
        0 <= j < stay.len(),
    ensures
        ({
            let users = users_with_login(stay, uid, cookies, bduss, stoken);
            &&& i < stay.len() ==> users.len() == stay.len() && users[i] == logged_in_user(
                stay[i].0,
                uid,
                cookies,
                bduss,
                stoken,
            )
            &&& i == stay.len() ==> users.len() == stay.len() + 1 && users[i] == logged_in_user(
                JsonView::Object(Seq::empty()),
                uid,
                cookies,
                bduss,
                stoken,
            )
            &&& j != i ==> users[j] == stay[j].0
        }),
{
    lemma_user_found(stay, uid, i);
}

proof fn lemma_user_found(stay: Seq<(JsonView, Seq<char>)>, uid: Seq<char>, i: int)
    requires
        0 <= i <= stay.len(),
        forall|k: int| 0 <= k < i ==> (#[trigger] stay[k]).1 != uid,
        i < stay.len() ==> stay[i].1 == uid,
    ensures
        user_index(stay, uid) == i,
    decreases stay.len(),
{
    if i > 0 {
        assert(stay[0].1 != uid);
        let rest = stay.drop_first();
        assert forall|k: int| 0 <= k < i - 1 implies (#[trigger] rest[k]).1 != uid by {
            assert(rest[k] == stay[k + 1]);
        }
        if i < stay.len() {
            assert(rest[i - 1] == stay[i]);
        }
        lemma_user_found(rest, uid, i - 1);
    }
}

/// The cookie is written as it is read, and one that cannot be read is told; without a cookie
/// nothing is written.
pub proof fn law_cookies_written(text: Seq<char>)
    ensures
        read_cookie(text) is Ok ==> user_cookies(Some(text)) == Ok::<Seq<char>, Seq<char>>(
            join(read_cookie(text)->Ok_0.items, "; "@),
        ),
        read_cookie(text) is Err ==> user_cookies(Some(text)) == Err::<Seq<char>, Seq<char>>(
            read_cookie(text)->Err_0,
        ),
        user_cookies(None) == Ok::<Seq<char>, Seq<char>>(Seq::empty()),
{
}

proof fn lemma_default_set(v: JsonView, defaults: Seq<(Seq<char>, JsonView)>, i: int)
    requires
        v is Object,
        0 <= i < defaults.len(),
        field(v, defaults[i].0) is None,
        forall|a: int, b: int|
            0 <= a < b < defaults.len() ==> (#[trigger] defaults[a]).0 != (#[trigger] defaults[b]).0,
    ensures
        field(or_fields(v, defaults), defaults[i].0) == Some(defaults[i].1),
    decreases defaults.len(),
{
    let rest = defaults.drop_last();
    let n = defaults.len() - 1;
    let base = or_fields(v, rest);
    lemma_defaults_kept(v, rest, defaults[i].0);
    assert(defaults[n] == defaults.last());
    let other = defaults[n].0.push('a');
    assert(other.len() != defaults[n].0.len());
    if i < n {
        assert(rest[i] == defaults[i]);
        assert forall|a: int, b: int| 0 <= a < b < rest.len() implies (#[trigger] rest[a]).0
            != (#[trigger] rest[b]).0 by {
            assert(rest[a] == defaults[a] && rest[b] == defaults[b]);
        }
        lemma_default_set(v, rest, i);
        assert(defaults[i].0 != defaults[n].0);
        law_field_update(base, defaults[n].0, defaults[n].1, defaults[i].0);
    } else {
        lemma_other_defaults(v, rest, defaults[n].0);
        law_field_update(base, defaults[n].0, defaults[n].1, other);
    }
}

proof fn lemma_other_defaults(v: JsonView, defaults: Seq<(Seq<char>, JsonView)>, key: Seq<char>)
    requires
        v is Object,
        field(v, key) is None,
        forall|a: int| 0 <= a < defaults.len() ==> (#[trigger] defaults[a]).0 != key,
    ensures
        field(or_fields(v, defaults), key) is None,
    decreases defaults.len(),
{
    if defaults.len() > 0 {
        let rest = defaults.drop_last();
        let n = defaults.len() - 1;
        assert(defaults[n].0 != key);
        assert forall|a: int| 0 <= a < rest.len() implies (#[trigger] rest[a]).0 != key by {
            assert(rest[a] == defaults[a]);
        }
        lemma_other_defaults(v, rest, key);
        lemma_defaults_kept(v, rest, key);
        law_field_update(or_fields(v, rest), defaults[n].0, defaults[n].1, key);
    }
}

/// Every setting that a configuration lacks gets its default.
pub proof fn law_defaults_fill_gaps(v: JsonView, defaults: Seq<(Seq<char>, JsonView)>, i: int)
    requires
        v is Object,
        0 <= i < defaults.len(),
        forall|a: int, b: int|
            0 <= a < b < defaults.len() ==> (#[trigger] defaults[a]).0 != (#[trigger] defaults[b]).0,
    ensures
        field(v, defaults[i].0) is None ==> field(or_fields(v, defaults), defaults[i].0) == Some(
            defaults[i].1,
        ),
        field(v, defaults[i].0) is Some ==> field(or_fields(v, defaults), defaults[i].0) == field(
            v,
            defaults[i].0,
        ),
{
    lemma_defaults_kept(v, defaults, defaults[i].0);
    if field(v, defaults[i].0) is None {
        lemma_default_set(v, defaults, i);
    }
}

/// The defaults of a user, and those of the client that bear on what it does.
pub proof fn law_defaults_named(uid: Seq<char>, savedir: Seq<char>)
    ensures
        user_defaults(uid).contains(("uid"@, uid_value(uid))),
        user_defaults(uid).contains(("name"@, JsonView::Str(""@))),
        user_defaults(uid).contains(("ptoken"@, JsonView::Str(""@))),
        user_defaults(uid).contains(("baiduid"@, JsonView::Str(""@))),
        user_defaults(uid).len() == 8,
        config_defaults(savedir).contains(("appid"@, JsonView::Number(266719))),
        config_defaults(savedir).contains(("max_parallel"@, JsonView::Number(3))),
        config_defaults(savedir).contains(("max_upload_parallel"@, JsonView::Number(4))),
        config_defaults(savedir).contains(("savedir"@, JsonView::Str(savedir))),
        config_defaults(savedir).contains(("pcs_addr"@, JsonView::Str("pcs.baidu.com"@))),
        config_defaults(savedir).contains(("enable_https"@, JsonView::Bool(true))),
        config_defaults(savedir).contains(("u_policy"@, JsonView::Str("skip"@))),
        config_defaults(savedir).len() == 21,
{
    let u = user_defaults(uid);
    assert(u[0] == ("uid"@, uid_value(uid)));
    assert(u[1] == ("name"@, JsonView::Str(""@)));
    assert(u[4] == ("ptoken"@, JsonView::Str(""@)));
    assert(u[5] == ("baiduid"@, JsonView::Str(""@)));
    let c = config_defaults(savedir);
    assert(c[0] == ("appid"@, JsonView::Number(266719)));
    assert(c[2] == ("max_parallel"@, JsonView::Number(3)));
    assert(c[3] == ("max_upload_parallel"@, JsonView::Number(4)));
    assert(c[11] == ("savedir"@, JsonView::Str(savedir)));
    assert(c[9] == ("pcs_addr"@, JsonView::Str("pcs.baidu.com"@)));
    assert(c[12] == ("enable_https"@, JsonView::Bool(true)));
    assert(c[20] == ("u_policy"@, JsonView::Str("skip"@)));
}

/// The users of a configuration are those of its list.
pub proof fn law_users_listed(root: JsonView, users: Seq<JsonView>)
    ensures
        items_at(root, "baidu_user_list"@) == Some(users) ==> users_of(root) == users,
        items_at(root, "baidu_user_list"@) is None ==> users_of(root).len() == 0,
{
}

/// A user is known by its uid, with or without quotation marks around it.
pub proof fn law_user_known_by_uid(user: JsonView, uid: JsonView)
    ensures
        field(user, "uid"@) == Some(uid) ==> bare_uid(user) == trim_end_char(
            trim_start_char(json_text(uid), '"'),
            '"',
        ),
        field(user, "uid"@) is None ==> bare_uid(user).len() == 0,
{
}

/// A uid of digits is written as a number, and any other as a text.
pub proof fn law_uid_written(n: i64, uid: Seq<char>)
    ensures
        i64_value(uid) == Some(n) ==> uid_value(uid) == JsonView::Number(n as int),
        i64_value(uid) is None ==> uid_value(uid) == JsonView::Str(uid),
{
}

} // verus!
