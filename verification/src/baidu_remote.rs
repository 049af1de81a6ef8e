//! Entries of the cloud storage: replies of its interface, and finding what was uploaded.

use crate::baidu_output::{entry_views, BaiduRemoteEntry, RemoteEntryView};
use crate::baidu_path::{
    join_baidu_path, joined_path, normal_path, normalize_baidu_path, parent_and_name,
    split_baidu_parent_and_name,
};
use crate::json::{
    field, fields_view, integer_at, items_at, lemma_array_view, lemma_object_view, list_view,
    natural, or_number, text, text_at, text_or_empty, Json, JsonView,
};
use crate::outside::{json_text, write_json};
use crate::session::opt_text;
use crate::text::{
    copy_text, decimal, digits_of, extend, extend_text, i64_digits, i64_text, text_eq, to_chars,
    to_text, trim, trim_text, u64_digits,
};
use vstd::prelude::*;

verus! {

// ---------------------------------------------------------------------------
// Replies

/// A call of the cloud storage's interface.
pub enum BaiduApi {
    List,
    Create,
    Rename,
    UserInfo,
}

impl BaiduApi {
    /// What a failed request of the call is reported as.
    pub open spec fn request_label(&self) -> Seq<char> {
        match self {
            BaiduApi::List => "请求百度网盘目录失败"@,
            BaiduApi::Create => "请求百度网盘创建目录失败"@,
            BaiduApi::Rename => "请求百度网盘重命名目录失败"@,
            BaiduApi::UserInfo => "请求百度网盘用户信息失败"@,
        }
    }

    /// What a refusal of the call is reported as.
    pub open spec fn refusal_label(&self) -> Seq<char> {
        match self {
            BaiduApi::List => "百度网盘目录读取失败"@,
            BaiduApi::Create => "百度网盘创建目录失败"@,
            BaiduApi::Rename => "百度网盘重命名目录失败"@,
            BaiduApi::UserInfo => "百度网盘用户信息读取失败"@,
        }
    }
}

/// The error of a call that got a status other than success.
pub fn api_status_error(api: &BaiduApi, status: u16, body: &str) -> (r: String)
    ensures
        r@ == api.request_label() + ": HTTP "@ + digits_of(status as nat) + " "@ + body@,
{
    let mut out = match api {
        BaiduApi::List => to_chars("请求百度网盘目录失败"),
        BaiduApi::Create => to_chars("请求百度网盘创建目录失败"),
        BaiduApi::Rename => to_chars("请求百度网盘重命名目录失败"),
        BaiduApi::UserInfo => to_chars("请求百度网盘用户信息失败"),
    };
    let number = u64_digits(status as u64);
    extend_text(&mut out, ": HTTP ");
    extend(&mut out, number.as_slice());
    extend_text(&mut out, " ");
    extend_text(&mut out, body);
    to_text(out.as_slice())
}

/// The error number of a reply; a reply without one is refused too.
pub open spec fn errno(payload: JsonView) -> i64 {
    or_number(integer_at(payload, "errno"@), -1i64)
}

/// Tells whether a reply grants a call, and else the error.
pub fn check_reply(api: &BaiduApi, payload: &Json, body: &str) -> (r: Result<(), String>)
    ensures
        match r {
            Ok(()) => errno(payload@) == 0,
            Err(message) => errno(payload@) != 0 && message@ == api.refusal_label() + ": errno="@
                + decimal(errno(payload@) as int) + " "@ + body@,
        },
{
    let code: i64 = payload.get_i64_or("errno", -1);
    if code == 0 {
        return Ok(());
    }
    let mut out = match api {
        BaiduApi::List => to_chars("百度网盘目录读取失败"),
        BaiduApi::Create => to_chars("百度网盘创建目录失败"),
        BaiduApi::Rename => to_chars("百度网盘重命名目录失败"),
        BaiduApi::UserInfo => to_chars("百度网盘用户信息读取失败"),
    };
    let number = i64_digits(code);
    extend_text(&mut out, ": errno=");
    extend(&mut out, number.as_slice());
    extend_text(&mut out, " ");
    extend_text(&mut out, body);
    Err(to_text(out.as_slice()))
}

/// The entry that an item of a listing tells of, in a directory.
pub open spec fn item_entry(item: JsonView, dir: Seq<char>) -> Option<RemoteEntryView> {
    let name = trim(text_or_empty(item, "server_filename"@));
    if name.len() == 0 {
        None
    } else {
        Some(
            RemoteEntryView {
                name,
                path: match text_at(item, "path"@) {
                    Some(path) => path,
                    None => joined_path(dir, name),
                },
                is_dir: or_number(integer_at(item, "isdir"@), 0) != 0,
                size: match field(item, "size"@) {
                    Some(v) => match natural(v) {
                        Some(n) => n,
                        None => 0,
                    },
                    None => 0,
                },
            },
        )
    }
}

/// The entries that the items of a listing tell of.
pub open spec fn item_entries(list: Seq<JsonView>, dir: Seq<char>) -> Seq<RemoteEntryView>
    decreases list.len(),
{
    if list.len() == 0 {
        Seq::empty()
    } else {
        match item_entry(list.last(), dir) {
            Some(entry) => item_entries(list.drop_last(), dir).push(entry),
            None => item_entries(list.drop_last(), dir),
        }
    }
}

/// The entries that a reply lists.
pub open spec fn reply_entries(payload: JsonView, dir: Seq<char>) -> Seq<RemoteEntryView> {
    match items_at(payload, "list"@) {
        Some(list) => item_entries(list, dir),
        None => Seq::empty(),
    }
}

/// The entries of a directory, from the reply that lists them.
pub fn parse_remote_entries(payload: &Json, body: &str, dir: &str) -> (r: Result<
    Vec<BaiduRemoteEntry>,
    String,
>)
    ensures
        match r {
            Ok(entries) => errno(payload@) == 0 && entry_views(entries@) == reply_entries(
                payload@,
                dir@,
            ),
            Err(message) => errno(payload@) != 0 && message@ == "百度网盘目录读取失败"@
                + ": errno="@ + decimal(errno(payload@) as int) + " "@ + body@,
        },
{
    if let Err(message) = check_reply(&BaiduApi::List, payload, body) {
        return Err(message);
    }
    let mut out: Vec<BaiduRemoteEntry> = Vec::new();
    assert(entry_views(out@) =~= Seq::<RemoteEntryView>::empty());
    if let Some(list) = payload.get_array("list") {
        let ghost all = list_view(list@);
        let mut i: usize = 0;
        assert(all.take(0) =~= Seq::<JsonView>::empty());
        while i < list.len()
            invariant
                i <= list@.len(),
                all == list_view(list@),
                entry_views(out@) == item_entries(all.take(i as int), dir@),
            decreases list.len() - i,
        {
            assert(all.take(i + 1).drop_last() =~= all.take(i as int));
            assert(all.take(i + 1).last() == list@[i as int]@);
            let item = &list[i];
            let raw = item.get_text_or_empty("server_filename");
            let name = trim_text(raw.as_str());
            if !name.as_str().is_empty() {
                let path = match item.get_text("path") {
                    Some(path) => path,
                    None => join_baidu_path(dir, name.as_str()),
                };
                let is_dir = item.get_i64_or("isdir", 0) != 0;
                let size: u64 = match item.get("size") {
                    Some(v) => match v.as_u64() {
                        Some(n) => n,
                        None => 0,
                    },
                    None => 0,
                };
                let ghost before = entry_views(out@);
                let entry = BaiduRemoteEntry { name, path, is_dir, size };
                let ghost added = entry@;
                out.push(entry);
                assert(entry_views(out@) =~= before.push(added));
            }
            i += 1;
        }
        assert(all.take(i as int) =~= all);
    }
    Ok(out)
}

/// An account as the interface tells of it.
pub struct BaiduHttpUserInfo {
    pub uid: String,
    pub username: Option<String>,
}

/// A text that is there and is not blank, white space aside.
pub open spec fn filled(v: Option<Seq<char>>) -> Option<Seq<char>> {
    match v {
        Some(s) => if trim(s).len() > 0 {
            Some(trim(s))
        } else {
            None
        },
        None => None,
    }
}

/// A text that is there and is not blank, white space aside.
pub fn filled_text(v: &Option<String>) -> (r: Option<String>)
    ensures
        opt_text(r) == filled(opt_text(*v)),
{
    match v {
        Some(s) => {
            let t = trim_text(s.as_str());
            if t.as_str().is_empty() {
                None
            } else {
                Some(t)
            }
        },
        None => None,
    }
}

/// The uid in a reply: a number, or a text.
pub open spec fn reply_uid(payload: JsonView) -> Option<Seq<char>> {
    match integer_at(payload, "uk"@) {
        Some(n) => Some(decimal(n as int)),
        None => filled(text_at(payload, "uk"@)),
    }
}

/// The account that a reply tells of.
pub fn parse_user_info(payload: &Json, body: &str) -> (r: Result<BaiduHttpUserInfo, String>)
    ensures
        match r {
            Ok(info) => errno(payload@) == 0 && reply_uid(payload@) == Some(info.uid@) && opt_text(
                info.username,
            ) == filled(text_at(payload@, "baidu_name"@)),
            Err(message) => if errno(payload@) != 0 {
                message@ == "百度网盘用户信息读取失败"@ + ": errno="@ + decimal(
                    errno(payload@) as int,
                ) + " "@ + body@
            } else {
                reply_uid(payload@) is None && message@ == "百度网盘用户信息缺少 uk: "@ + body@
            },
        },
{
    if let Err(message) = check_reply(&BaiduApi::UserInfo, payload, body) {
        return Err(message);
    }
    let uid: Option<String> = match payload.get_i64("uk") {
        Some(n) => Some(i64_text(n)),
        None => {
            let found = payload.get_text("uk");
            filled_text(&found)
        },
    };
    let name = payload.get_text("baidu_name");
    match uid {
        Some(uid) => Ok(BaiduHttpUserInfo { uid, username: filled_text(&name) }),
        None => Err(crate::text::concat2("百度网盘用户信息缺少 uk: ", body)),
    }
}

// ---------------------------------------------------------------------------
// Finding entries

/// A directory of the cloud storage.
pub struct BaiduRemoteDir {
    pub name: String,
    pub path: String,
}

/// The views of a list of directories.
pub open spec fn dir_views(v: Seq<BaiduRemoteDir>) -> Seq<(Seq<char>, Seq<char>)> {
    Seq::new(v.len(), |i: int| (v[i].name@, v[i].path@))
}

/// The names and paths of the directories among some entries.
pub open spec fn dirs_of(entries: Seq<RemoteEntryView>) -> Seq<(Seq<char>, Seq<char>)>
    decreases entries.len(),
{
    if entries.len() == 0 {
        Seq::empty()
    } else if entries.last().is_dir {
        dirs_of(entries.drop_last()).push((entries.last().name, entries.last().path))
    } else {
        dirs_of(entries.drop_last())
    }
}

/// The directories among some entries.
pub fn remote_dirs(entries: &Vec<BaiduRemoteEntry>) -> (r: Vec<BaiduRemoteDir>)
    ensures
        dir_views(r@) == dirs_of(entry_views(entries@)),
{
    let ghost all = entry_views(entries@);
    let mut out: Vec<BaiduRemoteDir> = Vec::new();
    let mut i: usize = 0;
    assert(all.take(0) =~= Seq::<RemoteEntryView>::empty());
    assert(dir_views(out@) =~= Seq::<(Seq<char>, Seq<char>)>::empty());
    while i < entries.len()
        invariant
            i <= entries@.len(),
            all == entry_views(entries@),
            dir_views(out@) == dirs_of(all.take(i as int)),
        decreases entries.len() - i,
    {
        assert(all.take(i + 1).drop_last() =~= all.take(i as int));
        assert(all.take(i + 1).last() == entries@[i as int]@);
        if entries[i].is_dir {
            let ghost before = dir_views(out@);
            let dir = BaiduRemoteDir {
                name: copy_text(entries[i].name.as_str()),
                path: copy_text(entries[i].path.as_str()),
            };
            let ghost added = (dir.name@, dir.path@);
            out.push(dir);
            assert(dir_views(out@) =~= before.push(added));
        }
        i += 1;
    }
    assert(all.take(i as int) =~= all);
    out
}

/// Tells whether an entry is the one at a path.
pub open spec fn entry_is(entry: RemoteEntryView, target: Seq<char>) -> bool {
    normal_path(entry.path) == target || entry.name == parent_and_name(target).1
}

/// The position of the entry at a path among the entries of its directory: the first that has
/// the path or the name.
pub open spec fn entry_index(entries: Seq<RemoteEntryView>, target: Seq<char>) -> int
    decreases entries.len(),
{
    if entries.len() == 0 || entry_is(entries[0], target) {
        0
    } else {
        1 + entry_index(entries.drop_first(), target)
    }
}

/// Where the entry at a path is looked for.
pub enum EntryLookup {
    /// The path is the root, which is always there.
    Root,
    /// The path names nothing.
    Nothing,
    /// Among the entries of a directory.
    In(String),
}

/// Where the entry at a path is looked for.
pub fn entry_lookup(remote_path: &str) -> (r: EntryLookup)
    ensures
        match r {
            EntryLookup::Root => normal_path(remote_path@) == seq!['/'],
            EntryLookup::Nothing => normal_path(remote_path@) != seq!['/'] && parent_and_name(
                normal_path(remote_path@),
            ).1.len() == 0,
            EntryLookup::In(dir) => normal_path(remote_path@) != seq!['/'] && parent_and_name(
                normal_path(remote_path@),
            ).1.len() > 0 && dir@ == parent_and_name(normal_path(remote_path@)).0,
        },
{
    let target = normalize_baidu_path(remote_path);
    proof {
        reveal_strlit("/");
        assert("/"@ =~= seq!['/']);
    }
    if text_eq(target.as_str(), "/") {
        return EntryLookup::Root;
    }
    let (parent, name) = split_baidu_parent_and_name(target.as_str());
    if name.as_str().is_empty() {
        return EntryLookup::Nothing;
    }
    EntryLookup::In(parent)
}

/// The root directory as an entry.
pub fn root_entry() -> (r: BaiduRemoteEntry)
    ensures
        r@ == (RemoteEntryView { name: "/"@, path: "/"@, is_dir: true, size: 0 }),
{
    BaiduRemoteEntry { name: copy_text("/"), path: copy_text("/"), is_dir: true, size: 0 }
}

/// The position of the entry at a path among the entries of its directory.
pub fn find_baidu_remote_entry(entries: &Vec<BaiduRemoteEntry>, remote_path: &str) -> (r: Option<
    usize,
>)
    ensures
        match r {
            Some(i) => i < entries@.len() && i == entry_index(
                entry_views(entries@),
                normal_path(remote_path@),
            ),
            None => entry_index(entry_views(entries@), normal_path(remote_path@))
                == entries@.len(),
        },
{
    let target = normalize_baidu_path(remote_path);
    let (_, name) = split_baidu_parent_and_name(target.as_str());
    let ghost all = entry_views(entries@);
    let mut i: usize = 0;
    assert(all.skip(0) =~= all);
    while i < entries.len()
        invariant
            i <= entries@.len(),
            all == entry_views(entries@),
            target@ == normal_path(remote_path@),
            name@ == parent_and_name(target@).1,
            entry_index(all, target@) == i + entry_index(all.skip(i as int), target@),
        decreases entries.len() - i,
    {
        assert(all.skip(i as int)[0] == entries@[i as int]@);
        assert(all.skip(i as int).drop_first() =~= all.skip(i + 1));
        let path = normalize_baidu_path(entries[i].path.as_str());
        if text_eq(path.as_str(), target.as_str()) || text_eq(
            entries[i].name.as_str(),
            name.as_str(),
        ) {
            return Some(i);
        }
        i += 1;
    }
    assert(all.skip(i as int).len() == 0);
    None
}

/// Tells whether an entry can be an uploaded file: a file, of the size that was uploaded.
pub open spec fn can_be_upload(entry: RemoteEntryView, local_size: u64) -> bool {
    !entry.is_dir && (local_size > 0 ==> entry.size == local_size)
}

/// The position of the first entry that can be the upload and has a name.
pub open spec fn named_upload(
    entries: Seq<RemoteEntryView>,
    name: Seq<char>,
    local_size: u64,
) -> int
    decreases entries.len(),
{
    if entries.len() == 0 || (can_be_upload(entries[0], local_size) && entries[0].name == name) {
        0
    } else {
        1 + named_upload(entries.drop_first(), name, local_size)
    }
}

/// The position of the first entry that can be the upload.
pub open spec fn first_upload(entries: Seq<RemoteEntryView>, local_size: u64) -> int
    decreases entries.len(),
{
    if entries.len() == 0 || can_be_upload(entries[0], local_size) {
        0
    } else {
        1 + first_upload(entries.drop_first(), local_size)
    }
}

/// How many entries can be the upload.
pub open spec fn upload_count(entries: Seq<RemoteEntryView>, local_size: u64) -> int
    decreases entries.len(),
{
    if entries.len() == 0 {
        0
    } else {
        (if can_be_upload(entries[0], local_size) {
            1int
        } else {
            0
        }) + upload_count(entries.drop_first(), local_size)
    }
}

/// The position of an uploaded file among the entries of its directory: by the name that was
/// asked for, else by the name of the local file, else the only one that can be it.
pub open spec fn uploaded_index(
    entries: Seq<RemoteEntryView>,
    expected: Seq<char>,
    fallback: Seq<char>,
    local_size: u64,
) -> Option<int> {
    let n = entries.len();
    if named_upload(entries, expected, local_size) < n {
        Some(named_upload(entries, expected, local_size))
    } else if trim(fallback).len() > 0 && named_upload(entries, fallback, local_size) < n {
        Some(named_upload(entries, fallback, local_size))
    } else if upload_count(entries, local_size) == 1 {
        Some(first_upload(entries, local_size))
    } else {
        None
    }
}

fn find_named_upload(entries: &Vec<BaiduRemoteEntry>, name: &str, local_size: u64) -> (r: usize)
    ensures
        r == named_upload(entry_views(entries@), name@, local_size),
        r <= entries@.len(),
{
    let ghost all = entry_views(entries@);
    let mut i: usize = 0;
    assert(all.skip(0) =~= all);
    while i < entries.len()
        invariant
            i <= entries@.len(),
            all == entry_views(entries@),
            named_upload(all, name@, local_size) == i + named_upload(
                all.skip(i as int),
                name@,
                local_size,
            ),
        decreases entries.len() - i,
    {
        assert(all.skip(i as int)[0] == entries@[i as int]@);
        assert(all.skip(i as int).drop_first() =~= all.skip(i + 1));
        if !entries[i].is_dir && (local_size == 0 || entries[i].size == local_size) && text_eq(
            entries[i].name.as_str(),
            name,
        ) {
            return i;
        }
        i += 1;
    }
    assert(all.skip(i as int).len() == 0);
    i
}

/// The position of an uploaded file among the entries of its directory.
pub fn resolve_uploaded_baidu_remote_entry(
    entries: &Vec<BaiduRemoteEntry>,
    expected_name: &str,
    fallback_name: &str,
    local_size: u64,
) -> (r: Option<usize>)
    ensures
        match r {
            Some(i) => i < entries@.len() && uploaded_index(
                entry_views(entries@),
                expected_name@,
                fallback_name@,
                local_size,
            ) == Some(i as int),
            None => uploaded_index(
                entry_views(entries@),
                expected_name@,
                fallback_name@,
                local_size,
            ) is None,
        },
{
    let ghost all = entry_views(entries@);
    let a: usize = find_named_upload(entries, expected_name, local_size);
    if a < entries.len() {
        return Some(a);
    }
    let bare = trim_text(fallback_name);
    if !bare.as_str().is_empty() {
        let b: usize = find_named_upload(entries, fallback_name, local_size);
        if b < entries.len() {
            return Some(b);
        }
    }
    let mut count: usize = 0;
    let mut first: usize = entries.len();
    let mut i: usize = 0;
    assert(all.skip(0) =~= all);
    while i < entries.len()
        invariant
            i <= entries@.len(),
            count <= i,
            all == entry_views(entries@),
            upload_count(all, local_size) == count + upload_count(all.skip(i as int), local_size),
            count == 0 ==> first == entries@.len() && first_upload(all, local_size) == i
                + first_upload(all.skip(i as int), local_size),
            count > 0 ==> first < i && first == first_upload(all, local_size),
        decreases entries.len() - i,
    {
        assert(all.skip(i as int)[0] == entries@[i as int]@);
        assert(all.skip(i as int).drop_first() =~= all.skip(i + 1));
        if !entries[i].is_dir && (local_size == 0 || entries[i].size == local_size) {
            if count == 0 {
                first = i;
            }
            count += 1;
        }
        i += 1;
    }
    assert(all.skip(i as int).len() == 0);
    if count == 1 {
        Some(first)
    } else {
        None
    }
}

/// An upload is never taken for a directory, nor for a file of another size.
pub proof fn law_upload_fits(
    entries: Seq<RemoteEntryView>,
    expected: Seq<char>,
    fallback: Seq<char>,
    local_size: u64,
)
    ensures
        uploaded_index(entries, expected, fallback, local_size) matches Some(i) ==> 0 <= i
            < entries.len() && can_be_upload(entries[i], local_size),
{
    lemma_named_upload(entries, expected, local_size);
    lemma_named_upload(entries, fallback, local_size);
    lemma_first_upload(entries, local_size);
}

proof fn lemma_named_upload(entries: Seq<RemoteEntryView>, name: Seq<char>, local_size: u64)
    ensures
        0 <= named_upload(entries, name, local_size) <= entries.len(),
        named_upload(entries, name, local_size) < entries.len() ==> can_be_upload(
            entries[named_upload(entries, name, local_size)],
            local_size,
        ),
    decreases entries.len(),
{
    if entries.len() > 0 {
        lemma_named_upload(entries.drop_first(), name, local_size);
    }
}

proof fn lemma_first_upload(entries: Seq<RemoteEntryView>, local_size: u64)
    ensures
        0 <= first_upload(entries, local_size) <= entries.len(),
        first_upload(entries, local_size) < entries.len() ==> can_be_upload(
            entries[first_upload(entries, local_size)],
            local_size,
        ),
        first_upload(entries, local_size) == entries.len() ==> upload_count(entries, local_size)
            == 0,
    decreases entries.len(),
{
    if entries.len() > 0 {
        lemma_first_upload(entries.drop_first(), local_size);
    }
}

/// What is to be renamed, as JSON: an entry by its path, and its new name.
pub fn rename_list(from_path: &str, new_name: &str) -> (r: String)
    ensures
        r@ == json_text(
            JsonView::Array(
                seq![
                    JsonView::Object(
                        seq![
                            ("path"@, JsonView::Str(normal_path(from_path@))),
                            ("newname"@, JsonView::Str(new_name@)),
                        ],
                    ),
                ],
            ),
        ),
{
    let path = normalize_baidu_path(from_path);
    let fields: Vec<(String, Json)> = vec![
        (copy_text("path"), Json::Str(path)),
        (copy_text("newname"), Json::Str(copy_text(new_name))),
    ];
    proof {
        lemma_object_view(fields);
        assert(fields_view(fields@) =~= seq![
            ("path"@, JsonView::Str(normal_path(from_path@))),
            ("newname"@, JsonView::Str(new_name@)),
        ]);
    }
    let items: Vec<Json> = vec![Json::Object(fields)];
    proof {
        lemma_array_view(items);
        assert(list_view(items@) =~= seq![items@[0]@]);
    }
    write_json(&Json::Array(items))
}

// ---------------------------------------------------------------------------
// What replies tell

/// A reply without a number counts as refused, and one with zero as granted.
pub proof fn law_refusal_number(payload: JsonView)
    ensures
        integer_at(payload, "errno"@) is None ==> errno(payload) == -1,
        integer_at(payload, "errno"@) is Some ==> errno(payload) == integer_at(payload, "errno"@)->0,
{
}

/// Each interface has its own words for a request that failed and for one that was refused.
pub proof fn law_interface_words()
    ensures
        BaiduApi::List.request_label() == "请求百度网盘目录失败"@,
        BaiduApi::Create.request_label() == "请求百度网盘创建目录失败"@,
        BaiduApi::Rename.request_label() == "请求百度网盘重命名目录失败"@,
        BaiduApi::UserInfo.request_label() == "请求百度网盘用户信息失败"@,
        BaiduApi::List.refusal_label() == "百度网盘目录读取失败"@,
        BaiduApi::Create.refusal_label() == "百度网盘创建目录失败"@,
        BaiduApi::Rename.refusal_label() == "百度网盘重命名目录失败"@,
        BaiduApi::UserInfo.refusal_label() == "百度网盘用户信息读取失败"@,
{
}

/// An item of a reply is the entry that it names, with the path, the kind and the size that it
/// tells; one without a name is none.
pub proof fn law_item_is_its_entry(item: JsonView, dir: Seq<char>, name: Seq<char>)
    requires
        text_at(item, "server_filename"@) == Some(name),
    ensures
        trim(name).len() == 0 ==> item_entry(item, dir) is None,
        trim(name).len() > 0 ==> item_entry(item, dir) is Some && ({
            let e = item_entry(item, dir)->0;
            &&& e.name == trim(name)
            &&& text_at(item, "path"@) is Some ==> e.path == text_at(item, "path"@)->0
            &&& text_at(item, "path"@) is None ==> e.path == joined_path(dir, trim(name))
            &&& integer_at(item, "isdir"@) is Some ==> e.is_dir == (integer_at(item, "isdir"@)->0
                != 0)
            &&& integer_at(item, "isdir"@) is None ==> !e.is_dir
            &&& field(item, "size"@) is Some && natural(field(item, "size"@)->0) is Some ==> e.size
                == natural(field(item, "size"@)->0)->0
            &&& field(item, "size"@) is None ==> e.size == 0
        }),
{
}

/// Every item of a reply that has a name is listed, in its place.
pub proof fn law_every_item_listed(a: Seq<JsonView>, b: Seq<JsonView>, dir: Seq<char>)
    ensures
        item_entries(a + b, dir) == item_entries(a, dir) + item_entries(b, dir),
        b.len() == 1 && item_entry(b[0], dir) is Some ==> item_entries(b, dir) == seq![
            item_entry(b[0], dir)->0,
        ],
    decreases b.len(),
{
    if b.len() == 0 {
        assert(a + b =~= a);
        assert(item_entries(b, dir) =~= Seq::<RemoteEntryView>::empty());
        assert(item_entries(a, dir) + item_entries(b, dir) =~= item_entries(a, dir));
    } else {
        assert((a + b).drop_last() =~= a + b.drop_last());
        assert((a + b).last() == b.last());
        law_every_item_listed(a, b.drop_last(), dir);
        assert(item_entries(a + b, dir) =~= item_entries(a, dir) + item_entries(b, dir));
        if b.len() == 1 {
            assert(item_entries(b.drop_last(), dir) =~= Seq::<RemoteEntryView>::empty());
            if item_entry(b[0], dir) is Some {
                assert(item_entries(b, dir) =~= seq![item_entry(b[0], dir)->0]);
            }
        }
    }
}

/// The entries of a reply are those of its list.
pub proof fn law_reply_lists_items(payload: JsonView, list: Seq<JsonView>, dir: Seq<char>)
    ensures
        items_at(payload, "list"@) == Some(list) ==> reply_entries(payload, dir) == item_entries(
            list,
            dir,
        ),
        items_at(payload, "list"@) is None ==> reply_entries(payload, dir).len() == 0,
{
}

/// The user is told as a number or as a text.
pub proof fn law_user_told(payload: JsonView, n: i64)
    ensures
        integer_at(payload, "uk"@) == Some(n) ==> reply_uid(payload) == Some(decimal(n as int)),
        integer_at(payload, "uk"@) is None && text_at(payload, "uk"@) is Some && trim(
            text_at(payload, "uk"@)->0,
        ).len() > 0 ==> reply_uid(payload) == Some(trim(text_at(payload, "uk"@)->0)),
        integer_at(payload, "uk"@) is None && text_at(payload, "uk"@) is None ==> reply_uid(payload)
            is None,
{
}

/// The directories among entries are all that are marked so, in their order, with their names and
/// paths.
pub proof fn law_directories_picked(a: Seq<RemoteEntryView>, e: RemoteEntryView)
    ensures
        e.is_dir ==> dirs_of(a.push(e)) == dirs_of(a).push((e.name, e.path)),
        !e.is_dir ==> dirs_of(a.push(e)) == dirs_of(a),
        dirs_of(Seq::empty()).len() == 0,
{
    assert(a.push(e).drop_last() =~= a);
}

/// What is looked for is the first entry of its path or of its name.
pub proof fn law_first_entry_found(entries: Seq<RemoteEntryView>, target: Seq<char>, i: int)
    requires
        0 <= i <= entries.len(),
        forall|k: int|
            0 <= k < i ==> normal_path((#[trigger] entries[k]).path) != target && entries[k].name
                != parent_and_name(target).1,
        i < entries.len() ==> normal_path(entries[i].path) == target || entries[i].name
            == parent_and_name(target).1,
    ensures
        entry_index(entries, target) == i,
    decreases entries.len(),
{
    if i > 0 {
        assert(!entry_is(entries[0], target));
        let rest = entries.drop_first();
        assert forall|k: int| 0 <= k < i - 1 implies normal_path((#[trigger] rest[k]).path)
            != target && rest[k].name != parent_and_name(target).1 by {
            assert(rest[k] == entries[k + 1]);
        }
        if i < entries.len() {
            assert(rest[i - 1] == entries[i]);
        }
        law_first_entry_found(rest, target, i - 1);
    }
}

/// An upload is found under the name that it was to have, whatever else is there.
pub proof fn law_upload_found_by_name(
    entries: Seq<RemoteEntryView>,
    expected: Seq<char>,
    fallback: Seq<char>,
    local_size: u64,
    i: int,
)
    requires
        0 <= i < entries.len(),
        !entries[i].is_dir,
        entries[i].size == local_size,
        entries[i].name == expected,
    ensures
        ({
            let found = uploaded_index(entries, expected, fallback, local_size);
            found is Some && 0 <= found->0 < entries.len() && entries[found->0].name == expected
                && !entries[found->0].is_dir
        }),
{
    lemma_upload_by_name(entries, expected, local_size, i);
}

proof fn lemma_upload_by_name(entries: Seq<RemoteEntryView>, name: Seq<char>, local_size: u64, i: int)
    requires
        0 <= i < entries.len(),
        can_be_upload(entries[i], local_size),
        entries[i].name == name,
    ensures
        0 <= named_upload(entries, name, local_size) < entries.len(),
        entries[named_upload(entries, name, local_size)].name == name,
        !entries[named_upload(entries, name, local_size)].is_dir,
    decreases entries.len(),
{
    if !(can_be_upload(entries[0], local_size) && entries[0].name == name) {
        let rest = entries.drop_first();
        assert(rest[i - 1] == entries[i]);
        lemma_upload_by_name(rest, name, local_size, i - 1);
        let k = named_upload(rest, name, local_size);
        assert(rest[k] == entries[k + 1]);
    }
}

/// A text counts where it holds something, without the white space around it.
pub proof fn law_blank_is_nothing(s: Seq<char>)
    ensures
        trim(s).len() > 0 ==> filled(Some(s)) == Some(trim(s)),
        trim(s).len() == 0 ==> filled(Some(s)) is None,
        filled(None) is None,
{
}

/// Where no name helps, an upload is found just where one file alone can be it.
pub proof fn law_only_file_is_upload(
    entries: Seq<RemoteEntryView>,
    expected: Seq<char>,
    fallback: Seq<char>,
    local_size: u64,
    i: int,
)
    requires
        0 <= i < entries.len(),
        can_be_upload(entries[i], local_size),
        entries[i].name != expected,
        entries[i].name != fallback,
        forall|k: int|
            0 <= k < entries.len() && k != i ==> !can_be_upload(#[trigger] entries[k], local_size),
    ensures
        uploaded_index(entries, expected, fallback, local_size) == Some(i),
{
    lemma_no_upload_named(entries, expected, local_size);
    lemma_no_upload_named(entries, fallback, local_size);
    lemma_single_upload(entries, local_size, i);
}

proof fn lemma_no_upload_named(entries: Seq<RemoteEntryView>, name: Seq<char>, local_size: u64)
    requires
        forall|k: int|
            0 <= k < entries.len() ==> !can_be_upload(#[trigger] entries[k], local_size)
                || entries[k].name != name,
    ensures
        named_upload(entries, name, local_size) == entries.len(),
    decreases entries.len(),
{
    if entries.len() > 0 {
        let rest = entries.drop_first();
        assert(!can_be_upload(entries[0], local_size) || entries[0].name != name);
        assert forall|k: int| 0 <= k < rest.len() implies !can_be_upload(
            #[trigger] rest[k],
            local_size,
        ) || rest[k].name != name by {
            assert(rest[k] == entries[k + 1]);
        }
        lemma_no_upload_named(rest, name, local_size);
    }
}

proof fn lemma_no_upload(entries: Seq<RemoteEntryView>, local_size: u64)
    requires
        forall|k: int|
            0 <= k < entries.len() ==> !can_be_upload(#[trigger] entries[k], local_size),
    ensures
        upload_count(entries, local_size) == 0,
    decreases entries.len(),
{
    if entries.len() > 0 {
        let rest = entries.drop_first();
        assert(!can_be_upload(entries[0], local_size));
        assert forall|k: int| 0 <= k < rest.len() implies !can_be_upload(
            #[trigger] rest[k],
            local_size,
        ) by {
            assert(rest[k] == entries[k + 1]);
        }
        lemma_no_upload(rest, local_size);
    }
}

proof fn lemma_single_upload(entries: Seq<RemoteEntryView>, local_size: u64, i: int)
    requires
        0 <= i < entries.len(),
        can_be_upload(entries[i], local_size),
        forall|k: int|
            0 <= k < entries.len() && k != i ==> !can_be_upload(#[trigger] entries[k], local_size),
    ensures
        upload_count(entries, local_size) == 1,
        first_upload(entries, local_size) == i,
    decreases entries.len(),
{
    let rest = entries.drop_first();
    if i == 0 {
        assert forall|k: int| 0 <= k < rest.len() implies !can_be_upload(
            #[trigger] rest[k],
            local_size,
        ) by {
            assert(rest[k] == entries[k + 1]);
        }
        lemma_no_upload(rest, local_size);
    } else {
        assert(!can_be_upload(entries[0], local_size));
        assert(rest[i - 1] == entries[i]);
        assert forall|k: int| 0 <= k < rest.len() && k != i - 1 implies !can_be_upload(
            #[trigger] rest[k],
            local_size,
        ) by {
            assert(rest[k] == entries[k + 1]);
        }
        lemma_single_upload(rest, local_size, i - 1);
    }
}

/// A file can be the upload where it has its size; of a file without a size that is not asked.
pub proof fn law_upload_has_its_size(entry: RemoteEntryView, local_size: u64)
    ensures
        entry.is_dir ==> !can_be_upload(entry, local_size),
        !entry.is_dir && entry.size == local_size ==> can_be_upload(entry, local_size),
        entry.size != local_size && local_size > 0 ==> !can_be_upload(entry, local_size),
        !entry.is_dir && local_size == 0 ==> can_be_upload(entry, local_size),
{
}

} // verus!
