//! Video mask projects: their names, the paths in their packages, and packing them up.

use crate::anchors::or_empty;
use crate::outside::{format_utc, parse_uuid, utc_text, uuid_text};
use crate::recording::{forward, forwarded};
use crate::session::opt_text;
use crate::text::{
    ascii_lower, concat2, copy_text, extend_text, is_text, last_index_of, last_position,
    law_trim_takes_space_off, lemma_index_of, lemma_last_index_of, lemma_split_concat,
    lemma_split_whole, lemma_trim_ends, lemma_trim_holds, lemma_trim_keeps_head, lemma_trim_pieces,
    lowered, piece, position, split, split_on, starts_with, texts, to_chars, to_text, trim,
    trim_start_char, trim_text, trimmed, trimmed_start_char, views,
};
use vstd::prelude::*;

verus! {

// ---------------------------------------------------------------------------
// Requests and answers

/// A request to create a project.
pub struct VideoMaskProjectCreatePayload {
    pub name: Option<String>,
}

/// A request about a project.
pub struct VideoMaskProjectIdPayload {
    pub project_id: String,
}

/// A request to rename a project.
pub struct VideoMaskProjectRenamePayload {
    pub project_id: String,
    pub name: String,
}

/// A request to take pictures into a project.
pub struct VideoMaskProjectAssetImportPayload {
    pub project_id: String,
    pub paths: Vec<String>,
}

/// A request to pack a project up.
pub struct VideoMaskProjectExportPayload {
    pub project_id: String,
    pub target_path: String,
}

/// A request to unpack a project.
pub struct VideoMaskProjectImportPayload {
    pub archive_path: String,
}

/// The answer to a request to save a project.
pub struct VideoMaskProjectSaveResult {
    pub revision: i64,
    pub updated_at: String,
}

/// The answer to a request to pack a project up.
pub struct VideoMaskProjectExportResult {
    pub path: String,
    pub source_included: bool,
    pub image_count: usize,
    pub output_included: bool,
    pub exported_at: String,
}

/// A picture of a project.
pub struct VideoMaskProjectAsset {
    pub id: String,
    pub original_name: String,
    pub managed_path: String,
    pub size_bytes: u64,
}

/// The id of a project in its usual form, or the error.
pub fn validated_project_id(raw: &str) -> (r: Result<String, String>)
    ensures
        match r {
            Ok(id) => uuid_text(trim(raw@)) == Some(id@) && uuid_text(id@) == Some(id@),
            Err(message) => uuid_text(trim(raw@)) is None && message@ == "项目ID无效"@,
        },
{
    let bare = trim_text(raw);
    match parse_uuid(bare.as_str()) {
        Some(id) => Ok(id),
        None => Err(copy_text("项目ID无效")),
    }
}

/// The time as it stands in the name of a project that has none. None where the calendar does
/// not reach it.
pub fn project_time_label(secs: i64, nanos: u32) -> (r: Option<String>)
    ensures
        opt_text(r) == utc_text(secs, nanos, "%Y-%m-%d %H:%M"@),
{
    format_utc(secs, nanos, "%Y-%m-%d %H:%M")
}

/// The name of a project: at most eighty characters, and one made of the time where none is
/// given.
pub open spec fn project_name(raw: Option<Seq<char>>, time_label: Seq<char>) -> Seq<char> {
    let name = trim(or_empty(raw));
    if name.len() == 0 {
        "未命名项目 "@ + time_label
    } else if name.len() > 80 {
        name.take(80)
    } else {
        name
    }
}

/// The name of a project.
pub fn normalized_project_name(raw: &Option<String>, time_label: &str) -> (r: String)
    ensures
        r@ == project_name(opt_text(*raw), time_label@),
{
    let name: Vec<char> = match raw {
        Some(s) => {
            let chars = to_chars(s.as_str());
            trimmed(chars.as_slice())
        },
        None => {
            let none: Vec<char> = Vec::new();
            assert(none@ =~= Seq::<char>::empty());
            trimmed(none.as_slice())
        },
    };
    if name.len() == 0 {
        return concat2("未命名项目 ", time_label);
    }
    if name.len() > 80 {
        let cut = piece(name.as_slice(), 0, 80);
        assert(cut@ =~= name@.take(80));
        return to_text(cut.as_slice());
    }
    to_text(name.as_slice())
}

/// The revision of a project after it is saved.
pub fn next_revision(revision: i64) -> (r: i64)
    ensures
        r == (if revision == i64::MAX {
            i64::MAX
        } else {
            (revision + 1) as i64
        }),
{
    if revision == i64::MAX {
        revision
    } else {
        revision + 1
    }
}

// ---------------------------------------------------------------------------
// File names

/// The parts of a path that count: no empty ones, and none that stand for the directory itself.
pub open spec fn counting_parts(parts: Seq<Seq<char>>) -> Seq<Seq<char>>
    decreases parts.len(),
{
    if parts.len() == 0 {
        Seq::empty()
    } else if parts.last().len() == 0 || parts.last() == "."@ {
        counting_parts(parts.drop_last())
    } else {
        counting_parts(parts.drop_last()).push(parts.last())
    }
}

/// The extension in a file name: what follows its last point, where something stands before it.
pub open spec fn name_extension(name: Seq<char>) -> Option<Seq<char>> {
    let at = last_index_of(name, '.');
    if name == ".."@ || at <= 0 {
        None
    } else {
        Some(name.skip(at + 1))
    }
}

/// The extension of the file at a path. A backslash separates the parts of a path on some systems
/// only.
pub open spec fn extension(path: Seq<char>, backslash: bool) -> Option<Seq<char>> {
    let parts = counting_parts(split_on(
        if backslash {
            forward(path)
        } else {
            path
        },
        '/',
    ));
    if parts.len() == 0 {
        None
    } else {
        name_extension(parts.last())
    }
}

/// The extension of the file at a path.
/// `backslash` tells whether a backslash separates the parts of a path.
pub fn find_extension(path: &[char], backslash: bool) -> (r: Option<Vec<char>>)
    ensures
        match r {
            Some(e) => extension(path@, backslash) == Some(e@),
            None => extension(path@, backslash) is None,
        },
{
    let parts = if backslash {
        let plain = forwarded(path);
        split(plain.as_slice(), '/')
    } else {
        split(path, '/')
    };
    let ghost all = views(parts@);
    let mut n: usize = parts.len();
    assert(all.take(all.len() as int) =~= all);
    while n > 0 && (parts[n - 1].len() == 0 || is_text(parts[n - 1].as_slice(), "."))
        invariant
            n <= parts@.len(),
            all == views(parts@),
            counting_parts(all.take(n as int)) == counting_parts(all),
        decreases n,
    {
        assert(all.take(n as int).drop_last() =~= all.take(n - 1));
        assert(all.take(n as int).last() == parts@[n - 1]@);
        n -= 1;
    }
    if n == 0 {
        assert(all.take(0) =~= Seq::<Seq<char>>::empty());
        return None;
    }
    assert(all.take(n as int).last() == parts@[n - 1]@);
    let name = &parts[n - 1];
    if is_text(name.as_slice(), "..") {
        return None;
    }
    match last_position(name.as_slice(), '.') {
        Some(at) => {
            if at == 0 {
                None
            } else {
                let len: usize = name.len();
                let e = piece(name.as_slice(), at + 1, len);
                assert(e@ =~= name@.skip(at + 1));
                Some(e)
            }
        },
        None => None,
    }
}

/// Tells whether the file at a path is a picture of a kind that masks can be made of.
pub open spec fn is_mask_image(path: Seq<char>, backslash: bool) -> bool {
    match extension(path, backslash) {
        Some(e) => {
            let l = ascii_lower(e);
            l == "png"@ || l == "jpg"@ || l == "jpeg"@ || l == "webp"@
        },
        None => false,
    }
}

/// Tells whether the file at a path is a picture of a kind that masks can be made of.
/// `backslash` tells whether a backslash separates the parts of a path.
pub fn supported_image(path: &str, backslash: bool) -> (r: bool)
    ensures
        r == is_mask_image(path@, backslash),
{
    let chars = to_chars(path);
    match find_extension(chars.as_slice(), backslash) {
        Some(e) => {
            let l = lowered(e.as_slice());
            is_text(l.as_slice(), "png") || is_text(l.as_slice(), "jpg") || is_text(
                l.as_slice(),
                "jpeg",
            ) || is_text(l.as_slice(), "webp")
        },
        None => false,
    }
}

/// Tells whether a character is an ASCII letter or digit.
pub open spec fn is_alphanumeric(c: char) -> bool {
    ('a' <= c && c <= 'z') || ('A' <= c && c <= 'Z') || ('0' <= c && c <= '9')
}

/// Tells whether a text is made of ASCII letters and digits.
pub open spec fn all_alphanumeric(s: Seq<char>) -> bool {
    forall|i: int| 0 <= i < s.len() ==> is_alphanumeric(#[trigger] s[i])
}

/// The extension of a file in a package: that of the file in lower case, or another where it
/// has none that can be used.
pub open spec fn package_extension(path: Seq<char>, other: Seq<char>, backslash: bool) -> Seq<char> {
    match extension(path, backslash) {
        Some(e) => {
            let l = ascii_lower(trim_start_char(trim(e), '.'));
            if l.len() > 0 && all_alphanumeric(l) {
                l
            } else {
                other
            }
        },
        None => other,
    }
}

/// The extension of a file in a package.
/// `backslash` tells whether a backslash separates the parts of a path.
pub fn extension_from_path(path: &str, fallback: &str, backslash: bool) -> (r: String)
    ensures
        r@ == package_extension(path@, fallback@, backslash),
{
    let chars = to_chars(path);
    match find_extension(chars.as_slice(), backslash) {
        Some(e) => {
            let t = trimmed(e.as_slice());
            let b = trimmed_start_char(t.as_slice(), '.');
            let l = lowered(b.as_slice());
            let mut i: usize = 0;
            while i < l.len()
                invariant
                    i <= l@.len(),
                    extension(path@, backslash) == Some(e@),
                    l@ == ascii_lower(trim_start_char(trim(e@), '.')),
                    forall|k: int| 0 <= k < i ==> is_alphanumeric(#[trigger] l@[k]),
                decreases l.len() - i,
            {
                let c = l[i];
                if !(('a' <= c && c <= 'z') || ('A' <= c && c <= 'Z') || ('0' <= c && c <= '9')) {
                    assert(!is_alphanumeric(l@[i as int]));
                    return copy_text(fallback);
                }
                i += 1;
            }
            if l.len() == 0 {
                copy_text(fallback)
            } else {
                to_text(l.as_slice())
            }
        },
        None => copy_text(fallback),
    }
}

/// A path by which files are told apart.
pub open spec fn path_key(raw: Seq<char>) -> Seq<char> {
    forward(trim(raw))
}

/// A path by which files are told apart.
pub fn normalized_path_key(raw: &str) -> (r: String)
    ensures
        r@ == path_key(raw@),
{
    let chars = to_chars(raw);
    let t = trimmed(chars.as_slice());
    let f = forwarded(t.as_slice());
    to_text(f.as_slice())
}

/// The last of some texts that is not blank.
pub open spec fn last_filled(parts: Seq<Seq<char>>) -> Option<Seq<char>>
    decreases parts.len(),
{
    if parts.len() == 0 {
        None
    } else if trim(parts.last()).len() > 0 {
        Some(parts.last())
    } else {
        last_filled(parts.drop_last())
    }
}

/// The last name along a path, or another where there is none.
pub open spec fn last_path_name(raw: Seq<char>, other: Seq<char>) -> Seq<char> {
    match last_filled(split_on(path_key(raw), '/')) {
        Some(name) => trim(name),
        None => trim(other),
    }
}

/// The last name along a path, before characters that file names cannot have are replaced.
pub fn file_name_from_any_path(raw: &str, fallback: &str) -> (r: String)
    ensures
        r@ == last_path_name(raw@, fallback@),
{
    let key = normalized_path_key(raw);
    let chars = to_chars(key.as_str());
    let parts = split(chars.as_slice(), '/');
    let ghost all = views(parts@);
    let mut n: usize = parts.len();
    assert(all.take(all.len() as int) =~= all);
    while n > 0
        invariant
            n <= parts@.len(),
            all == views(parts@),
            all == split_on(path_key(raw@), '/'),
            last_filled(all.take(n as int)) == last_filled(all),
        decreases n,
    {
        assert(all.take(n as int).drop_last() =~= all.take(n - 1));
        assert(all.take(n as int).last() == parts@[n - 1]@);
        let t = trimmed(parts[n - 1].as_slice());
        if t.len() > 0 {
            return to_text(t.as_slice());
        }
        n -= 1;
    }
    assert(all.take(0) =~= Seq::<Seq<char>>::empty());
    trim_text(fallback)
}

/// A file name once characters were replaced in it, or another where nothing is left of it.
pub fn settled_name(replaced: &str, fallback: &str) -> (r: String)
    ensures
        r@ == (if trim(replaced@).len() == 0 {
            fallback@
        } else {
            replaced@
        }),
{
    let bare = trim_text(replaced);
    if bare.as_str().is_empty() {
        copy_text(fallback)
    } else {
        copy_text(replaced)
    }
}

// ---------------------------------------------------------------------------
// Paths in packages

/// Tells whether a part of a path in a package is safe: an ordinary name. An empty part, and
/// one that stands for the directory itself, is passed over; the latter not at the beginning.
pub open spec fn safe_part(parts: Seq<Seq<char>>, i: int) -> bool {
    let p = parts[i];
    p.len() == 0 || (p == "."@ && i > 0) || (p != "."@ && p != ".."@ && trim(p).len() > 0)
}

/// Tells whether a path in a package is safe to unpack: relative, and leading nowhere else.
pub open spec fn safe_package_path(path: Seq<char>) -> bool {
    let t = trim(path);
    let parts = split_on(t, '/');
    &&& t.len() > 0
    &&& !t.contains('\\')
    &&& !t.contains(':')
    &&& t[0] != '/'
    &&& forall|i: int| 0 <= i < parts.len() ==> safe_part(parts, i)
}

/// Tells whether a path without drive is absolute. Where a backslash separates the parts of a path
/// too, it is only where it names a server and a share, or a device.
pub open spec fn absolute_path(path: Seq<char>, backslash: bool) -> bool {
    if backslash {
        &&& path.len() >= 2
        &&& path[0] == '/'
        &&& path[1] == '/'
        &&& ({
            let parts = split_on(path.skip(2), '/');
            parts.len() >= 2 && parts[0].len() > 0 && (parts[0] == "."@ || parts[1].len() > 0)
        })
    } else {
        path.len() > 0 && path[0] == '/'
    }
}

/// What is wrong with a path in a package, if anything is. `backslash` tells whether a backslash
/// separates the parts of a path.
pub open spec fn package_path_error(path: Seq<char>, backslash: bool) -> Option<Seq<char>> {
    let t = trim(path);
    if t.len() == 0 {
        Some("项目包内路径不能为空"@)
    } else if t.contains('\\') {
        Some("项目包内路径必须使用 / 分隔: "@ + t)
    } else if t.contains(':') {
        Some("项目包内路径不能包含盘符或协议: "@ + t)
    } else if absolute_path(t, backslash) {
        Some("项目包内路径不能是绝对路径: "@ + t)
    } else if !safe_package_path(path) {
        Some("项目包内路径不安全: "@ + t)
    } else {
        None
    }
}

fn is_absolute(path: &[char], backslash: bool) -> (r: bool)
    ensures
        r == absolute_path(path@, backslash),
{
    if !backslash {
        return path.len() > 0 && path[0] == '/';
    }
    if path.len() < 2 || path[0] != '/' || path[1] != '/' {
        return false;
    }
    let rest = vstd::slice::slice_subrange(path, 2, path.len());
    assert(rest@ =~= path@.skip(2));
    let parts = split(rest, '/');
    let ghost all = views(parts@);
    if parts.len() < 2 {
        return false;
    }
    assert(all[0] == parts@[0]@ && all[1] == parts@[1]@);
    parts[0].len() > 0 && (is_text(parts[0].as_slice(), ".") || parts[1].len() > 0)
}

fn holds_char(s: &[char], c: char) -> (r: bool)
    ensures
        r == s@.contains(c),
{
    proof {
        lemma_index_of(s@, c);
    }
    match position(s, c) {
        Some(i) => {
            assert(s@[i as int] == c);
            true
        },
        None => {
            assert forall|k: int| 0 <= k < s@.len() implies s@[k] != c by {}
            false
        },
    }
}

/// Tells whether a path in a package is safe to unpack: relative, and leading nowhere else.
/// `backslash` tells whether a backslash separates the parts of a path.
pub fn validate_package_path(path: &str, backslash: bool) -> (r: Result<(), String>)
    ensures
        r is Ok == safe_package_path(path@),
        opt_text(r.err()) == package_path_error(path@, backslash),
{
    let chars = to_chars(path);
    let t = trimmed(chars.as_slice());
    if t.len() == 0 {
        return Err(copy_text("项目包内路径不能为空"));
    }
    let text = to_text(t.as_slice());
    if holds_char(t.as_slice(), '\\') {
        return Err(concat2("项目包内路径必须使用 / 分隔: ", text.as_str()));
    }
    if holds_char(t.as_slice(), ':') {
        return Err(concat2("项目包内路径不能包含盘符或协议: ", text.as_str()));
    }
    if is_absolute(t.as_slice(), backslash) {
        return Err(concat2("项目包内路径不能是绝对路径: ", text.as_str()));
    }
    if t[0] == '/' {
        return Err(concat2("项目包内路径不安全: ", text.as_str()));
    }
    let parts = split(t.as_slice(), '/');
    let ghost all = views(parts@);
    let mut i: usize = 0;
    while i < parts.len()
        invariant
            i <= parts@.len(),
            all == views(parts@),
            t@ == trim(path@),
            text@ == t@,
            all == split_on(t@, '/'),
            t@.len() > 0,
            !t@.contains('\\'),
            !t@.contains(':'),
            t@[0] != '/',
            !absolute_path(t@, backslash),
            forall|k: int| 0 <= k < i ==> safe_part(all, k),
        decreases parts.len() - i,
    {
        assert(all[i as int] == parts@[i as int]@);
        let p = &parts[i];
        let bare = trimmed(p.as_slice());
        let dot = is_text(p.as_slice(), ".");
        let safe = p.len() == 0 || (dot && i > 0) || (!dot && !is_text(p.as_slice(), "..")
            && bare.len() > 0);
        if !safe {
            assert(!safe_part(all, i as int));
            return Err(concat2("项目包内路径不安全: ", text.as_str()));
        }
        i += 1;
    }
    Ok(())
}

/// A path that is accepted is relative, names no parent directory in any place, and has no
/// drive, no scheme and no foreign separator.
pub proof fn law_package_path_stays_inside(path: Seq<char>, i: int)
    requires
        safe_package_path(path),
        0 <= i < split_on(trim(path), '/').len(),
    ensures
        split_on(trim(path), '/')[i] != ".."@,
        split_on(trim(path), '/')[0].len() > 0,
        !trim(path).contains('\\'),
        !trim(path).contains(':'),
{
    let t = trim(path);
    let parts = split_on(t, '/');
    assert(safe_part(parts, i));
    assert(safe_part(parts, 0));
    reveal_strlit(".");
    reveal_strlit("..");
    assert(t.take(1) + t.skip(1) =~= t);
    crate::text::lemma_split_head(t.take(1), t.skip(1), '/');
}

/// Tells whether a character separates the parts of a path.
pub open spec fn separates(c: char, backslash: bool) -> bool {
    c == '/' || (backslash && c == '\\')
}

/// A relative path below a root.
pub open spec fn path_below(root: Seq<char>, path: Seq<char>, backslash: bool) -> Seq<char> {
    if root.len() == 0 || separates(root.last(), backslash) {
        root + path
    } else if backslash {
        root.push('\\') + path
    } else {
        root.push('/') + path
    }
}

/// The path of a file of a package below the root of a project, or what is wrong with its path in
/// the package. `backslash` tells whether a backslash separates the parts of a path.
pub fn project_path_from_package(root: &str, package_path: &str, backslash: bool) -> (r: Result<
    String,
    String,
>)
    ensures
        match r {
            Ok(path) => safe_package_path(package_path@) && path@ == path_below(
                root@,
                package_path@,
                backslash,
            ),
            Err(message) => package_path_error(package_path@, backslash) == Some(message@),
        },
{
    if let Err(message) = validate_package_path(package_path, backslash) {
        return Err(message);
    }
    let mut out = to_chars(root);
    let len: usize = out.len();
    if len > 0 && !(out[len - 1] == '/' || (backslash && out[len - 1] == '\\')) {
        out.push(
            if backslash {
                '\\'
            } else {
                '/'
            },
        );
    }
    extend_text(&mut out, package_path);
    Ok(to_text(out.as_slice()))
}

/// A file of a package lies below the root of its project: its path begins with the root, what
/// follows is not blank and not absolute, and holds no backslash, no colon and no part that leads
/// to a parent directory.
pub proof fn law_project_path_stays_below(
    root: Seq<char>,
    package_path: Seq<char>,
    backslash: bool,
    i: int,
)
    requires
        safe_package_path(package_path),
        0 <= i < split_on(package_path, '/').len(),
    ensures
        starts_with(path_below(root, package_path, backslash), root),
        trim(package_path).len() > 0,
        package_path[0] != '/',
        !package_path.contains('\\'),
        !package_path.contains(':'),
        split_on(package_path, '/')[i] != ".."@,
{
    let p = path_below(root, package_path, backslash);
    assert(p.subrange(0, root.len() as int) =~= root);
    if package_path.contains('\\') {
        lemma_trim_holds(package_path, '\\');
    }
    if package_path.contains(':') {
        lemma_trim_holds(package_path, ':');
    }
    lemma_trim_ends(package_path);
    if package_path.len() > 0 && package_path[0] == '/' {
        assert(crate::text::trim_start(package_path) == package_path);
        lemma_trim_keeps_head(package_path);
    }
    reveal_strlit("..");
    if split_on(package_path, '/')[i] == ".."@ {
        lemma_trim_pieces(package_path, '/', i);
        law_package_path_stays_inside(package_path, i);
    }
}

/// The name of a project has eighty characters at most, and is what was given for it as far as that
/// goes; without one it is named by its time.
pub proof fn law_project_named(raw: Seq<char>, time_label: Seq<char>)
    ensures
        0 < trim(raw).len() <= 80 ==> project_name(Some(raw), time_label) == trim(raw),
        trim(raw).len() > 80 ==> project_name(Some(raw), time_label).len() == 80 && starts_with(
            trim(raw),
            project_name(Some(raw), time_label),
        ),
        trim(raw).len() == 0 ==> project_name(Some(raw), time_label) == "未命名项目 "@ + time_label,
        project_name(None, time_label) == "未命名项目 "@ + time_label,
{
    let none = Seq::<char>::empty();
    assert(trim(none) =~= none);
    if trim(raw).len() > 80 {
        assert(trim(raw).subrange(0, 80) =~= trim(raw).take(80));
    }
}

proof fn lemma_last_filled(parts: Seq<Seq<char>>, i: int)
    requires
        0 <= i < parts.len(),
        trim(parts[i]).len() > 0,
        forall|k: int| i < k < parts.len() ==> trim(#[trigger] parts[k]).len() == 0,
    ensures
        last_filled(parts) == Some(parts[i]),
    decreases parts.len(),
{
    let n = parts.len() - 1;
    if i < n {
        assert(trim(parts[n]).len() == 0);
        let rest = parts.drop_last();
        assert forall|k: int| i < k < rest.len() implies trim(#[trigger] rest[k]).len() == 0 by {
            assert(rest[k] == parts[k]);
        }
        assert(rest[i] == parts[i]);
        lemma_last_filled(rest, i);
    }
}

/// The name of a file is the last part of its path that holds something, whichever slashes part it.
pub proof fn law_file_named_last(raw: Seq<char>, other: Seq<char>, i: int)
    requires
        0 <= i < split_on(path_key(raw), '/').len(),
        trim(split_on(path_key(raw), '/')[i]).len() > 0,
        forall|k: int|
            i < k < split_on(path_key(raw), '/').len() ==> trim(
                #[trigger] split_on(path_key(raw), '/')[k],
            ).len() == 0,
    ensures
        last_path_name(raw, other) == trim(split_on(path_key(raw), '/')[i]),
        forall|k: int| 0 <= k < path_key(raw).len() ==> path_key(raw)[k] != '\\',
{
    lemma_last_filled(split_on(path_key(raw), '/'), i);
}

/// The extension of a file is what stands behind the last dot of its name; a dot in front is none.
pub proof fn law_extension_behind_dot(stem: Seq<char>, ext: Seq<char>)
    requires
        stem.len() > 0,
        forall|k: int| 0 <= k < ext.len() ==> ext[k] != '.',
        stem.push('.') + ext != ".."@,
    ensures
        name_extension(stem.push('.') + ext) == Some(ext),
        name_extension(ext) is None,
        name_extension(seq!['.'] + ext) is None,
{
    let whole = stem.push('.') + ext;
    lemma_last_index_of(whole, '.');
    let at = last_index_of(whole, '.');
    assert(whole[stem.len() as int] == '.');
    if at > stem.len() {
        assert(whole[at] == ext[at - stem.len() - 1]);
    }
    assert(at == stem.len());
    assert(whole.skip(at + 1) =~= ext);
    lemma_last_index_of(ext, '.');
    if last_index_of(ext, '.') >= 0 {
        assert(ext[last_index_of(ext, '.')] == '.');
    }
    let hidden = seq!['.'] + ext;
    lemma_last_index_of(hidden, '.');
    let h = last_index_of(hidden, '.');
    if h > 0 {
        assert(hidden[h] == ext[h - 1]);
    }
}

/// Four kinds of pictures make a mask, whatever the case of their extension.
pub proof fn law_mask_pictures(path: Seq<char>, backslash: bool)
    requires
        extension(path, backslash) is Some,
    ensures
        ({
            let l = ascii_lower(extension(path, backslash)->0);
            is_mask_image(path, backslash) == (l == "png"@ || l == "jpg"@ || l == "jpeg"@ || l
                == "webp"@)
        }),
{
}

/// A path below a root stands behind it, with one separator between the two: the one of the system,
/// where the root brings none.
pub proof fn law_path_below_its_root(root: Seq<char>, path: Seq<char>)
    requires
        root.len() > 0,
        root.last() != '/',
        root.last() != '\\',
    ensures
        path_below(root, path, false) == root + seq!['/'] + path,
        path_below(root, path, true) == root + seq!['\\'] + path,
        path_below(root.push('/'), path, false) == root + seq!['/'] + path,
        path_below(root.push('/'), path, true) == root + seq!['/'] + path,
        path_below(root.push('\\'), path, true) == root + seq!['\\'] + path,
        path_below(Seq::empty(), path, false) == path,
{
    assert(root.push('/') =~= root + seq!['/']);
    assert(root.push('\\') =~= root + seq!['\\']);
    assert(Seq::<char>::empty() + path =~= path);
}

/// A plain name is a path that a package may hold.
pub proof fn law_plain_name_is_safe(name: Seq<char>)
    requires
        name.len() > 0,
        trim(name) == name,
        name != "."@,
        name != ".."@,
        forall|k: int| 0 <= k < name.len() ==> name[k] != '/' && name[k] != '\\' && name[k] != ':',
    ensures
        safe_package_path(name),
        package_path_error(name, false) is None,
        safe_package_path("assets/"@ + name),
{
    lemma_split_whole(name, '/');
    let parts = split_on(name, '/');
    assert(parts[0] == name);
    assert forall|i: int| 0 <= i < parts.len() implies safe_part(parts, i) by {
        assert(i == 0);
    }
    reveal_strlit("assets/");
    reveal_strlit("assets");
    reveal_strlit(".");
    reveal_strlit("..");
    let dir = "assets"@;
    let whole = "assets/"@ + name;
    assert(whole =~= dir.push('/') + name);
    lemma_split_concat(dir, name, '/');
    lemma_split_whole(dir, '/');
    let both = split_on(whole, '/');
    assert(both =~= seq![dir, name]);
    assert(whole[0] == 'a');
    lemma_trim_ends(name);
    assert(whole.last() == name.last());
    let none = Seq::<char>::empty();
    assert(none + whole + none =~= whole);
    law_trim_takes_space_off(none, whole, none);
    assert(none + dir + none =~= dir);
    law_trim_takes_space_off(none, dir, none);
    assert(dir.len() == 6 && "."@.len() == 1 && ".."@.len() == 2);
    assert forall|i: int| 0 <= i < both.len() implies safe_part(both, i) by {}
    assert forall|k: int| 0 <= k < whole.len() implies whole[k] != '\\' && whole[k] != ':' by {
        if k >= 7 {
            assert(whole[k] == name[k - 7]);
        }
    }
}

/// The extension of a path is that of its last name.
pub proof fn law_extension_of_last_name(dir: Seq<char>, name: Seq<char>)
    requires
        name.len() > 0,
        name != "."@,
        forall|k: int| 0 <= k < name.len() ==> name[k] != '/' && name[k] != '\\',
    ensures
        extension(name, false) == name_extension(name),
        extension(dir.push('/') + name, false) == name_extension(name),
        extension(dir.push('\\') + name, true) == name_extension(name),
{
    lemma_split_whole(name, '/');
    lemma_counts_last(Seq::empty(), name);
    assert(Seq::<Seq<char>>::empty() + seq![name] =~= seq![name]);
    lemma_split_concat(dir, name, '/');
    lemma_counts_last(split_on(dir, '/'), name);
    let other = dir.push('\\') + name;
    assert(forward(other) =~= forward(dir).push('/') + name);
    lemma_split_concat(forward(dir), name, '/');
    lemma_counts_last(split_on(forward(dir), '/'), name);
}

proof fn lemma_counts_last(before: Seq<Seq<char>>, name: Seq<char>)
    requires
        name.len() > 0,
        name != "."@,
    ensures
        counting_parts(before + seq![name]).len() > 0,
        counting_parts(before + seq![name]).last() == name,
{
    let whole = before + seq![name];
    assert(whole.last() == name);
    assert(whole.drop_last() =~= before);
}

/// The parts of a path in a package: a doubled slash and a dot behind the first part are harmless,
/// the directory above never is, and neither is a blank.
pub proof fn law_parts_of_package_path(parts: Seq<Seq<char>>, i: int)
    ensures
        parts[i].len() == 0 ==> safe_part(parts, i),
        parts[i] == "."@ && i > 0 ==> safe_part(parts, i),
        parts[i] == "."@ && i == 0 ==> !safe_part(parts, i),
        parts[i] == ".."@ ==> !safe_part(parts, i),
        parts[i].len() > 0 && trim(parts[i]).len() == 0 ==> !safe_part(parts, i) || parts[i] == "."@,
{
    reveal_strlit(".");
    reveal_strlit("..");
    assert("."@.len() == 1 && ".."@.len() == 2);
}

} // verus!
