//! What the cloud storage's command line client prints, and what it comes to.

use crate::baidu_path::{join_baidu_path, joined_path};
use crate::outside::{lower_case, to_lower_case};
use crate::recording::nonempty;
use crate::session::opt_text;
use crate::text::{
    begins, chars_have, concat2, contains, copy_text, digits_of, ends_with, extend, extend_text,
    find, find_from, finishes, has, is_digit, is_text, join, joined, law_digits_read_back,
    law_trim_takes_space_off, lemma_digits_of, lemma_find_is_leftmost, lemma_split_concat,
    lemma_split_whole, lines, lines_of, occurs_at, parse_u64, piece, replaced_char, split, split_on,
    starts_with, substituted, text_eq, text_has, texts, to_chars, to_text, trim, trim_end_char,
    trim_text, trimmed, trimmed_end_char, u64_digits, u64_value, views, words, words_of,
};
use vstd::prelude::*;

verus! {

// ---------------------------------------------------------------------------
// Escape sequences

/// Tells whether a character is an ASCII letter.
pub open spec fn is_letter(c: char) -> bool {
    ('a' <= c && c <= 'z') || ('A' <= c && c <= 'Z')
}

/// What follows the first ASCII letter.
pub open spec fn after_letter(s: Seq<char>) -> Seq<char>
    decreases s.len(),
{
    if s.len() == 0 {
        s
    } else if is_letter(s[0]) {
        s.skip(1)
    } else {
        after_letter(s.skip(1))
    }
}

proof fn lemma_after_letter(s: Seq<char>)
    ensures
        after_letter(s).len() <= s.len(),
    decreases s.len(),
{
    if s.len() > 0 && !is_letter(s[0]) {
        lemma_after_letter(s.skip(1));
    }
}

/// A text without terminal escape sequences: an escape character goes, and with it, where a
/// bracket follows, all to the next letter.
pub open spec fn plain(s: Seq<char>) -> Seq<char>
    decreases s.len(),
    via plain_shrinks
{
    if s.len() == 0 {
        s
    } else if s[0] == '\u{1b}' {
        if s.len() > 1 && s[1] == '[' {
            plain(after_letter(s.skip(2)))
        } else {
            plain(s.skip(1))
        }
    } else {
        seq![s[0]] + plain(s.skip(1))
    }
}

#[via_fn]
proof fn plain_shrinks(s: Seq<char>) {
    if s.len() > 1 {
        lemma_after_letter(s.skip(2));
    }
}

/// A text without terminal escape sequences.
pub fn strip_ansi(s: &[char]) -> (r: Vec<char>)
    ensures
        r@ == plain(s@),
{
    let mut out: Vec<char> = Vec::new();
    let mut i: usize = 0;
    let len: usize = s.len();
    assert(s@.skip(0) =~= s@);
    while i < len
        invariant
            i <= len,
            len == s@.len(),
            out@ + plain(s@.skip(i as int)) == plain(s@),
        decreases len - i,
    {
        let ghost rest = s@.skip(i as int);
        assert(rest[0] == s@[i as int]);
        assert(rest.skip(1) =~= s@.skip(i + 1));
        let c = s[i];
        if c == '\u{1b}' {
            if i + 1 < len && s[i + 1] == '[' {
                assert(rest[1] == s@[i + 1]);
                assert(rest.skip(2) =~= s@.skip(i + 2));
                let ghost target = after_letter(s@.skip(i + 2));
                let mut j: usize = i + 2;
                let mut going = true;
                while going && j < len
                    invariant
                        i + 2 <= j <= len,
                        len == s@.len(),
                        going ==> target == after_letter(s@.skip(j as int)),
                        !going ==> target == s@.skip(j as int),
                    decreases len - j,
                {
                    assert(s@.skip(j as int)[0] == s@[j as int]);
                    assert(s@.skip(j as int).skip(1) =~= s@.skip(j + 1));
                    let d = s[j];
                    if ('a' <= d && d <= 'z') || ('A' <= d && d <= 'Z') {
                        going = false;
                    }
                    j += 1;
                }
                assert(target =~= s@.skip(j as int));
                i = j;
            } else {
                i += 1;
            }
        } else {
            out.push(c);
            assert(out@ + plain(s@.skip(i + 1)) =~= plain(s@));
            i += 1;
        }
    }
    assert(s@.skip(i as int) =~= Seq::<char>::empty());
    assert(out@ =~= plain(s@));
    out
}

// ---------------------------------------------------------------------------
// Listings

/// An entry of a remote directory.
pub struct BaiduRemoteEntry {
    pub name: String,
    pub path: String,
    pub is_dir: bool,
    pub size: u64,
}

/// An entry of a remote directory.
pub ghost struct RemoteEntryView {
    pub name: Seq<char>,
    pub path: Seq<char>,
    pub is_dir: bool,
    pub size: u64,
}

impl View for BaiduRemoteEntry {
    type V = RemoteEntryView;

    open spec fn view(&self) -> RemoteEntryView {
        RemoteEntryView {
            name: self.name@,
            path: self.path@,
            is_dir: self.is_dir,
            size: self.size,
        }
    }
}

/// The views of a list of entries.
pub open spec fn entry_views(v: Seq<BaiduRemoteEntry>) -> Seq<RemoteEntryView> {
    Seq::new(v.len(), |i: int| v[i]@)
}

/// Tells whether a character is ASCII white space.
pub open spec fn is_blank(c: char) -> bool {
    c == ' ' || c == '\t' || c == '\n' || c == '\u{c}' || c == '\r'
}

fn blank(c: char) -> (r: bool)
    ensures
        r == is_blank(c),
{
    c == ' ' || c == '\t' || c == '\n' || c == '\u{c}' || c == '\r'
}

/// Tells whether a gap between columns ends at a position: a run of at least two blanks.
pub open spec fn gap_ends_at(s: Seq<char>, b: int) -> bool {
    2 <= b <= s.len() && is_blank(s[b - 1]) && is_blank(s[b - 2]) && (b < s.len() ==> !is_blank(
        s[b],
    ))
}

/// Where the last gap that ends at or before a position ends.
pub open spec fn last_gap_end(s: Seq<char>, n: int) -> Option<int>
    decreases n,
{
    if n < 2 {
        None
    } else if gap_ends_at(s, n) {
        Some(n)
    } else {
        last_gap_end(s, n - 1)
    }
}

/// The last column of a line whose columns are separated by gaps; none where there is no gap,
/// or where the last one ends the line.
pub open spec fn last_column(s: Seq<char>) -> Option<Seq<char>> {
    match last_gap_end(s, s.len() as int) {
        Some(b) => if b < s.len() {
            Some(trim(s.skip(b)))
        } else {
            None
        },
        None => None,
    }
}

/// The last column of a line whose columns are separated by gaps.
pub fn extract_last_column(s: &[char]) -> (r: Option<Vec<char>>)
    ensures
        match r {
            Some(c) => last_column(s@) == Some(c@),
            None => last_column(s@) is None,
        },
{
    let len: usize = s.len();
    let mut n: usize = len;
    while n >= 2
        invariant
            n <= len,
            len == s@.len(),
            last_gap_end(s@, n as int) == last_gap_end(s@, len as int),
        decreases n,
    {
        if blank(s[n - 1]) && blank(s[n - 2]) && (n == len || !blank(s[n])) {
            assert(gap_ends_at(s@, n as int));
            if n < len {
                let rest = piece(s, n, len);
                assert(rest@ =~= s@.skip(n as int));
                return Some(trimmed(rest.as_slice()));
            }
            return None;
        }
        assert(!gap_ends_at(s@, n as int));
        n -= 1;
    }
    None
}

/// The columns of a line between bars, white space aside, without the empty ones.
pub open spec fn bar_columns(s: Seq<char>) -> Seq<Seq<char>> {
    nonempty(trims(split_on(s, '|')))
}

/// Texts with white space cut off.
pub open spec fn trims(parts: Seq<Seq<char>>) -> Seq<Seq<char>> {
    Seq::new(parts.len(), |i: int| trim(parts[i]))
}

/// The texts that are not empty once white space is cut off.
pub fn trimmed_nonempty(parts: &Vec<Vec<char>>) -> (r: Vec<Vec<char>>)
    ensures
        views(r@) == nonempty(trims(views(parts@))),
{
    let ghost all = trims(views(parts@));
    let mut out: Vec<Vec<char>> = Vec::new();
    let mut i: usize = 0;
    assert(all.take(0) =~= Seq::<Seq<char>>::empty());
    assert(views(out@) =~= Seq::<Seq<char>>::empty());
    while i < parts.len()
        invariant
            i <= parts@.len(),
            all == trims(views(parts@)),
            views(out@) == nonempty(all.take(i as int)),
        decreases parts.len() - i,
    {
        assert(all.take(i + 1).drop_last() =~= all.take(i as int));
        assert(all.take(i + 1).last() == trim(parts@[i as int]@));
        let ghost before = views(out@);
        let t = trimmed(parts[i].as_slice());
        if t.len() > 0 {
            let ghost added = t@;
            out.push(t);
            assert(views(out@) =~= before.push(added));
        }
        i += 1;
    }
    assert(all.take(i as int) =~= all);
    out
}

/// The cell of a listing's line that names the entry; none for a line that lists nothing.
pub open spec fn name_cell(line: Seq<char>) -> Option<Seq<char>> {
    let t = trim(plain(line));
    if t.len() == 0 || starts_with(t, "当前目录"@) || starts_with(t, "----"@) || contains(
        t,
        "文件总数"@,
    ) || contains(t, "目录总数"@) || contains(t, "总:"@) {
        None
    } else if contains(t, "|"@) {
        let columns = bar_columns(t);
        if columns.len() == 0 || contains(columns.last(), "文件(目录)"@) {
            None
        } else {
            Some(columns.last())
        }
    } else {
        match last_column(t) {
            Some(c) => Some(c),
            None => Some(t),
        }
    }
}

fn find_name_cell(line: &[char]) -> (r: Option<Vec<char>>)
    ensures
        match r {
            Some(c) => name_cell(line@) == Some(c@),
            None => name_cell(line@) is None,
        },
{
    let bare = strip_ansi(line);
    let t = trimmed(bare.as_slice());
    if t.len() == 0 || begins(t.as_slice(), "当前目录") || begins(t.as_slice(), "----")
        || chars_have(t.as_slice(), "文件总数") || chars_have(t.as_slice(), "目录总数")
        || chars_have(t.as_slice(), "总:") {
        return None;
    }
    if chars_have(t.as_slice(), "|") {
        let cells = split(t.as_slice(), '|');
        let mut columns = trimmed_nonempty(&cells);
        assert(views(columns@) == bar_columns(t@));
        assert(views(columns@).len() == columns@.len());
        let ghost all = columns@;
        match columns.pop() {
            Some(last) => {
                assert(views(all).last() == last@);
                if chars_have(last.as_slice(), "文件(目录)") {
                    None
                } else {
                    Some(last)
                }
            },
            None => None,
        }
    } else {
        match extract_last_column(t.as_slice()) {
            Some(c) => Some(c),
            None => Some(t),
        }
    }
}

/// The entry on a line of a listing of a directory.
pub open spec fn listed_entry(line: Seq<char>, base: Seq<char>) -> Option<RemoteEntryView> {
    match name_cell(line) {
        Some(cell) => {
            let name = trim(trim_end_char(cell, '/'));
            if name.len() == 0 {
                None
            } else {
                Some(
                    RemoteEntryView {
                        name,
                        path: joined_path(base, name),
                        is_dir: ends_with(cell, "/"@),
                        size: 0,
                    },
                )
            }
        },
        None => None,
    }
}

/// The entries on lines of a listing of a directory.
pub open spec fn listed_entries(listing: Seq<Seq<char>>, base: Seq<char>) -> Seq<RemoteEntryView>
    decreases listing.len(),
{
    if listing.len() == 0 {
        Seq::empty()
    } else {
        match listed_entry(listing.last(), base) {
            Some(entry) => listed_entries(listing.drop_last(), base).push(entry),
            None => listed_entries(listing.drop_last(), base),
        }
    }
}

/// The entries that a listing of a directory shows.
pub fn parse_baidu_ls_entries(output: &str, base_path: &str) -> (r: Vec<BaiduRemoteEntry>)
    ensures
        entry_views(r@) == listed_entries(lines_of(output@), base_path@),
{
    let chars = to_chars(output);
    let listing = lines(chars.as_slice());
    let ghost all = views(listing@);
    let mut out: Vec<BaiduRemoteEntry> = Vec::new();
    let mut i: usize = 0;
    assert(all.take(0) =~= Seq::<Seq<char>>::empty());
    assert(entry_views(out@) =~= Seq::<RemoteEntryView>::empty());
    while i < listing.len()
        invariant
            i <= listing@.len(),
            all == views(listing@),
            entry_views(out@) == listed_entries(all.take(i as int), base_path@),
        decreases listing.len() - i,
    {
        assert(all.take(i + 1).drop_last() =~= all.take(i as int));
        assert(all.take(i + 1).last() == listing@[i as int]@);
        if let Some(cell) = find_name_cell(listing[i].as_slice()) {
            let is_dir = finishes(cell.as_slice(), "/");
            let bare = trimmed_end_char(cell.as_slice(), '/');
            let name = trimmed(bare.as_slice());
            if name.len() > 0 {
                let text = to_text(name.as_slice());
                let path = join_baidu_path(base_path, text.as_str());
                let ghost before = entry_views(out@);
                let entry = BaiduRemoteEntry { name: text, path, is_dir, size: 0 };
                let ghost added = entry@;
                out.push(entry);
                assert(entry_views(out@) =~= before.push(added));
            }
        }
        i += 1;
    }
    assert(all.take(i as int) =~= all);
    out
}

// ---------------------------------------------------------------------------
// Summaries

/// A summary of what a command printed: its last lines on one line, cut at a length.
pub open spec fn summary(output: Seq<char>, max_lines: int, max_chars: int) -> Seq<char> {
    let kept = nonempty(trims(lines_of(output)));
    let start = if kept.len() > max_lines {
        kept.len() - max_lines
    } else {
        0
    };
    let whole = join(kept.skip(start), " | "@);
    if kept.len() == 0 {
        "无输出"@
    } else if whole.len() > max_chars {
        whole.take(max_chars) + "..."@
    } else {
        whole
    }
}

/// A summary of what a command printed.
pub fn summarize_command_output(output: &str, max_lines: usize, max_chars: usize) -> (r: String)
    ensures
        r@ == summary(output@, max_lines as int, max_chars as int),
{
    let chars = to_chars(output);
    let all = lines(chars.as_slice());
    let kept = trimmed_nonempty(&all);
    let ghost kv = views(kept@);
    assert(kv.len() == kept@.len());
    if kept.len() == 0 {
        return copy_text("无输出");
    }
    let start: usize = if kept.len() > max_lines {
        kept.len() - max_lines
    } else {
        0
    };
    let mut tail: Vec<Vec<char>> = Vec::new();
    let mut i: usize = start;
    while i < kept.len()
        invariant
            start <= i <= kept@.len(),
            kv == views(kept@),
            views(tail@) =~= kv.subrange(start as int, i as int),
        decreases kept.len() - i,
    {
        let len: usize = kept[i].len();
        let copy = piece(kept[i].as_slice(), 0, len);
        assert(copy@ =~= kept@[i as int]@);
        let ghost before = views(tail@);
        let ghost added = copy@;
        tail.push(copy);
        assert(views(tail@) =~= before.push(added));
        i += 1;
    }
    assert(views(tail@) =~= kv.skip(start as int));
    let whole = joined(&tail, " | ");
    if whole.len() > max_chars {
        let mut cut = piece(whole.as_slice(), 0, max_chars);
        assert(cut@ =~= whole@.take(max_chars as int));
        extend_text(&mut cut, "...");
        return to_text(cut.as_slice());
    }
    to_text(whole.as_slice())
}

/// A summary of the two streams of a command.
pub open spec fn summary_pair(stdout: Seq<char>, stderr: Seq<char>) -> Seq<char> {
    let out = summary(stdout, 12, 1200);
    let err = summary(stderr, 8, 600);
    if err == "无输出"@ {
        out
    } else if out == "无输出"@ {
        "stderr="@ + err
    } else {
        "stdout="@ + out + " | stderr="@ + err
    }
}

/// A summary of the two streams of a command.
pub fn summarize_command_output_pair(stdout: &str, stderr: &str) -> (r: String)
    ensures
        r@ == summary_pair(stdout@, stderr@),
{
    let out = summarize_command_output(stdout, 12, 1200);
    let err = summarize_command_output(stderr, 8, 600);
    if text_eq(err.as_str(), "无输出") {
        out
    } else if text_eq(out.as_str(), "无输出") {
        concat2("stderr=", err.as_str())
    } else {
        let mut chars = to_chars("stdout=");
        extend_text(&mut chars, out.as_str());
        extend_text(&mut chars, " | stderr=");
        extend_text(&mut chars, err.as_str());
        to_text(chars.as_slice())
    }
}

/// What a command printed.
pub struct CommandOutput {
    pub stdout: String,
    pub stderr: String,
}

/// A stream of a command with a warning on a line of its own at the end.
pub open spec fn warned(text: Seq<char>, warning: Seq<char>) -> Seq<char> {
    if text.len() > 0 && text.last() != '\n' {
        text.push('\n') + warning
    } else {
        text + warning
    }
}

/// Adds a warning to a stream of a command.
pub fn append_command_warning(text: &str, warning: &str) -> (r: String)
    ensures
        r@ == warned(text@, warning@),
{
    let mut chars = to_chars(text);
    let len: usize = chars.len();
    if len > 0 && chars[len - 1] != '\n' {
        chars.push('\n');
    }
    extend_text(&mut chars, warning);
    to_text(chars.as_slice())
}

/// Tells whether the output of a download speaks of a failure.
pub open spec fn speaks_of_download_failure(t: Seq<char>) -> bool {
    contains(t, "以下文件下载失败"@) || contains(t, "下载文件失败"@) || contains(
        t,
        "获取下载路径信息错误"@,
    ) || contains(t, "获取下载链接失败"@) || contains(t, "检测文件有效性失败"@) || contains(
        t,
        "检测文件大小一致性失败"@,
    ) || contains(t, "该文件校验失败"@)
}

/// The failure that the output of a download tells of.
pub open spec fn download_failure(stdout: Seq<char>) -> Option<Seq<char>> {
    let t = trim(stdout);
    if t.len() > 0 && speaks_of_download_failure(t) {
        Some(summary(t, 16, 1600))
    } else {
        None
    }
}

/// The failure that the output of a download tells of, where the client itself reports success.
pub fn detect_baidu_download_failure(output: &CommandOutput) -> (r: Option<String>)
    ensures
        opt_text(r) == download_failure(output.stdout@),
{
    let chars = to_chars(output.stdout.as_str());
    let t = trimmed(chars.as_slice());
    if t.len() == 0 {
        return None;
    }
    if chars_have(t.as_slice(), "以下文件下载失败") || chars_have(
        t.as_slice(),
        "下载文件失败",
    ) || chars_have(t.as_slice(), "获取下载路径信息错误") || chars_have(
        t.as_slice(),
        "获取下载链接失败",
    ) || chars_have(t.as_slice(), "检测文件有效性失败") || chars_have(
        t.as_slice(),
        "检测文件大小一致性失败",
    ) || chars_have(t.as_slice(), "该文件校验失败") {
        let text = to_text(t.as_slice());
        return Some(summarize_command_output(text.as_str(), 16, 1600));
    }
    None
}

/// What a finished download comes to.
pub fn download_result(success: bool, stdout: String, stderr: String) -> (r: Result<
    CommandOutput,
    String,
>)
    ensures
        match r {
            Ok(output) => success && download_failure(stdout@) is None && output.stdout@ == stdout@
                && output.stderr@ == stderr@,
            Err(message) => if success {
                download_failure(stdout@) matches Some(detail) && message@
                    == "BaiduPCS-Go 下载失败: "@ + detail
            } else {
                message@ == "BaiduPCS-Go 执行失败: "@ + summary_pair(stdout@, stderr@)
            },
        },
{
    if success {
        let output = CommandOutput { stdout, stderr };
        if let Some(detail) = detect_baidu_download_failure(&output) {
            return Err(concat2("BaiduPCS-Go 下载失败: ", detail.as_str()));
        }
        return Ok(output);
    }
    let detail = summarize_command_output_pair(stdout.as_str(), stderr.as_str());
    Err(concat2("BaiduPCS-Go 执行失败: ", detail.as_str()))
}

/// What a finished command or upload comes to: the client reports success for an upload that
/// failed, and says so in its output.
pub fn command_result(success: bool, stdout: String, stderr: String) -> (r: Result<
    CommandOutput,
    String,
>)
    ensures
        match r {
            Ok(output) => success && !contains(stdout@, "文件上传失败"@) && output.stdout@
                == stdout@ && output.stderr@ == stderr@,
            Err(message) => if success {
                contains(stdout@, "文件上传失败"@) && message@ == "上传失败: "@ + trim(stdout@)
            } else {
                message@ == "BaiduPCS-Go 执行失败: "@ + summary_pair(stdout@, stderr@)
            },
        },
{
    if success {
        if text_has(stdout.as_str(), "文件上传失败") {
            let bare = trim_text(stdout.as_str());
            return Err(concat2("上传失败: ", bare.as_str()));
        }
        return Ok(CommandOutput { stdout, stderr });
    }
    let detail = summarize_command_output_pair(stdout.as_str(), stderr.as_str());
    Err(concat2("BaiduPCS-Go 执行失败: ", detail.as_str()))
}

/// The error of a download whose file is nowhere: the client found nothing to download where
/// `empty` says that it counted no bytes of a file that has some.
pub fn lost_download_error(
    remote: &str,
    local: &str,
    snapshot: &str,
    expected_size: u64,
    empty: bool,
    output: &CommandOutput,
) -> (r: String)
    ensures
        r@ == (if expected_size > 0 && empty {
            "BaiduPCS-Go 未解析出可下载文件: remote="@ + remote@ + " expected_size="@ + digits_of(
                expected_size as nat,
            ) + " command="@ + summary_pair(output.stdout@, output.stderr@)
        } else {
            "网盘文件下载完成但未找到本地文件: remote="@ + remote@ + " local="@ + local@
                + " dir_snapshot="@ + snapshot@ + " command="@ + summary_pair(
                output.stdout@,
                output.stderr@,
            )
        }),
{
    let pair = summarize_command_output_pair(output.stdout.as_str(), output.stderr.as_str());
    if expected_size > 0 && empty {
        let number = u64_digits(expected_size);
        let mut out = to_chars("BaiduPCS-Go 未解析出可下载文件: remote=");
        extend_text(&mut out, remote);
        extend_text(&mut out, " expected_size=");
        extend(&mut out, number.as_slice());
        extend_text(&mut out, " command=");
        extend_text(&mut out, pair.as_str());
        return to_text(out.as_slice());
    }
    let mut out = to_chars("网盘文件下载完成但未找到本地文件: remote=");
    extend_text(&mut out, remote);
    extend_text(&mut out, " local=");
    extend_text(&mut out, local);
    extend_text(&mut out, " dir_snapshot=");
    extend_text(&mut out, snapshot);
    extend_text(&mut out, " command=");
    extend_text(&mut out, pair.as_str());
    to_text(out.as_slice())
}

// ---------------------------------------------------------------------------
// Arguments in messages

/// An argument of a command as messages show it: login data stays out.
pub open spec fn shown_arg(arg: Seq<char>) -> Seq<char> {
    if starts_with(arg, "-cookies="@) {
        "-cookies=<redacted>"@
    } else if starts_with(arg, "-bduss="@) {
        "-bduss=<redacted>"@
    } else if starts_with(arg, "-stoken="@) {
        "-stoken=<redacted>"@
    } else {
        arg
    }
}

/// The arguments of a command as messages show them.
pub open spec fn shown_args(args: Seq<Seq<char>>) -> Seq<char> {
    join(Seq::new(args.len(), |i: int| shown_arg(args[i])), " "@)
}

/// The arguments of a command as messages show them.
pub fn summarize_baidu_command_args(args: &[String]) -> (r: String)
    ensures
        r@ == shown_args(texts(args@)),
{
    let ghost all = Seq::new(texts(args@).len(), |i: int| shown_arg(texts(args@)[i]));
    let mut shown: Vec<Vec<char>> = Vec::new();
    let mut i: usize = 0;
    while i < args.len()
        invariant
            i <= args@.len(),
            all == Seq::new(texts(args@).len(), |i: int| shown_arg(texts(args@)[i])),
            views(shown@) =~= all.take(i as int),
        decreases args.len() - i,
    {
        let arg = to_chars(args[i].as_str());
        let s = if begins(arg.as_slice(), "-cookies=") {
            to_chars("-cookies=<redacted>")
        } else if begins(arg.as_slice(), "-bduss=") {
            to_chars("-bduss=<redacted>")
        } else if begins(arg.as_slice(), "-stoken=") {
            to_chars("-stoken=<redacted>")
        } else {
            arg
        };
        assert(s@ == all[i as int]);
        let ghost before = views(shown@);
        let ghost added = s@;
        shown.push(s);
        assert(views(shown@) =~= before.push(added));
        i += 1;
    }
    assert(views(shown@) =~= all);
    let line = joined(&shown, " ");
    to_text(line.as_slice())
}

/// What messages show of a command does not depend on the login data in its arguments: where
/// two commands differ only in what follows the name of such an argument, they are shown alike.
pub proof fn law_login_not_shown(a: Seq<Seq<char>>, b: Seq<Seq<char>>)
    requires
        a.len() == b.len(),
        forall|i: int|
            0 <= i < a.len() ==> #[trigger] a[i] == b[i] || (starts_with(a[i], "-cookies="@)
                && starts_with(b[i], "-cookies="@)) || (starts_with(a[i], "-bduss="@)
                && starts_with(b[i], "-bduss="@)) || (starts_with(a[i], "-stoken="@)
                && starts_with(b[i], "-stoken="@)),
    ensures
        shown_args(a) == shown_args(b),
{
    reveal_strlit("-cookies=");
    reveal_strlit("-bduss=");
    reveal_strlit("-stoken=");
    let sa = Seq::new(a.len(), |i: int| shown_arg(a[i]));
    let sb = Seq::new(b.len(), |i: int| shown_arg(b[i]));
    assert forall|i: int| 0 <= i < a.len() implies sa[i] == sb[i] by {
        if a[i] != b[i] {
            lemma_login_kinds(a[i]);
            lemma_login_kinds(b[i]);
        }
    }
    assert(sa =~= sb);
}

/// An argument carries one kind of login data at most.
proof fn lemma_login_kinds(arg: Seq<char>)
    ensures
        !(starts_with(arg, "-cookies="@) && starts_with(arg, "-bduss="@)),
        !(starts_with(arg, "-cookies="@) && starts_with(arg, "-stoken="@)),
        !(starts_with(arg, "-bduss="@) && starts_with(arg, "-stoken="@)),
{
    reveal_strlit("-cookies=");
    reveal_strlit("-bduss=");
    reveal_strlit("-stoken=");
    if starts_with(arg, "-cookies="@) {
        assert(arg[1] == "-cookies="@[1]);
    }
    if starts_with(arg, "-bduss="@) {
        assert(arg[1] == "-bduss="@[1]);
    }
    if starts_with(arg, "-stoken="@) {
        assert(arg[1] == "-stoken="@[1]);
    }
}

// ---------------------------------------------------------------------------
// Time limits

/// How long an upload may take, in nanoseconds.
pub const UPLOAD_TIMEOUT: u64 = 43_200_000_000_000;

/// How long an upload may be silent, in nanoseconds.
pub const UPLOAD_IDLE_TIMEOUT: u64 = 1_800_000_000_000;

/// The error of a command that ran into its time limit: it shows the error stream, else the
/// output.
pub open spec fn timeout_error(
    secs: u64,
    args: Seq<Seq<char>>,
    stdout: Seq<char>,
    stderr: Seq<char>,
) -> Seq<char> {
    let detail = if trim(stderr).len() > 0 {
        trim(stderr)
    } else if trim(stdout).len() > 0 {
        trim(stdout)
    } else {
        "无输出"@
    };
    "BaiduPCS-Go 执行超时("@ + digits_of(secs as nat) + "s): "@ + shown_args(args) + " | "@ + detail
}

/// The error of a command that ran into its time limit.
pub fn command_timeout_error(secs: u64, args: &[String], stdout: &str, stderr: &str) -> (r: String)
    ensures
        r@ == timeout_error(secs, texts(args@), stdout@, stderr@),
{
    let out = trim_text(stdout);
    let err = trim_text(stderr);
    let shown = summarize_baidu_command_args(args);
    let number = u64_digits(secs);
    let mut chars = to_chars("BaiduPCS-Go 执行超时(");
    extend(&mut chars, number.as_slice());
    extend_text(&mut chars, "s): ");
    extend_text(&mut chars, shown.as_str());
    extend_text(&mut chars, " | ");
    if !err.as_str().is_empty() {
        extend_text(&mut chars, err.as_str());
    } else if !out.as_str().is_empty() {
        extend_text(&mut chars, out.as_str());
    } else {
        extend_text(&mut chars, "无输出");
    }
    to_text(chars.as_slice())
}

/// Why an upload that has run and has been silent for given times is stopped, if it is.
pub open spec fn upload_timeout(elapsed: u64, silent: u64) -> Option<Seq<char>> {
    if elapsed >= UPLOAD_TIMEOUT {
        Some("总时长超过43200秒"@)
    } else if silent >= UPLOAD_IDLE_TIMEOUT {
        Some("1800秒无进度输出"@)
    } else {
        None
    }
}

/// The error of an upload that was stopped.
pub fn upload_timeout_error(reason: &str, args: &[String], stdout: &str, stderr: &str) -> (r:
    String)
    ensures
        r@ == "BaiduPCS-Go 上传超时: "@ + reason@ + " | "@ + shown_args(texts(args@)) + " | "@
            + summary_pair(stdout@, stderr@),
{
    let shown = summarize_baidu_command_args(args);
    let pair = summarize_command_output_pair(stdout, stderr);
    let mut chars = to_chars("BaiduPCS-Go 上传超时: ");
    extend_text(&mut chars, reason);
    extend_text(&mut chars, " | ");
    extend_text(&mut chars, shown.as_str());
    extend_text(&mut chars, " | ");
    extend_text(&mut chars, pair.as_str());
    to_text(chars.as_slice())
}

// ---------------------------------------------------------------------------
// Lines of a running upload

/// Tells whether a byte ends a line.
pub open spec fn ends_line(b: u8) -> bool {
    b == 10 || b == 13
}

/// Complete lines, and the bytes of the line that has not ended.
pub ghost struct LineState {
    pub done: Seq<Seq<u8>>,
    pub pending: Seq<u8>,
}

/// The lines with one more byte. An empty line is none.
pub open spec fn with_byte(s: LineState, b: u8) -> LineState {
    if !ends_line(b) {
        LineState { done: s.done, pending: s.pending.push(b) }
    } else if s.pending.len() == 0 {
        s
    } else {
        LineState { done: s.done.push(s.pending), pending: Seq::empty() }
    }
}

/// The lines with more bytes.
pub open spec fn with_bytes(s: LineState, more: Seq<u8>) -> LineState
    decreases more.len(),
{
    if more.len() == 0 {
        s
    } else {
        with_byte(with_bytes(s, more.drop_last()), more.last())
    }
}

/// The views of a list of lines.
pub open spec fn byte_views(v: Seq<Vec<u8>>) -> Seq<Seq<u8>> {
    Seq::new(v.len(), |i: int| v[i]@)
}

/// An upload that runs: when it began, when it last printed something, and the line that it is
/// printing.
pub struct UploadWatch {
    pub started_at: u64,
    pub last_activity: u64,
    pub pending: Vec<u8>,
}

impl UploadWatch {
    /// The watch over an upload that begins.
    pub fn new(now: u64) -> (r: Self)
        ensures
            r.started_at == now,
            r.last_activity == now,
            r.pending@.len() == 0,
    {
        UploadWatch { started_at: now, last_activity: now, pending: Vec::new() }
    }

    /// Takes bytes that the upload printed, and hands out the lines that they complete.
    pub fn on_output(&mut self, chunk: &[u8], now: u64) -> (r: Vec<Vec<u8>>)
        ensures
            final(self).started_at == old(self).started_at,
            final(self).last_activity == now,
            with_bytes(
                LineState { done: Seq::empty(), pending: old(self).pending@ },
                chunk@,
            ) == (LineState { done: byte_views(r@), pending: final(self).pending@ }),
    {
        let ghost begin = LineState { done: Seq::empty(), pending: self.pending@ };
        self.last_activity = now;
        let mut done: Vec<Vec<u8>> = Vec::new();
        let mut pending: Vec<u8> = Vec::new();
        std::mem::swap(&mut self.pending, &mut pending);
        let mut i: usize = 0;
        assert(chunk@.take(0) =~= Seq::<u8>::empty());
        assert(byte_views(done@) =~= Seq::<Seq<u8>>::empty());
        while i < chunk.len()
            invariant
                i <= chunk@.len(),
                begin == (LineState { done: Seq::empty(), pending: old(self).pending@ }),
                self.started_at == old(self).started_at,
                self.last_activity == now,
                with_bytes(begin, chunk@.take(i as int)) == (LineState {
                    done: byte_views(done@),
                    pending: pending@,
                }),
            decreases chunk.len() - i,
        {
            assert(chunk@.take(i + 1).drop_last() =~= chunk@.take(i as int));
            assert(chunk@.take(i + 1).last() == chunk@[i as int]);
            let b: u8 = chunk[i];
            if b == 10 || b == 13 {
                if pending.len() > 0 {
                    let ghost before = byte_views(done@);
                    let mut line: Vec<u8> = Vec::new();
                    std::mem::swap(&mut line, &mut pending);
                    let ghost added = line@;
                    done.push(line);
                    assert(byte_views(done@) =~= before.push(added));
                    assert(pending@ =~= Seq::<u8>::empty());
                } else {
                    assert(pending@ =~= Seq::<u8>::empty());
                }
            } else {
                pending.push(b);
            }
            i += 1;
        }
        assert(chunk@.take(i as int) =~= chunk@);
        self.pending = pending;
        done
    }

    /// The line that the upload was printing when its output ended, if there is one.
    pub fn finish(self) -> (r: Option<Vec<u8>>)
        ensures
            match r {
                Some(line) => line@ == self.pending@ && line@.len() > 0,
                None => self.pending@.len() == 0,
            },
    {
        if self.pending.len() == 0 {
            None
        } else {
            Some(self.pending)
        }
    }

    /// Why the upload is to be stopped, if it is.
    pub fn overdue(&self, now: u64) -> (r: Option<String>)
        requires
            self.started_at <= now,
            self.last_activity <= now,
        ensures
            opt_text(r) == upload_timeout(
                (now - self.started_at) as u64,
                (now - self.last_activity) as u64,
            ),
    {
        if now - self.started_at >= UPLOAD_TIMEOUT {
            Some(copy_text("总时长超过43200秒"))
        } else if now - self.last_activity >= UPLOAD_IDLE_TIMEOUT {
            Some(copy_text("1800秒无进度输出"))
        } else {
            None
        }
    }
}

/// How the output of an upload is cut into reads does not matter: the lines that two reads give
/// are those that one read of all the bytes gives.
pub proof fn law_reads_join(s: LineState, a: Seq<u8>, b: Seq<u8>)
    ensures
        with_bytes(with_bytes(s, a), b) == with_bytes(s, a + b),
    decreases b.len(),
{
    if b.len() == 0 {
        assert(a + b =~= a);
    } else {
        law_reads_join(s, a, b.drop_last());
        assert((a + b).drop_last() =~= a + b.drop_last());
        assert((a + b).last() == b.last());
    }
}

/// Where both limits are given time, an upload that prints something at least every half hour
/// is stopped only once it has run for twelve hours.
pub proof fn law_busy_upload_runs(elapsed: u64, silent: u64)
    requires
        silent < UPLOAD_IDLE_TIMEOUT,
    ensures
        upload_timeout(elapsed, silent) is Some <==> elapsed >= UPLOAD_TIMEOUT,
{
}

// ---------------------------------------------------------------------------
// Sizes

/// A size as text: the digits of its number, and how many bytes one of its units has.
pub struct SizeText {
    pub digits: String,
    pub factor: u64,
}

impl SizeText {
    /// The digits and the number of bytes in a unit.
    pub open spec fn view(&self) -> (Seq<char>, u64) {
        (self.digits@, self.factor)
    }
}

/// The views of a size that may be missing.
pub open spec fn opt_size(v: Option<SizeText>) -> Option<(Seq<char>, u64)> {
    match v {
        Some(s) => Some(s@),
        None => None,
    }
}

/// Tells whether a character belongs to the number of a size.
pub open spec fn in_number(c: char) -> bool {
    ('0' <= c && c <= '9') || c == '.'
}

/// The number of bytes that a unit stands for.
pub open spec fn unit_factor(unit: Seq<char>) -> Option<u64> {
    if unit == "KB"@ {
        Some(1024)
    } else if unit == "MB"@ {
        Some(1_048_576)
    } else if unit == "GB"@ {
        Some(1_073_741_824)
    } else if unit == "TB"@ {
        Some(1_099_511_627_776)
    } else if unit == "PB"@ {
        Some(1_125_899_906_842_624)
    } else if unit == "B"@ {
        Some(1)
    } else {
        None
    }
}

/// A size as text: digits and points make the number wherever they stand, all else the unit.
pub open spec fn size_of(value: Seq<char>) -> Option<(Seq<char>, u64)> {
    let v = trim(value);
    if v.len() == 0 {
        None
    } else {
        match unit_factor(v.filter(|c: char| !in_number(c))) {
            Some(factor) => Some((v.filter(|c: char| in_number(c)), factor)),
            None => None,
        }
    }
}

fn factor_of(unit: &[char]) -> (r: Option<u64>)
    ensures
        r == unit_factor(unit@),
{
    if is_text(unit, "KB") {
        Some(1024)
    } else if is_text(unit, "MB") {
        Some(1_048_576)
    } else if is_text(unit, "GB") {
        Some(1_073_741_824)
    } else if is_text(unit, "TB") {
        Some(1_099_511_627_776)
    } else if is_text(unit, "PB") {
        Some(1_125_899_906_842_624)
    } else if is_text(unit, "B") {
        Some(1)
    } else {
        None
    }
}

/// A size as text. Whether the digits are a number is left to who reads them.
pub fn parse_size(value: &[char]) -> (r: Option<SizeText>)
    ensures
        opt_size(r) == size_of(value@),
{
    let v = trimmed(value);
    if v.len() == 0 {
        return None;
    }
    let ghost is_number = |c: char| in_number(c);
    let ghost is_unit = |c: char| !in_number(c);
    let mut digits: Vec<char> = Vec::new();
    let mut unit: Vec<char> = Vec::new();
    let mut i: usize = 0;
    proof {
        reveal(Seq::filter);
    }
    assert(v@.take(0) =~= Seq::<char>::empty());
    assert(digits@ =~= v@.take(0).filter(is_number));
    assert(unit@ =~= v@.take(0).filter(is_unit));
    while i < v.len()
        invariant
            i <= v@.len(),
            is_number == (|c: char| in_number(c)),
            is_unit == (|c: char| !in_number(c)),
            digits@ == v@.take(i as int).filter(is_number),
            unit@ == v@.take(i as int).filter(is_unit),
        decreases v.len() - i,
    {
        let c = v[i];
        proof {
            reveal(Seq::filter);
            assert(v@.take(i + 1).drop_last() =~= v@.take(i as int));
            assert(v@.take(i + 1).last() == c);
        }
        if ('0' <= c && c <= '9') || c == '.' {
            digits.push(c);
        } else {
            unit.push(c);
        }
        i += 1;
    }
    assert(v@.take(i as int) =~= v@);
    match factor_of(unit.as_slice()) {
        Some(factor) => Some(SizeText { digits: to_text(digits.as_slice()), factor }),
        None => None,
    }
}

/// A line on which line ends count as spaces, without escape sequences.
pub open spec fn flat(line: Seq<char>) -> Seq<char> {
    substituted(substituted(plain(line), '\r', ' '), '\n', ' ')
}

fn flattened(line: &[char]) -> (r: Vec<char>)
    ensures
        r@ == flat(line@),
{
    let a = strip_ansi(line);
    let b = replaced_char(a.as_slice(), '\r', ' ');
    replaced_char(b.as_slice(), '\n', ' ')
}

/// The first of some words with a slash in it.
pub open spec fn first_with_slash(parts: Seq<Seq<char>>) -> Option<Seq<char>>
    decreases parts.len(),
{
    if parts.len() == 0 {
        None
    } else if contains(parts[0], "/"@) {
        Some(parts[0])
    } else {
        first_with_slash(parts.drop_first())
    }
}

/// How much of how much an upload has sent, on a line that tells it.
pub open spec fn progress_of(line: Seq<char>) -> Option<((Seq<char>, u64), (Seq<char>, u64))> {
    let cleaned = flat(line);
    match find_from(cleaned, "↑"@, 0) {
        Some(at) => match first_with_slash(words_of(cleaned.skip(at + 1))) {
            Some(word) => {
                let sizes = split_on(word, '/');
                if sizes.len() != 2 {
                    None
                } else {
                    match (size_of(sizes[0]), size_of(sizes[1])) {
                        (Some(sent), Some(total)) => Some((sent, total)),
                        _ => None,
                    }
                }
            },
            None => None,
        },
        None => None,
    }
}

/// How much of how much an upload has sent, on a line that tells it.
pub fn parse_progress_line(line: &str) -> (r: Option<(SizeText, SizeText)>)
    ensures
        match r {
            Some(p) => progress_of(line@) == Some((p.0@, p.1@)),
            None => progress_of(line@) is None,
        },
{
    let chars = to_chars(line);
    let cleaned = flattened(chars.as_slice());
    let arrow = to_chars("↑");
    proof {
        reveal_strlit("↑");
    }
    let at: usize = match find(cleaned.as_slice(), arrow.as_slice(), 0) {
        Some(i) => i,
        None => {
            return None;
        },
    };
    let len: usize = cleaned.len();
    assert(at + 1 <= len);
    let rest = piece(cleaned.as_slice(), at + 1, len);
    assert(rest@ =~= cleaned@.skip(at + 1));
    let parts = words(rest.as_slice());
    let ghost all = views(parts@);
    let mut i: usize = 0;
    assert(all.skip(0) =~= all);
    while i < parts.len()
        invariant
            i <= parts@.len(),
            all == views(parts@),
            find_from(flat(line@), "↑"@, 0) == Some(at as int),
            all == words_of(flat(line@).skip(at + 1)),
            first_with_slash(all) == first_with_slash(all.skip(i as int)),
        decreases parts.len() - i,
    {
        assert(all.skip(i as int)[0] == parts@[i as int]@);
        assert(all.skip(i as int).drop_first() =~= all.skip(i + 1));
        if chars_have(parts[i].as_slice(), "/") {
            let sizes = split(parts[i].as_slice(), '/');
            assert(views(sizes@).len() == sizes@.len());
            if sizes.len() != 2 {
                return None;
            }
            assert(views(sizes@)[0] == sizes@[0]@);
            assert(views(sizes@)[1] == sizes@[1]@);
            let sent = parse_size(sizes[0].as_slice());
            let total = parse_size(sizes[1].as_slice());
            return match (sent, total) {
                (Some(a), Some(b)) => Some((a, b)),
                _ => None,
            };
        }
        i += 1;
    }
    assert(all.skip(i as int).len() == 0);
    None
}

/// The total size of a download, on the first line that tells it.
pub open spec fn total_size(listing: Seq<Seq<char>>) -> Option<(Seq<char>, u64)>
    decreases listing.len(),
{
    if listing.len() == 0 {
        None
    } else {
        match find_from(flat(listing[0]), "数据总量:"@, 0) {
            Some(at) => {
                let found = words_of(flat(listing[0]).skip(at + 5));
                if found.len() == 0 {
                    None
                } else {
                    size_of(found[0])
                }
            },
            None => total_size(listing.drop_first()),
        }
    }
}

/// The total size of a download, as its output tells it.
pub fn parse_download_total_size(output: &str) -> (r: Option<SizeText>)
    ensures
        opt_size(r) == total_size(lines_of(output@)),
{
    let chars = to_chars(output);
    let listing = lines(chars.as_slice());
    let ghost all = views(listing@);
    let marker = to_chars("数据总量:");
    proof {
        reveal_strlit("数据总量:");
    }
    let mut i: usize = 0;
    assert(all.skip(0) =~= all);
    while i < listing.len()
        invariant
            i <= listing@.len(),
            all == views(listing@),
            all == lines_of(output@),
            marker@ == "数据总量:"@,
            marker@.len() == 5,
            total_size(all) == total_size(all.skip(i as int)),
        decreases listing.len() - i,
    {
        assert(all.skip(i as int)[0] == listing@[i as int]@);
        assert(all.skip(i as int).drop_first() =~= all.skip(i + 1));
        let cleaned = flattened(listing[i].as_slice());
        if let Some(at) = find(cleaned.as_slice(), marker.as_slice(), 0) {
            let len: usize = cleaned.len();
            let rest = piece(cleaned.as_slice(), at + 5, len);
            assert(rest@ =~= cleaned@.skip(at + 5));
            let found = words(rest.as_slice());
            assert(views(found@).len() == found@.len());
            if found.len() == 0 {
                return None;
            }
            assert(views(found@)[0] == found@[0]@);
            return parse_size(found[0].as_slice());
        }
        i += 1;
    }
    assert(all.skip(i as int).len() == 0);
    None
}

/// The size on a line of an entry's details.
pub open spec fn line_size(line: Seq<char>) -> Option<u64> {
    let parts = words_of(line);
    if contains(line, "文件大小"@) && parts.len() >= 2 {
        u64_value(trim_end_char(trim(parts[1]), ','))
    } else {
        None
    }
}

/// The size in an entry's details, on the first line that has one.
pub open spec fn details_size(listing: Seq<Seq<char>>) -> Option<u64>
    decreases listing.len(),
{
    if listing.len() == 0 {
        None
    } else {
        match line_size(listing[0]) {
            Some(size) => Some(size),
            None => details_size(listing.drop_first()),
        }
    }
}

/// The size in an entry's details.
pub fn parse_meta_size(output: &str) -> (r: Option<u64>)
    ensures
        r == details_size(lines_of(output@)),
{
    let chars = to_chars(output);
    let listing = lines(chars.as_slice());
    let ghost all = views(listing@);
    let mut i: usize = 0;
    assert(all.skip(0) =~= all);
    while i < listing.len()
        invariant
            i <= listing@.len(),
            all == views(listing@),
            all == lines_of(output@),
            details_size(all) == details_size(all.skip(i as int)),
        decreases listing.len() - i,
    {
        assert(all.skip(i as int)[0] == listing@[i as int]@);
        assert(all.skip(i as int).drop_first() =~= all.skip(i + 1));
        if chars_have(listing[i].as_slice(), "文件大小") {
            let parts = words(listing[i].as_slice());
            assert(views(parts@).len() == parts@.len());
            if parts.len() >= 2 {
                assert(views(parts@)[1] == parts@[1]@);
                let bare = trimmed(parts[1].as_slice());
                let number = trimmed_end_char(bare.as_slice(), ',');
                if let Some(size) = parse_u64(number.as_slice()) {
                    return Some(size);
                }
            }
        }
        i += 1;
    }
    assert(all.skip(i as int).len() == 0);
    None
}

// ---------------------------------------------------------------------------
// Login state

/// What stands between two marks, white space aside; none where a mark is missing or nothing
/// stands between them.
pub open spec fn between(s: Seq<char>, start: Seq<char>, end: Seq<char>) -> Option<Seq<char>> {
    match find_from(s, start, 0) {
        Some(i) => {
            let rest = s.skip(i + start.len());
            match find_from(rest, end, 0) {
                Some(j) => if trim(rest.take(j)).len() == 0 {
                    None
                } else {
                    Some(trim(rest.take(j)))
                },
                None => None,
            }
        },
        None => None,
    }
}

/// What stands between two marks.
pub fn extract_between(content: &str, start: &str, end: &str) -> (r: Option<String>)
    ensures
        opt_text(r) == between(content@, start@, end@),
{
    let chars = to_chars(content);
    let start_mark = to_chars(start);
    let end_mark = to_chars(end);
    match find(chars.as_slice(), start_mark.as_slice(), 0) {
        Some(i) => {
            let len: usize = chars.len();
            assert(i + start_mark@.len() <= len);
            let rest = piece(chars.as_slice(), i + start_mark.len(), len);
            assert(rest@ =~= chars@.skip(i + start@.len()));
            match find(rest.as_slice(), end_mark.as_slice(), 0) {
                Some(j) => {
                    let inner = piece(rest.as_slice(), 0, j);
                    assert(inner@ =~= rest@.take(j as int));
                    let value = trimmed(inner.as_slice());
                    if value.len() == 0 {
                        None
                    } else {
                        Some(to_text(value.as_slice()))
                    }
                },
                None => None,
            }
        },
        None => None,
    }
}

/// Who is logged in, as the client tells it: whether anybody is, the uid and the name.
pub fn parse_who_output(output: &str) -> (r: (bool, Option<String>, Option<String>))
    ensures
        ({
            let out = contains(output@, "请先登录"@) || contains(output@, "uid: 0"@);
            &&& opt_text(r.1) == if out {
                None
            } else {
                between(output@, "uid:"@, ","@)
            }
            &&& opt_text(r.2) == if out {
                None
            } else {
                between(output@, "用户名:"@, ","@)
            }
            &&& r.0 == (r.1 is Some)
        }),
{
    if text_has(output, "请先登录") || text_has(output, "uid: 0") {
        return (false, None, None);
    }
    let uid = extract_between(output, "uid:", ",");
    let username = extract_between(output, "用户名:", ",");
    (uid.is_some(), uid, username)
}

/// Tells whether an error says that a remote entry is missing.
pub fn is_baidu_not_found_error(err: &str) -> (r: bool)
    ensures
        r == (contains(lower_case(err@), "not found"@) || contains(
            lower_case(err@),
            "no such file"@,
        ) || contains(err@, "未找到"@) || contains(err@, "不存在"@)),
{
    let lower = to_lower_case(err);
    text_has(lower.as_str(), "not found") || text_has(lower.as_str(), "no such file") || text_has(
        err,
        "未找到",
    ) || text_has(err, "不存在")
}

/// Tells whether an error of an upload may come from too many uploads at once.
pub fn is_baidu_upload_parallel_limit_error(err: &str) -> (r: bool)
    ensures
        r == (contains(err@, "当前上传单个文件最大并发量"@) || contains(
            err@,
            "最大同时上传文件数"@,
        ) || contains(err@, "文件上传失败"@)),
{
    text_has(err, "当前上传单个文件最大并发量") || text_has(err, "最大同时上传文件数")
        || text_has(err, "文件上传失败")
}

// ---------------------------------------------------------------------------
// What reading the output amounts to

proof fn lemma_code_skipped(code: Seq<char>, c: char, rest: Seq<char>)
    requires
        forall|k: int| 0 <= k < code.len() ==> !is_letter(#[trigger] code[k]),
        is_letter(c),
    ensures
        after_letter(code + seq![c] + rest) == rest,
    decreases code.len(),
{
    let whole = code + seq![c] + rest;
    if code.len() == 0 {
        assert(whole[0] == c);
        assert(whole.skip(1) =~= rest);
    } else {
        assert(!is_letter(code[0]));
        assert(whole[0] == code[0]);
        let more = code.skip(1);
        assert forall|k: int| 0 <= k < more.len() implies !is_letter(#[trigger] more[k]) by {
            assert(more[k] == code[k + 1]);
        }
        assert(whole.skip(1) =~= more + seq![c] + rest);
        lemma_code_skipped(more, c, rest);
    }
}

/// A text without escapes stays as it is, and a colour code leaves nothing behind but what follows
/// it.
pub proof fn law_colour_codes_taken_out(s: Seq<char>, code: Seq<char>, c: char)
    requires
        forall|k: int| 0 <= k < code.len() ==> !is_letter(#[trigger] code[k]),
        is_letter(c),
    ensures
        (forall|k: int| 0 <= k < s.len() ==> s[k] != '\u{1b}') ==> plain(s) == s,
        plain(seq!['\u{1b}', '['] + code + seq![c] + s) == plain(s),
    decreases s.len(),
{
    let whole = seq!['\u{1b}', '['] + code + seq![c] + s;
    assert(whole.skip(2) =~= code + seq![c] + s);
    lemma_code_skipped(code, c, s);
    if s.len() > 0 {
        law_colour_codes_taken_out(s.skip(1), code, c);
        if forall|k: int| 0 <= k < s.len() ==> s[k] != '\u{1b}' {
            assert forall|k: int| 0 <= k < s.skip(1).len() implies s.skip(1)[k] != '\u{1b}' by {
                assert(s.skip(1)[k] == s[k + 1]);
            }
            assert(s[0] != '\u{1b}');
            assert(seq![s[0]] + s.skip(1) =~= s);
        }
    }
}

proof fn lemma_last_gap(s: Seq<char>, n: int, b: int)
    requires
        2 <= b <= n <= s.len(),
        gap_ends_at(s, b),
        forall|k: int| b < k <= n ==> !gap_ends_at(s, k),
    ensures
        last_gap_end(s, n) == Some(b),
    decreases n,
{
    if n > b {
        lemma_last_gap(s, n - 1, b);
    }
}

/// Columns are parted by two blanks at least: what stands behind the last such gap is the last
/// column, and one blank parts nothing.
pub proof fn law_last_column_behind_gap(a: Seq<char>, b: Seq<char>)
    requires
        b.len() > 0,
        !is_blank(b[0]),
        !is_blank(b.last()),
        forall|k: int| 0 <= k < b.len() - 1 ==> !(is_blank(#[trigger] b[k]) && is_blank(b[k + 1])),
    ensures
        last_column(a + seq![' ', ' '] + b) == Some(trim(b)),
        last_column(b) is None,
{
    let s = a + seq![' ', ' '] + b;
    let at = a.len() + 2;
    assert(s[at - 1] == ' ' && s[at - 2] == ' ' && s[at as int] == b[0]);
    assert(gap_ends_at(s, at as int));
    assert forall|k: int| at < k <= s.len() implies !gap_ends_at(s, k) by {
        let j = k - at;
        assert(s[k - 1] == b[j - 1]);
        if j >= 2 {
            assert(s[k - 2] == b[j - 2]);
            let m = j - 2;
            assert(m + 1 == j - 1);
            assert(!(is_blank(b[m]) && is_blank(b[m + 1])));
        } else {
            assert(j == 1);
            assert(s[k - 1] == b[0]);
        }
    }
    lemma_last_gap(s, s.len() as int, at as int);
    assert(s.skip(at as int) =~= b);
    lemma_no_gap(b, b.len() as int);
}

proof fn lemma_no_gap(b: Seq<char>, n: int)
    requires
        0 <= n <= b.len(),
        forall|k: int| 0 <= k < b.len() - 1 ==> !(is_blank(#[trigger] b[k]) && is_blank(b[k + 1])),
    ensures
        last_gap_end(b, n) is None,
    decreases n,
{
    if n >= 2 {
        let m = n - 2;
        assert(!(is_blank(b[m]) && is_blank(b[m + 1])));
        lemma_no_gap(b, n - 1);
    }
}

/// Every line that names an entry lists it, in its place, and the others list nothing.
pub proof fn law_every_line_listed(a: Seq<Seq<char>>, b: Seq<Seq<char>>, base: Seq<char>)
    ensures
        listed_entries(a + b, base) == listed_entries(a, base) + listed_entries(b, base),
    decreases b.len(),
{
    if b.len() == 0 {
        assert(a + b =~= a);
        assert(listed_entries(b, base) =~= Seq::<RemoteEntryView>::empty());
        assert(listed_entries(a, base) + listed_entries(b, base) =~= listed_entries(a, base));
    } else {
        assert((a + b).drop_last() =~= a + b.drop_last());
        assert((a + b).last() == b.last());
        law_every_line_listed(a, b.drop_last(), base);
        assert(listed_entries(a + b, base) =~= listed_entries(a, base) + listed_entries(b, base));
    }
}

/// A line lists one entry at most: that of the name in its last column, in the directory that was
/// listed. A slash behind the name is that of a directory.
pub proof fn law_line_lists_its_name(line: Seq<char>, base: Seq<char>, name: Seq<char>)
    requires
        name.len() > 0,
        trim(name) == name,
        name.last() != '/',
    ensures
        name_cell(line) == Some(name) ==> listed_entries(seq![line], base) == seq![
            RemoteEntryView { name, path: joined_path(base, name), is_dir: false, size: 0 },
        ],
        name_cell(line) == Some(name.push('/')) ==> listed_entries(seq![line], base) == seq![
            RemoteEntryView { name, path: joined_path(base, name), is_dir: true, size: 0 },
        ],
        name_cell(line) is None ==> listed_entries(seq![line], base).len() == 0,
{
    reveal_strlit("/");
    assert("/"@.len() == 1 && "/"@[0] == '/');
    let listing = seq![line];
    reveal_with_fuel(listed_entries, 2);
    assert(listing.drop_last() =~= Seq::<Seq<char>>::empty());
    assert(listing.last() == line);
    let dir = name.push('/');
    assert(dir.drop_last() =~= name);
    assert(trim_end_char(name, '/') == name);
    assert(trim_end_char(dir, '/') == name);
    assert(dir.subrange(dir.len() - 1, dir.len() as int) =~= "/"@);
    assert(ends_with(dir, "/"@));
    if ends_with(name, "/"@) {
        assert(name.subrange(name.len() - 1, name.len() as int)[0] == '/');
    }
    assert(listed_entries(listing, base) =~= listed_entries(listing, base));
}

/// Headings, rules and totals are no entries.
pub proof fn law_headings_are_no_entries(line: Seq<char>)
    requires
        ({
            let t = trim(plain(line));
            t.len() == 0 || starts_with(t, "当前目录"@) || starts_with(t, "----"@) || contains(
                t,
                "文件总数"@,
            ) || contains(t, "目录总数"@) || contains(t, "总:"@)
        }),
    ensures
        name_cell(line) is None,
{
}

/// The name of an entry is what stands in the last column of its line that holds something, and the
/// whole line where it has no columns.
pub proof fn law_name_in_last_column(line: Seq<char>)
    requires
        ({
            let t = trim(plain(line));
            t.len() > 0 && !starts_with(t, "当前目录"@) && !starts_with(t, "----"@) && !contains(
                t,
                "文件总数"@,
            ) && !contains(t, "目录总数"@) && !contains(t, "总:"@)
        }),
    ensures
        ({
            let t = trim(plain(line));
            let columns = nonempty(trims(split_on(t, '|')));
            &&& contains(t, "|"@) && columns.len() > 0 && !contains(
                columns[columns.len() - 1],
                "文件(目录)"@,
            ) ==> name_cell(line) == Some(columns[columns.len() - 1])
            &&& !contains(t, "|"@) && last_column(t) is Some ==> name_cell(line) == last_column(t)
            &&& !contains(t, "|"@) && last_column(t) is None ==> name_cell(line) == Some(t)
        }),
{
}

/// What is told of a command is its last lines, at most so many and so many characters.
pub proof fn law_summary_is_the_end(output: Seq<char>, max_lines: int, max_chars: int)
    requires
        0 < max_lines,
        0 <= max_chars,
    ensures
        ({
            let kept = nonempty(trims(lines_of(output)));
            &&& kept.len() == 0 ==> summary(output, max_lines, max_chars) == "无输出"@
            &&& 0 < kept.len() <= max_lines && join(kept, " | "@).len() <= max_chars ==> summary(
                output,
                max_lines,
                max_chars,
            ) == join(kept, " | "@)
            &&& kept.len() > max_lines && join(kept.skip(kept.len() - max_lines), " | "@).len()
                <= max_chars ==> summary(output, max_lines, max_chars) == join(
                kept.skip(kept.len() - max_lines),
                " | "@,
            )
            &&& kept.len() > 0 ==> summary(output, max_lines, max_chars).len() <= max_chars + 3
        }),
{
    reveal_strlit("...");
    assert("..."@.len() == 3);
    let kept = nonempty(trims(lines_of(output)));
    assert(kept.skip(0) =~= kept);
}

/// Both outputs are told, each under its name; of an empty one nothing is.
pub proof fn law_both_outputs_told(stdout: Seq<char>, stderr: Seq<char>)
    ensures
        ({
            let out = summary(stdout, 12, 1200);
            let err = summary(stderr, 8, 600);
            &&& err == "无输出"@ ==> summary_pair(stdout, stderr) == out
            &&& err != "无输出"@ && out == "无输出"@ ==> summary_pair(stdout, stderr) == "stderr="@
                + err
            &&& err != "无输出"@ && out != "无输出"@ ==> summary_pair(stdout, stderr) == "stdout="@
                + out + " | stderr="@ + err
        }),
{
}

/// A download has failed where its output says so in one of the client's phrases.
pub proof fn law_failure_phrases(stdout: Seq<char>)
    ensures
        ({
            let t = trim(stdout);
            let said = contains(t, "以下文件下载失败"@) || contains(t, "下载文件失败"@) || contains(
                t,
                "获取下载路径信息错误"@,
            ) || contains(t, "获取下载链接失败"@) || contains(t, "检测文件有效性失败"@)
                || contains(t, "检测文件大小一致性失败"@) || contains(t, "该文件校验失败"@);
            download_failure(stdout) == (if t.len() > 0 && said {
                Some(summary(t, 16, 1600))
            } else {
                None
            })
        }),
{
}

/// A timeout tells how long it was, the command without its login data, and what was put out: the
/// errors before the rest.
pub proof fn law_timeout_told(
    secs: u64,
    args: Seq<Seq<char>>,
    stdout: Seq<char>,
    stderr: Seq<char>,
)
    ensures
        ({
            let start = "BaiduPCS-Go 执行超时("@ + digits_of(secs as nat) + "s): "@ + shown_args(args)
                + " | "@;
            &&& trim(stderr).len() > 0 ==> timeout_error(secs, args, stdout, stderr) == start
                + trim(stderr)
            &&& trim(stderr).len() == 0 && trim(stdout).len() > 0 ==> timeout_error(
                secs,
                args,
                stdout,
                stderr,
            ) == start + trim(stdout)
        }),
{
}

/// Each unit is a thousand and twenty-four of the one before.
pub proof fn law_units_by_1024()
    ensures
        unit_factor("B"@) == Some(1u64),
        unit_factor("KB"@)->0 == 1024 * unit_factor("B"@)->0,
        unit_factor("MB"@)->0 == 1024 * unit_factor("KB"@)->0,
        unit_factor("GB"@)->0 == 1024 * unit_factor("MB"@)->0,
        unit_factor("TB"@)->0 == 1024 * unit_factor("GB"@)->0,
        unit_factor("PB"@)->0 == 1024 * unit_factor("TB"@)->0,
{
    reveal_strlit("B");
    reveal_strlit("KB");
    reveal_strlit("MB");
    reveal_strlit("GB");
    reveal_strlit("TB");
    reveal_strlit("PB");
    assert("B"@.len() == 1 && "KB"@.len() == 2);
    assert("KB"@[0] == 'K' && "MB"@[0] == 'M' && "GB"@[0] == 'G' && "TB"@[0] == 'T' && "PB"@[0]
        == 'P');
}

proof fn lemma_filter_all(s: Seq<char>, f: spec_fn(char) -> bool)
    ensures
        (forall|k: int| 0 <= k < s.len() ==> f(#[trigger] s[k])) ==> s.filter(f) == s,
        (forall|k: int| 0 <= k < s.len() ==> !f(#[trigger] s[k])) ==> s.filter(f).len() == 0,
    decreases s.len(),
{
    reveal(Seq::filter);
    if s.len() > 0 {
        lemma_filter_all(s.drop_last(), f);
        if forall|k: int| 0 <= k < s.len() ==> f(#[trigger] s[k]) {
            assert forall|k: int| 0 <= k < s.drop_last().len() implies f(
                #[trigger] s.drop_last()[k],
            ) by {
                assert(s.drop_last()[k] == s[k]);
            }
            assert(f(s[s.len() - 1]));
            assert(s.drop_last().push(s.last()) =~= s);
        }
        if forall|k: int| 0 <= k < s.len() ==> !f(#[trigger] s[k]) {
            assert forall|k: int| 0 <= k < s.drop_last().len() implies !f(
                #[trigger] s.drop_last()[k],
            ) by {
                assert(s.drop_last()[k] == s[k]);
            }
            assert(!f(s[s.len() - 1]));
        }
    } else {
        assert(s.filter(f) =~= s);
    }
}

/// A size is a number with its unit behind it.
pub proof fn law_size_is_number_and_unit(number: Seq<char>, unit: Seq<char>)
    requires
        (number + unit).len() > 0,
        trim(number + unit) == number + unit,
        forall|k: int| 0 <= k < number.len() ==> in_number(#[trigger] number[k]),
        forall|k: int| 0 <= k < unit.len() ==> !in_number(#[trigger] unit[k]),
    ensures
        unit_factor(unit) is Some ==> size_of(number + unit) == Some(
            (number, unit_factor(unit)->0),
        ),
        unit_factor(unit) is None ==> size_of(number + unit) is None,
{
    let v = number + unit;
    let is = |c: char| in_number(c);
    let not = |c: char| !in_number(c);
    Seq::filter_distributes_over_add(number, unit, is);
    Seq::filter_distributes_over_add(number, unit, not);
    lemma_filter_all(number, is);
    lemma_filter_all(unit, is);
    lemma_filter_all(number, not);
    lemma_filter_all(unit, not);
    assert(v.filter(is) =~= number);
    assert(v.filter(not) =~= unit);
}

/// Behind the arrow of a progress line stands what was sent, a slash, and what there is to send.
pub proof fn law_progress_sent_of_total(
    line: Seq<char>,
    at: int,
    i: int,
    sent: Seq<char>,
    total: Seq<char>,
)
    requires
        find_from(flat(line), "↑"@, 0) == Some(at),
        0 <= i < words_of(flat(line).skip(at + 1)).len(),
        words_of(flat(line).skip(at + 1))[i] == sent.push('/') + total,
        forall|k: int|
            0 <= k < i ==> !contains(#[trigger] words_of(flat(line).skip(at + 1))[k], "/"@),
        forall|k: int| 0 <= k < sent.len() ==> sent[k] != '/',
        forall|k: int| 0 <= k < total.len() ==> total[k] != '/',
    ensures
        size_of(sent) is Some && size_of(total) is Some ==> progress_of(line) == Some(
            (size_of(sent)->0, size_of(total)->0),
        ),
        size_of(sent) is None || size_of(total) is None ==> progress_of(line) is None,
{
    reveal_strlit("/");
    let word = sent.push('/') + total;
    assert("/"@.len() == 1 && "/"@[0] == '/');
    assert(word.subrange(sent.len() as int, sent.len() as int + 1) =~= "/"@);
    assert(occurs_at(word, "/"@, sent.len() as int));
    lemma_first_with_slash(words_of(flat(line).skip(at + 1)), i);
    lemma_split_concat(sent, total, '/');
    lemma_split_whole(sent, '/');
    lemma_split_whole(total, '/');
    assert(split_on(word, '/') =~= seq![sent, total]);
}

proof fn lemma_first_with_slash(parts: Seq<Seq<char>>, i: int)
    requires
        0 <= i < parts.len(),
        contains(parts[i], "/"@),
        forall|k: int| 0 <= k < i ==> !contains(#[trigger] parts[k], "/"@),
    ensures
        first_with_slash(parts) == Some(parts[i]),
    decreases parts.len(),
{
    if i > 0 {
        assert(!contains(parts[0], "/"@));
        let rest = parts.drop_first();
        assert forall|k: int| 0 <= k < i - 1 implies !contains(#[trigger] rest[k], "/"@) by {
            assert(rest[k] == parts[k + 1]);
        }
        assert(rest[i - 1] == parts[i]);
        lemma_first_with_slash(rest, i - 1);
    }
}

/// The total is told by the first line that speaks of it, in the word behind its label.
pub proof fn law_total_behind_label(listing: Seq<Seq<char>>, i: int, at: int)
    requires
        0 <= i < listing.len(),
        find_from(flat(listing[i]), "数据总量:"@, 0) == Some(at),
        forall|k: int|
            0 <= k < i ==> find_from(flat(#[trigger] listing[k]), "数据总量:"@, 0) is None,
    ensures
        ({
            let found = words_of(flat(listing[i]).skip(at + "数据总量:"@.len()));
            found.len() > 0 ==> total_size(listing) == size_of(found[0])
        }),
    decreases listing.len(),
{
    reveal_strlit("数据总量:");
    assert("数据总量:"@.len() == 5);
    if i > 0 {
        assert(find_from(flat(listing[0]), "数据总量:"@, 0) is None);
        let rest = listing.drop_first();
        assert forall|k: int| 0 <= k < i - 1 implies find_from(
            flat(#[trigger] rest[k]),
            "数据总量:"@,
            0,
        ) is None by {
            assert(rest[k] == listing[k + 1]);
        }
        assert(rest[i - 1] == listing[i]);
        law_total_behind_label(rest, i - 1, at);
    }
}

/// The size of a file is the second word of the first line that speaks of it, with or without a
/// comma behind it.
pub proof fn law_file_size_in_details(listing: Seq<Seq<char>>, i: int, n: u64)
    requires
        0 <= i < listing.len(),
        contains(listing[i], "文件大小"@),
        words_of(listing[i]).len() >= 2,
        words_of(listing[i])[1] == digits_of(n as nat) || words_of(listing[i])[1] == digits_of(
            n as nat,
        ).push(','),
        forall|k: int| 0 <= k < i ==> !contains(#[trigger] listing[k], "文件大小"@),
    ensures
        details_size(listing) == Some(n),
    decreases listing.len(),
{
    if i > 0 {
        assert(!contains(listing[0], "文件大小"@));
        let rest = listing.drop_first();
        assert forall|k: int| 0 <= k < i - 1 implies !contains(#[trigger] rest[k], "文件大小"@) by {
            assert(rest[k] == listing[k + 1]);
        }
        assert(rest[i - 1] == listing[i]);
        law_file_size_in_details(rest, i - 1, n);
    } else {
        let d = digits_of(n as nat);
        let word = words_of(listing[0])[1];
        lemma_digits_of(n as nat);
        law_digits_read_back(n);
        assert(is_digit(d[0]));
        assert(is_digit(d[d.len() - 1]));
        let none = Seq::<char>::empty();
        assert(none + word + none =~= word);
        law_trim_takes_space_off(none, word, none);
        assert(d.push(',').drop_last() =~= d);
        assert(trim_end_char(d, ',') == d);
        assert(trim_end_char(d.push(','), ',') == d);
    }
}

/// What stands between two marks is what is found between them.
pub proof fn law_text_between_marks(
    a: Seq<char>,
    start: Seq<char>,
    b: Seq<char>,
    end: Seq<char>,
    c: Seq<char>,
)
    requires
        forall|k: int| 0 <= k < a.len() ==> !occurs_at(a + start + b + end + c, start, k),
        forall|k: int| 0 <= k < b.len() ==> !occurs_at(b + end + c, end, k),
        trim(b).len() > 0,
    ensures
        between(a + start + b + end + c, start, end) == Some(trim(b)),
{
    let s = a + start + b + end + c;
    let rest = b + end + c;
    lemma_find_is_leftmost(s, start, 0);
    lemma_find_is_leftmost(rest, end, 0);
    assert(s.subrange(a.len() as int, a.len() + start.len() as int) =~= start);
    assert(occurs_at(s, start, a.len() as int));
    assert(s.skip(a.len() + start.len() as int) =~= rest);
    assert(rest.subrange(b.len() as int, b.len() + end.len() as int) =~= end);
    assert(occurs_at(rest, end, b.len() as int));
    assert(find_from(s, start, 0) == Some(a.len() as int));
    assert(find_from(rest, end, 0) == Some(b.len() as int));
    assert(rest.take(b.len() as int) =~= b);
}

/// A line of output is handed on once its end has come, without it; an empty one is not.
pub proof fn law_line_handed_on(done: Seq<Seq<u8>>, line: Seq<u8>, end: u8)
    requires
        end == 10 || end == 13,
        forall|k: int| 0 <= k < line.len() ==> #[trigger] line[k] != 10 && line[k] != 13,
    ensures
        line.len() > 0 ==> with_bytes(
            LineState { done, pending: Seq::empty() },
            line.push(end),
        ) == (LineState { done: done.push(line), pending: Seq::empty() }),
        with_bytes(LineState { done, pending: Seq::empty() }, line) == (LineState {
            done,
            pending: line,
        }),
        with_bytes(LineState { done, pending: Seq::empty() }, seq![end]) == (LineState {
            done,
            pending: Seq::empty(),
        }),
    decreases line.len(),
{
    let s = LineState { done, pending: Seq::empty() };
    assert(line.push(end).drop_last() =~= line);
    assert(seq![end].drop_last() =~= Seq::<u8>::empty());
    reveal_with_fuel(with_bytes, 2);
    if line.len() > 0 {
        let init = line.drop_last();
        assert forall|k: int| 0 <= k < init.len() implies #[trigger] init[k] != 10 && init[k]
            != 13 by {
            assert(init[k] == line[k]);
        }
        law_line_handed_on(done, init, end);
        assert(line[line.len() - 1] != 10);
        assert(init.push(line.last()) =~= line);
    } else {
        assert(line =~= Seq::<u8>::empty());
    }
}

/// The arguments of a command are shown with blanks between them, its login data left out.
pub proof fn law_arguments_shown(a: Seq<Seq<char>>, arg: Seq<char>)
    ensures
        a.len() > 0 ==> shown_args(a.push(arg)) == shown_args(a) + " "@ + shown_arg(arg),
        shown_args(seq![arg]) == shown_arg(arg),
        !starts_with(arg, "-cookies="@) && !starts_with(arg, "-bduss="@) && !starts_with(
            arg,
            "-stoken="@,
        ) ==> shown_arg(arg) == arg,
{
    let all = a.push(arg);
    let shown = Seq::new(all.len(), |i: int| shown_arg(all[i]));
    let before = Seq::new(a.len(), |i: int| shown_arg(a[i]));
    assert(shown.drop_last() =~= before);
    assert(shown.last() == shown_arg(arg));
    let one = seq![arg];
    let alone = Seq::new(one.len(), |i: int| shown_arg(one[i]));
    assert(alone[0] == shown_arg(arg));
}

/// A warning begins its own line behind what was put out.
pub proof fn law_warning_on_its_line(text: Seq<char>, warning: Seq<char>)
    ensures
        text.len() > 0 && text.last() != '\n' ==> warned(text, warning) == text + seq!['\n']
            + warning,
        text.len() > 0 && text.last() == '\n' ==> warned(text, warning) == text + warning,
        text.len() == 0 ==> warned(text, warning) == warning,
{
    assert(text.push('\n') =~= text + seq!['\n']);
    if text.len() == 0 {
        assert(text + warning =~= warning);
    }
}

} // verus!
